use v_escape::codegen::manifest::{edit_manifest, ManifestError};

fn strings(v: &toml::Value) -> Vec<String> {
    v.as_array()
        .unwrap()
        .iter()
        .map(|s| s.as_str().unwrap().to_string())
        .collect()
}

#[test]
fn manifest_is_edited() {
    let src = "[package]\nname = \"foo\"\nversion = \"0.1.0\"\n\n[dependencies]\nserde = \"1\"\n";
    let (text, name) = edit_manifest(src).unwrap();
    assert_eq!(name, "foo");
    let doc: toml::Value = toml::from_str(&text).unwrap();
    let package = &doc["package"];
    assert_eq!(package["name"].as_str(), Some("foo"));
    assert_eq!(package["version"].as_str(), Some("0.1.0"));
    assert_eq!(
        package["metadata"]["docs"]["rs"]["all-features"].as_bool(),
        Some(true)
    );
    let features = doc["features"].as_table().unwrap();
    assert_eq!(features.len(), 6);
    assert_eq!(strings(&features["default"]), ["std", "string", "fmt", "bytes"]);
    assert_eq!(strings(&features["std"]), ["v_escape-base/std", "alloc"]);
    assert_eq!(strings(&features["alloc"]), ["v_escape-base/alloc"]);
    assert_eq!(strings(&features["string"]), ["v_escape-base/string"]);
    assert_eq!(strings(&features["fmt"]), ["v_escape-base/fmt"]);
    assert_eq!(strings(&features["bytes"]), ["v_escape-base/bytes"]);
    let deps = doc["dependencies"].as_table().unwrap();
    assert_eq!(deps.len(), 2);
    assert_eq!(deps["serde"].as_str(), Some("1"));
    let base = deps["v_escape-base"].as_table().unwrap();
    assert_eq!(base.len(), 1);
    assert_eq!(base["workspace"].as_bool(), Some(true));
}

#[test]
fn manifest_without_dependencies_gets_them() {
    let (text, name) = edit_manifest("[package]\nname = \"bar\"\n").unwrap();
    assert_eq!(name, "bar");
    let doc: toml::Value = toml::from_str(&text).unwrap();
    let deps = doc["dependencies"].as_table().unwrap();
    assert_eq!(deps.len(), 1);
    assert_eq!(deps["v_escape-base"]["workspace"].as_bool(), Some(true));
}

#[test]
fn manifest_errors() {
    assert_eq!(edit_manifest("not [toml").unwrap_err(), ManifestError::Parse);
    assert_eq!(edit_manifest("x = 1\n").unwrap_err(), ManifestError::NoPackage);
    assert_eq!(edit_manifest("package = 1\n").unwrap_err(), ManifestError::PackageNotTable);
    assert_eq!(
        edit_manifest("dependencies = 3\n[package]\nversion = \"1\"\n").unwrap_err(),
        ManifestError::DependenciesNotTable
    );
    assert_eq!(
        edit_manifest("[package]\nversion = \"1\"\n").unwrap_err(),
        ManifestError::NoName
    );
    assert_eq!(
        edit_manifest("[package]\nname = 1\n").unwrap_err(),
        ManifestError::NameNotStr
    );
}
