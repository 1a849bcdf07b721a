//! The edit the code generator makes to a generated crate's manifest: docs.rs
//! metadata, the crate's features, and the runtime dependency.
use vstd::prelude::*;

verus! {

/// A TOML value.
#[verifier::external_type_specification]
#[verifier::external_body]
pub struct ExTomlValue(toml::Value);

/// The document that `toml::from_str` reads from `text`, if it is TOML.
pub uninterp spec fn toml_parsed(text: Seq<char>) -> Option<toml::Value>;

/// The text that `toml::to_string` writes for `v`, if it can write it.
pub uninterp spec fn toml_printed(v: toml::Value) -> Option<Seq<char>>;

/// The entries of `v` when it is a table.
pub uninterp spec fn toml_table(v: toml::Value) -> Option<Map<Seq<char>, toml::Value>>;

/// The text of `v` when it is a string.
pub uninterp spec fn toml_str(v: toml::Value) -> Option<Seq<char>>;

/// The items of `v` when it is an array.
pub uninterp spec fn toml_array(v: toml::Value) -> Option<Seq<toml::Value>>;

/// The value of `v` when it is a boolean.
pub uninterp spec fn toml_bool(v: toml::Value) -> Option<bool>;

/// `toml::from_str::<toml::Value>`: the document read from `text`.
#[verifier::external_body]
fn toml_from_str(text: &str) -> (r: Option<toml::Value>)
    ensures
        r == toml_parsed(text@),
{
    toml::from_str::<toml::Value>(text).ok()
}

/// `toml::to_string`: the text of `v`.
#[verifier::external_body]
fn toml_to_string(v: &toml::Value) -> (r: Option<String>)
    ensures
        match toml_printed(*v) {
            Some(s) => r matches Some(x) && x@ == s,
            None => r is None,
        },
{
    toml::to_string(v).ok()
}

/// `toml::Value::is_table`.
#[verifier::external_body]
fn toml_is_table(v: &toml::Value) -> (r: bool)
    ensures
        r == toml_table(*v) is Some,
{
    v.is_table()
}

/// `toml::Value::get` with a key, cloned: the entry `key` of a table.
#[verifier::external_body]
fn toml_get(v: &toml::Value, key: &str) -> (r: Option<toml::Value>)
    ensures
        match toml_table(*v) {
            Some(m) => if m.contains_key(key@) {
                r == Some(m[key@])
            } else {
                r is None
            },
            None => r is None,
        },
{
    v.get(key).cloned()
}

/// `toml::Value::as_str`, copied: the text of a string.
#[verifier::external_body]
fn toml_as_str(v: &toml::Value) -> (r: Option<String>)
    ensures
        match toml_str(*v) {
            Some(s) => r matches Some(x) && x@ == s,
            None => r is None,
        },
{
    match v.as_str() {
        Some(s) => Some(s.to_string()),
        None => None,
    }
}

/// `toml::map::Map::insert` on a table: sets entry `key` to `item`.
#[verifier::external_body]
fn toml_insert(v: &mut toml::Value, key: &str, item: toml::Value)
    requires
        toml_table(*old(v)) is Some,
    ensures
        toml_table(*final(v)) == Some(toml_table(*old(v))->0.insert(key@, item)),
{
    match v {
        toml::Value::Table(t) => {
            t.insert(key.to_string(), item);
        },
        _ => {},
    }
}

/// `toml::Value::Table(toml::map::Map::new())`: an empty table.
#[verifier::external_body]
fn toml_empty_table() -> (r: toml::Value)
    ensures
        toml_table(r) == Some(Map::<Seq<char>, toml::Value>::empty()),
{
    toml::Value::Table(toml::map::Map::new())
}

/// `toml::Value::Boolean`.
#[verifier::external_body]
fn toml_bool_value(b: bool) -> (r: toml::Value)
    ensures
        toml_bool(r) == Some(b),
{
    toml::Value::Boolean(b)
}

/// `toml::Value::String`.
#[verifier::external_body]
fn toml_str_value(s: &str) -> (r: toml::Value)
    ensures
        toml_str(r) == Some(s@),
{
    toml::Value::String(s.to_string())
}

/// `toml::Value::Array`.
#[verifier::external_body]
fn toml_array_value(items: Vec<toml::Value>) -> (r: toml::Value)
    ensures
        toml_array(r) == Some(items@),
{
    toml::Value::Array(items)
}

/// Why a manifest cannot be edited.
#[derive(Debug, Clone, Copy, PartialEq, Eq, Structural)]
pub enum ManifestError {
    /// The manifest is not TOML.
    Parse,
    /// The docs.rs metadata is not TOML.
    Metadata,
    /// The manifest is not a table.
    NotTable,
    /// The manifest has no `package` section.
    NoPackage,
    /// The `package` section is not a table.
    PackageNotTable,
    /// The `dependencies` section is not a table.
    DependenciesNotTable,
    /// The `package` section has no `name`.
    NoName,
    /// The package's `name` is not a string.
    NameNotStr,
    /// The edited manifest cannot be written as TOML.
    Print,
}

/// The docs.rs metadata that is added to the package section.
pub open spec fn docs_metadata_text() -> Seq<char> {
    "\n    [docs.rs]\n    all-features = true\n    "@
}

/// `v` is an array of the strings `strs`, in order.
pub open spec fn str_array(v: toml::Value, strs: Seq<Seq<char>>) -> bool {
    match toml_array(v) {
        Some(items) => items.len() == strs.len() && forall|i: int|
            0 <= i < items.len() ==> toml_str(#[trigger] items[i]) == Some(strs[i]),
        None => false,
    }
}

/// `v` is the generated crate's features table.
pub open spec fn features_table(v: toml::Value) -> bool {
    match toml_table(v) {
        Some(m) => {
            &&& m.dom() =~= set!["default"@, "std"@, "alloc"@, "string"@, "fmt"@, "bytes"@]
            &&& str_array(m["default"@], seq!["std"@, "string"@, "fmt"@, "bytes"@])
            &&& str_array(m["std"@], seq!["v_escape-base/std"@, "alloc"@])
            &&& str_array(m["alloc"@], seq!["v_escape-base/alloc"@])
            &&& str_array(m["string"@], seq!["v_escape-base/string"@])
            &&& str_array(m["fmt"@], seq!["v_escape-base/fmt"@])
            &&& str_array(m["bytes"@], seq!["v_escape-base/bytes"@])
        },
        None => false,
    }
}

/// `v` is the dependency `{ workspace = true }`.
pub open spec fn workspace_dependency(v: toml::Value) -> bool {
    match toml_table(v) {
        Some(m) => m.dom() =~= set!["workspace"@] && toml_bool(m["workspace"@]) == Some(true),
        None => false,
    }
}

/// The first reason why the manifest `src` cannot be edited, if any, before it
/// is written out.
pub open spec fn manifest_check(src: Seq<char>) -> Option<ManifestError> {
    match toml_parsed(src) {
        None => Some(ManifestError::Parse),
        Some(doc) => if toml_parsed(docs_metadata_text()) is None {
            Some(ManifestError::Metadata)
        } else {
            match toml_table(doc) {
                None => Some(ManifestError::NotTable),
                Some(root) => if !root.contains_key("package"@) {
                    Some(ManifestError::NoPackage)
                } else {
                    match toml_table(root["package"@]) {
                        None => Some(ManifestError::PackageNotTable),
                        Some(pkg) => if root.contains_key("dependencies"@) && toml_table(
                            root["dependencies"@],
                        ) is None {
                            Some(ManifestError::DependenciesNotTable)
                        } else if !pkg.contains_key("name"@) {
                            Some(ManifestError::NoName)
                        } else if toml_str(pkg["name"@]) is None {
                            Some(ManifestError::NameNotStr)
                        } else {
                            None
                        },
                    }
                },
            }
        },
    }
}

/// `e` is the manifest `src` with the docs.rs metadata in its package section,
/// the generated crate's features, and the runtime dependency, and `name` is the
/// package's name.
pub open spec fn manifest_edit(src: Seq<char>, e: toml::Value, name: Seq<char>) -> bool {
    match toml_parsed(src) {
        Some(doc) => match toml_table(doc) {
            Some(root) => match toml_table(root["package"@]) {
                Some(pkg) => {
                    let deps = if root.contains_key("dependencies"@) {
                        toml_table(root["dependencies"@])->0
                    } else {
                        Map::empty()
                    };
                    &&& root.contains_key("package"@)
                    &&& toml_str(pkg["name"@]) == Some(name)
                    &&& toml_table(e) matches Some(out)
                    &&& out.dom() =~= root.dom().insert("features"@).insert("dependencies"@)
                    &&& forall|k: Seq<char>|
                        #![trigger out[k]]
                        root.contains_key(k) && k != "package"@ && k != "features"@ && k
                            != "dependencies"@ ==> out[k] == root[k]
                    &&& toml_table(out["package"@]) == Some(
                        pkg.insert("metadata"@, toml_parsed(docs_metadata_text())->0),
                    )
                    &&& features_table(out["features"@])
                    &&& toml_table(out["dependencies"@]) matches Some(d) && d.dom() =~= deps.dom().insert(
                        "v_escape-base"@,
                    ) && workspace_dependency(d["v_escape-base"@]) && (forall|k: Seq<char>|
                        #![trigger d[k]]
                        deps.contains_key(k) && k != "v_escape-base"@ ==> d[k] == deps[k])
                },
                None => false,
            },
            None => false,
        },
        None => false,
    }
}

/// An array of the given strings.
fn str_array_value(strs: &[&str]) -> (r: toml::Value)
    ensures
        str_array(r, strs@.map_values(|s: &str| s@)),
{
    let mut items: Vec<toml::Value> = Vec::new();
    let mut i: usize = 0;
    while i < strs.len()
        invariant
            i <= strs@.len(),
            items@.len() == i,
            forall|j: int| 0 <= j < i ==> toml_str(#[trigger] items@[j]) == Some(strs@[j]@),
        decreases strs@.len() - i,
    {
        items.push(toml_str_value(strs[i]));
        i = i + 1;
    }
    toml_array_value(items)
}

/// The generated crate's features table.
fn features_value() -> (r: toml::Value)
    ensures
        features_table(r),
{
    let default = vec!["std", "string", "fmt", "bytes"];
    let std = vec!["v_escape-base/std", "alloc"];
    let alloc = vec!["v_escape-base/alloc"];
    let string = vec!["v_escape-base/string"];
    let fmt = vec!["v_escape-base/fmt"];
    let bytes = vec!["v_escape-base/bytes"];
    let a_default = str_array_value(default.as_slice());
    let a_std = str_array_value(std.as_slice());
    let a_alloc = str_array_value(alloc.as_slice());
    let a_string = str_array_value(string.as_slice());
    let a_fmt = str_array_value(fmt.as_slice());
    let a_bytes = str_array_value(bytes.as_slice());
    proof {
        assert(default@.map_values(|s: &str| s@) =~= seq!["std"@, "string"@, "fmt"@, "bytes"@]);
        assert(std@.map_values(|s: &str| s@) =~= seq!["v_escape-base/std"@, "alloc"@]);
        assert(alloc@.map_values(|s: &str| s@) =~= seq!["v_escape-base/alloc"@]);
        assert(string@.map_values(|s: &str| s@) =~= seq!["v_escape-base/string"@]);
        assert(fmt@.map_values(|s: &str| s@) =~= seq!["v_escape-base/fmt"@]);
        assert(bytes@.map_values(|s: &str| s@) =~= seq!["v_escape-base/bytes"@]);
    }
    let ghost va = (a_default, a_std, a_alloc, a_string, a_fmt, a_bytes);
    let mut t = toml_empty_table();
    toml_insert(&mut t, "default", a_default);
    toml_insert(&mut t, "std", a_std);
    toml_insert(&mut t, "alloc", a_alloc);
    toml_insert(&mut t, "string", a_string);
    toml_insert(&mut t, "fmt", a_fmt);
    toml_insert(&mut t, "bytes", a_bytes);
    proof {
        reveal_strlit("default");
        reveal_strlit("std");
        reveal_strlit("alloc");
        reveal_strlit("string");
        reveal_strlit("fmt");
        reveal_strlit("bytes");
        let m = toml_table(t)->0;
        assert("default"@.len() == 7 && "default"@[0] == 'd');
        assert("std"@.len() == 3 && "std"@[0] == 's');
        assert("alloc"@.len() == 5 && "alloc"@[0] == 'a');
        assert("string"@.len() == 6 && "string"@[0] == 's');
        assert("fmt"@.len() == 3 && "fmt"@[0] == 'f');
        assert("bytes"@.len() == 5 && "bytes"@[0] == 'b');
        assert(m["default"@] == va.0);
        assert(m["std"@] == va.1);
        assert(m["alloc"@] == va.2);
        assert(m["string"@] == va.3);
        assert(m["fmt"@] == va.4);
        assert(m["bytes"@] == va.5);
    }
    t
}

/// The dependency `{ workspace = true }`.
fn workspace_value() -> (r: toml::Value)
    ensures
        workspace_dependency(r),
{
    let mut t = toml_empty_table();
    toml_insert(&mut t, "workspace", toml_bool_value(true));
    t
}

/// Edit a generated crate's manifest: add the docs.rs metadata to its package
/// section, set its features, add the runtime dependency, and return the edited
/// manifest's text with the package's name.
pub fn edit_manifest(manifest: &str) -> (r: Result<(String, String), ManifestError>)
    ensures
        match manifest_check(manifest@) {
            Some(e) => r == Err::<(String, String), ManifestError>(e),
            None => {
                &&& r matches Ok((text, name)) ==> exists|e: toml::Value|
                    manifest_edit(manifest@, e, name@) && toml_printed(e) == Some(text@)
                &&& r matches Err(err) ==> err == ManifestError::Print && exists|e: toml::Value, name: Seq<char>|
                    manifest_edit(manifest@, e, name) && toml_printed(e) is None
            },
        },
{
    proof {
        reveal_strlit("package");
        reveal_strlit("features");
        reveal_strlit("dependencies");
        reveal_strlit("metadata");
        reveal_strlit("name");
        reveal_strlit("v_escape-base");
        assert("package"@.len() == 7 && "package"@[0] == 'p');
        assert("features"@.len() == 8);
        assert("dependencies"@.len() == 12);
        assert("metadata"@.len() == 8 && "metadata"@[0] == 'm');
        assert("name"@.len() == 4);
        assert("v_escape-base"@.len() == 13);
    }
    let mut doc = match toml_from_str(manifest) {
        Some(v) => v,
        None => {
            return Err(ManifestError::Parse);
        },
    };
    let meta = match toml_from_str("\n    [docs.rs]\n    all-features = true\n    ") {
        Some(v) => v,
        None => {
            return Err(ManifestError::Metadata);
        },
    };
    if !toml_is_table(&doc) {
        return Err(ManifestError::NotTable);
    }
    let mut package = match toml_get(&doc, "package") {
        Some(p) => p,
        None => {
            return Err(ManifestError::NoPackage);
        },
    };
    if !toml_is_table(&package) {
        return Err(ManifestError::PackageNotTable);
    }
    let ghost root = toml_table(doc)->0;
    let ghost pkg = toml_table(package)->0;
    toml_insert(&mut package, "metadata", meta);
    let name_value = toml_get(&package, "name");
    toml_insert(&mut doc, "package", package);
    toml_insert(&mut doc, "features", features_value());
    let mut deps = match toml_get(&doc, "dependencies") {
        Some(d) => d,
        None => toml_empty_table(),
    };
    if !toml_is_table(&deps) {
        return Err(ManifestError::DependenciesNotTable);
    }
    let ghost old_deps = toml_table(deps)->0;
    toml_insert(&mut deps, "v_escape-base", workspace_value());
    toml_insert(&mut doc, "dependencies", deps);
    let name = match name_value {
        Some(n) => match toml_as_str(&n) {
            Some(s) => s,
            None => {
                return Err(ManifestError::NameNotStr);
            },
        },
        None => {
            return Err(ManifestError::NoName);
        },
    };
    proof {
        assert(manifest_edit(manifest@, doc, name@));
    }
    match toml_to_string(&doc) {
        Some(text) => Ok((text, name)),
        None => Err(ManifestError::Print),
    }
}

} // verus!
