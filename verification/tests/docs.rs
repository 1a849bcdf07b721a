use v_escape::codegen::docs::{escape_md_inline_code, render_module_doc, render_source_byte};

#[test]
fn source_byte_printable() {
    assert_eq!(render_source_byte(b'<'), "`<`");
    assert_eq!(render_source_byte(b' '), "` `");
    assert_eq!(render_source_byte(b'~'), "`~`");
}

#[test]
fn source_byte_backtick_and_pipe() {
    assert_eq!(render_source_byte(b'`'), "`` ` ``");
    assert_eq!(render_source_byte(b'|'), "`\\|`");
}

#[test]
fn source_byte_control_and_high() {
    assert_eq!(render_source_byte(0x00), "`<0x00>`");
    assert_eq!(render_source_byte(0x0A), "`<0x0A>`");
    assert_eq!(render_source_byte(0x1F), "`<0x1F>`");
    assert_eq!(render_source_byte(0x7F), "`<0x7F>`");
    assert_eq!(render_source_byte(0xFF), "`<0xFF>`");
}

#[test]
fn md_inline_code_rewrites_backticks_and_pipes() {
    assert_eq!(escape_md_inline_code(""), "");
    assert_eq!(escape_md_inline_code("&lt;"), "&lt;");
    assert_eq!(escape_md_inline_code("a`b|c"), "a'b\\|c");
    assert_eq!(escape_md_inline_code("||"), "\\|\\|");
    assert_eq!(escape_md_inline_code("é`ü|"), "é'ü\\|");
}

fn expected_doc(name: &str, rows: &str) -> String {
    let mut out = String::new();
    out.push_str("//!\n");
    out.push_str(&format!("//! # `{name}`\n"));
    out.push_str("//!\n");
    out.push_str("//! Autogenerated escape crate produced by\n");
    out.push_str(
        "//! [`v_escape_codegen`](https://crates.io/crates/v_escape_codegen) on top of the\n",
    );
    out.push_str("//! [`v_escape-base`](https://crates.io/crates/v_escape-base) runtime.\n");
    out.push_str("//!\n");
    out.push_str("//! ## Behavior\n");
    out.push_str("//!\n");
    out.push_str("//! Each call rewrites the characters listed in the table below into their\n");
    out.push_str("//! replacement string; every other byte of the input is forwarded verbatim.\n");
    out.push_str(
        "//! All public entry points take a `&str` (UTF-8 guaranteed at the type level),\n",
    );
    out.push_str("//! so they cannot be used to construct invalid UTF-8.\n");
    out.push_str("//!\n");
    out.push_str("//! ## Escape table\n");
    out.push_str("//!\n");
    out.push_str("//! | Byte (hex) | Source | Replacement |\n");
    out.push_str("//! | ---------- | ------ | ----------- |\n");
    out.push_str(rows);
    out.push_str("//!\n");
    out.push_str("//! ## Public API\n");
    out.push_str("//!\n");
    out.push_str("//! The following functions are emitted, gated by their respective Cargo\n");
    out.push_str("//! features (all enabled by default):\n");
    out.push_str("//!\n");
    out.push_str("//! | Function | Feature | Signature |\n");
    out.push_str("//! | -------- | ------- | --------- |\n");
    out.push_str("//! | `escape_string` | `string` | `fn(&str, &mut String)` |\n");
    out.push_str("//! | `escape_bytes`  | `bytes`  | `fn(&str, &mut Vec<u8>)` |\n");
    out.push_str("//! | `escape_fmt`    | `fmt`    | `fn(&str) -> impl Display + '_` |\n");
    out.push_str("//!\n");
    out.push_str("//! At runtime the implementation dispatches to the best SIMD backend\n");
    out.push_str("//! available on the current CPU (AVX2/SSE2 on x86_64, NEON on aarch64,\n");
    out.push_str("//! `simd128` on wasm32) and falls back to a scalar loop otherwise.\n");
    out.push_str("//!\n");
    out
}

#[test]
fn module_doc_without_mappings() {
    assert_eq!(render_module_doc("empty", &[]), expected_doc("empty", ""));
}

#[test]
fn module_doc_html_table() {
    let mappings = vec![
        (b'"', "&quot;".to_string()),
        (b'&', "&amp;".to_string()),
        (b'<', "&lt;".to_string()),
    ];
    let rows = "//! | `0x22` | `\"` | `&quot;` |\n\
                //! | `0x26` | `&` | `&amp;` |\n\
                //! | `0x3C` | `<` | `&lt;` |\n";
    assert_eq!(
        render_module_doc("v_htmlescape", &mappings),
        expected_doc("v_htmlescape", rows)
    );
}

#[test]
fn module_doc_markdown_sensitive_bytes() {
    let mappings = vec![
        (0x09, "\\t".to_string()),
        (b'`', "``".to_string()),
        (b'|', "a|b".to_string()),
    ];
    let rows = "//! | `0x09` | `<0x09>` | `\\t` |\n\
                //! | `0x60` | `` ` `` | `''` |\n\
                //! | `0x7C` | `\\|` | `a\\|b` |\n";
    assert_eq!(render_module_doc("md", &mappings), expected_doc("md", rows));
}
