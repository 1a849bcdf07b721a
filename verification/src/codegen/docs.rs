//! The documentation that the code generator writes at the top of a generated
//! crate: a description and a table of the escaped bytes and their replacements.
use vstd::prelude::*;

use vstd::string::StringExecFns;

use crate::builder::str_from_utf8;
use crate::escapes::lemma_ascii_valid_utf8;
use crate::replace::{lemma_replace_text, lemma_replace_valid_utf8, replace_bytes, replace_chars};

verus! {

/// The text of ASCII bytes.
fn ascii_text(bytes: Vec<u8>) -> (r: String)
    requires
        forall|i: int| 0 <= i < bytes@.len() ==> #[trigger] bytes@[i] < 128,
    ensures
        r@ == bytes@.map_values(|b: u8| b as char),
{
    let ghost cs = bytes@.map_values(|b: u8| b as char);
    proof {
        lemma_ascii_valid_utf8(bytes@);
        assert(vstd::utf8::is_ascii_chars(cs));
        vstd::utf8::is_ascii_chars_encode_utf8(cs);
        assert(vstd::utf8::encode_utf8(cs) =~= bytes@);
        vstd::utf8::encode_utf8_decode_utf8(cs);
    }
    match str_from_utf8(bytes.as_slice()) {
        Some(text) => {
            proof {
                vstd::utf8::encode_utf8_decode_utf8(text@);
            }
            text.to_owned()
        },
        None => String::new(),
    }
}

/// The upper-case hexadecimal digit of `v`.
pub open spec fn hex_digit(v: int) -> char {
    if v < 10 {
        (48 + v) as char
    } else {
        (55 + v) as char
    }
}

/// The upper-case hexadecimal digit of `v`, as a byte.
fn hex_byte(v: u8) -> (r: u8)
    requires
        v < 16,
    ensures
        r as char == hex_digit(v as int),
        r < 128,
{
    if v < 10 {
        48 + v
    } else {
        55 + v
    }
}

/// How byte `b` is shown in the escape table: as itself in inline code when it is
/// printable, as its hexadecimal value otherwise.
pub open spec fn source_byte_text(b: u8) -> Seq<char> {
    if b == 0x60 {
        seq!['`', '`', ' ', '`', ' ', '`', '`']
    } else if b == 0x7c {
        seq!['`', '\\', '|', '`']
    } else if 0x20 <= b <= 0x7e {
        seq!['`', b as char, '`']
    } else {
        seq!['`', '<', '0', 'x', hex_digit(b as int / 16), hex_digit(b as int % 16), '>', '`']
    }
}

/// Render the byte that triggers an escape in a doc-friendly form.
pub fn render_source_byte(b: u8) -> (r: String)
    ensures
        r@ == source_byte_text(b),
{
    let mut out: Vec<u8> = Vec::new();
    if b == 0x60 {
        out.push(0x60);
        out.push(0x60);
        out.push(0x20);
        out.push(0x60);
        out.push(0x20);
        out.push(0x60);
        out.push(0x60);
    } else if b == 0x7c {
        out.push(0x60);
        out.push(0x5c);
        out.push(0x7c);
        out.push(0x60);
    } else if 0x20 <= b && b <= 0x7e {
        out.push(0x60);
        out.push(b);
        out.push(0x60);
    } else {
        out.push(0x60);
        out.push(0x3c);
        out.push(0x30);
        out.push(0x78);
        out.push(hex_byte(b / 16));
        out.push(hex_byte(b % 16));
        out.push(0x3e);
        out.push(0x60);
    }
    let r = ascii_text(out);
    assert(r@ =~= source_byte_text(b));
    r
}

/// What a byte of a replacement becomes inside inline code in a table cell.
pub open spec fn md_code_byte(b: u8) -> Seq<u8> {
    if b == 0x60 {
        seq![0x27u8]
    } else if b == 0x7c {
        seq![0x5cu8, 0x7cu8]
    } else {
        seq![b]
    }
}

/// A replacement as it is shown inside inline code in a table cell: backticks
/// become quotes and pipes are escaped.
pub open spec fn md_inline_code(cs: Seq<char>) -> Seq<char>
    decreases cs.len(),
{
    if cs.len() == 0 {
        seq![]
    } else {
        (if cs[0] == '`' {
            seq!['\'']
        } else if cs[0] == '|' {
            seq!['\\', '|']
        } else {
            seq![cs[0]]
        }) + md_inline_code(cs.drop_first())
    }
}

/// The inline-code rewriting is the byte replacement `md_code_byte` read as text.
proof fn lemma_md_inline_code(cs: Seq<char>)
    ensures
        replace_chars(cs, |b: u8| md_code_byte(b)) == md_inline_code(cs),
    decreases cs.len(),
{
    if cs.len() > 0 {
        lemma_md_inline_code(cs.drop_first());
        let c = cs[0];
        if (c as u32) < 128 {
            crate::replace::lemma_encode_single(c);
            if c == '`' {
                crate::replace::lemma_encode_single('\'');
                assert(md_code_byte(c as u8) == vstd::utf8::encode_utf8(seq!['\'']));
            } else if c == '|' {
                let ds = seq!['\\', '|'];
                assert(vstd::utf8::is_ascii_chars(ds));
                vstd::utf8::is_ascii_chars_encode_utf8(ds);
                assert(md_code_byte(c as u8) =~= vstd::utf8::encode_utf8(ds));
                vstd::utf8::encode_utf8_decode_utf8(ds);
            } else {
                assert(md_code_byte(c as u8) == vstd::utf8::encode_utf8(seq![c]));
            }
        }
    }
}

/// Escape backticks and pipes in a replacement so it can sit inside a Markdown
/// table cell wrapped in inline code.
pub fn escape_md_inline_code(s: &str) -> (r: String)
    ensures
        r@ == md_inline_code(s@),
{
    let ghost f = |b: u8| md_code_byte(b);
    let bytes = s.as_bytes();
    let mut out: Vec<u8> = Vec::new();
    let mut i: usize = 0;
    assert(bytes@.take(0) =~= Seq::<u8>::empty());
    while i < bytes.len()
        invariant
            i <= bytes@.len(),
            f == (|b: u8| md_code_byte(b)),
            out@ == replace_bytes(bytes@.take(i as int), f),
        decreases bytes@.len() - i,
    {
        proof {
            crate::replace::lemma_replace_take(bytes@, i as int, f);
        }
        let b = bytes[i];
        assert(f(b) == md_code_byte(b));
        if b == 0x60 {
            out.push(0x27);
        } else if b == 0x7c {
            out.push(0x5c);
            out.push(0x7c);
        } else {
            out.push(b);
        }
        i = i + 1;
        assert(out@ =~= replace_bytes(bytes@.take(i as int), f));
    }
    assert(bytes@.take(i as int) =~= bytes@);
    proof {
        assert forall|b: u8| b >= 128 implies #[trigger] f(b) == seq![b] by {}
        assert forall|b: u8| b < 128 implies vstd::utf8::valid_utf8(#[trigger] f(b)) by {
            crate::escapes::lemma_ascii_valid_utf8(f(b));
        }
        vstd::utf8::encode_utf8_valid_utf8(s@);
        lemma_replace_valid_utf8(bytes@, f);
        lemma_replace_text(s@, f);
        lemma_md_inline_code(s@);
    }
    match str_from_utf8(out.as_slice()) {
        Some(text) => {
            proof {
                vstd::utf8::encode_utf8_decode_utf8(text@);
            }
            text.to_owned()
        },
        None => String::new(),
    }
}

/// The two upper-case hexadecimal digits of `b`.
pub open spec fn hex_pair(b: u8) -> Seq<char> {
    seq![hex_digit(b as int / 16), hex_digit(b as int % 16)]
}

/// The row of the escape table for byte `b` and its replacement `q`.
pub open spec fn doc_row(b: u8, q: Seq<char>) -> Seq<char> {
    "//! | `0x"@ + hex_pair(b) + "` | "@ + source_byte_text(b) + " | `"@ + md_inline_code(q) + "` |\n"@
}

/// The rows of the escape table, one per mapping, in order.
pub open spec fn doc_rows(mappings: Seq<(u8, String)>) -> Seq<char>
    decreases mappings.len(),
{
    if mappings.len() == 0 {
        seq![]
    } else {
        doc_rows(mappings.drop_last()) + doc_row(mappings.last().0, mappings.last().1@)
    }
}

/// The part of the crate documentation before the escape table's rows.
pub open spec fn doc_head(name: Seq<char>) -> Seq<char> {
    "//!\n"@ + "//! # `"@ + name + "`\n"@ + "//!\n"@
        + "//! Autogenerated escape crate produced by\n\
         //! [`v_escape_codegen`](https://crates.io/crates/v_escape_codegen) on top of the\n\
         //! [`v_escape-base`](https://crates.io/crates/v_escape-base) runtime.\n"@
        + "//!\n"@ + "//! ## Behavior\n"@ + "//!\n"@
        + "//! Each call rewrites the characters listed in the table below into their\n\
         //! replacement string; every other byte of the input is forwarded verbatim.\n\
         //! All public entry points take a `&str` (UTF-8 guaranteed at the type level),\n\
         //! so they cannot be used to construct invalid UTF-8.\n"@
        + "//!\n"@ + "//! ## Escape table\n"@ + "//!\n"@
        + "//! | Byte (hex) | Source | Replacement |\n"@
        + "//! | ---------- | ------ | ----------- |\n"@
}

/// The documentation of a generated crate named `name` whose escape table is
/// `mappings`.
pub open spec fn module_doc(name: Seq<char>, mappings: Seq<(u8, String)>) -> Seq<char> {
    doc_head(name) + doc_rows(mappings) + "//!\n"@ + "//! ## Public API\n"@ + "//!\n"@
        + "//! The following functions are emitted, gated by their respective Cargo\n\
         //! features (all enabled by default):\n"@
        + "//!\n"@
        + "//! | Function | Feature | Signature |\n\
         //! | -------- | ------- | --------- |\n\
         //! | `escape_string` | `string` | `fn(&str, &mut String)` |\n\
         //! | `escape_bytes`  | `bytes`  | `fn(&str, &mut Vec<u8>)` |\n\
         //! | `escape_fmt`    | `fmt`    | `fn(&str) -> impl Display + '_` |\n"@
        + "//!\n"@
        + "//! At runtime the implementation dispatches to the best SIMD backend\n\
         //! available on the current CPU (AVX2/SSE2 on x86_64, NEON on aarch64,\n\
         //! `simd128` on wasm32) and falls back to a scalar loop otherwise.\n"@
        + "//!\n"@
}

/// The two upper-case hexadecimal digits of `b`, as text.
fn render_hex_pair(b: u8) -> (r: String)
    ensures
        r@ == hex_pair(b),
{
    let mut digits: Vec<u8> = Vec::new();
    digits.push(hex_byte(b / 16));
    digits.push(hex_byte(b % 16));
    let r = ascii_text(digits);
    assert(r@ =~= hex_pair(b));
    r
}

/// Render an inner-doc (`//!`) block describing the generated escape module: a
/// title, the behaviour, the table of escaped bytes and their replacements, and
/// the public API of the generated crate.
pub fn render_module_doc(crate_name: &str, mappings: &[(u8, String)]) -> (r: String)
    ensures
        r@ == module_doc(crate_name@, mappings@),
{
    let mut out = "//!\n".to_owned();
    out.append("//! # `");
    out.append(crate_name);
    out.append("`\n");
    out.append("//!\n");
    out.append(
        "//! Autogenerated escape crate produced by\n\
         //! [`v_escape_codegen`](https://crates.io/crates/v_escape_codegen) on top of the\n\
         //! [`v_escape-base`](https://crates.io/crates/v_escape-base) runtime.\n",
    );
    out.append("//!\n");
    out.append("//! ## Behavior\n");
    out.append("//!\n");
    out.append(
        "//! Each call rewrites the characters listed in the table below into their\n\
         //! replacement string; every other byte of the input is forwarded verbatim.\n\
         //! All public entry points take a `&str` (UTF-8 guaranteed at the type level),\n\
         //! so they cannot be used to construct invalid UTF-8.\n",
    );
    out.append("//!\n");
    out.append("//! ## Escape table\n");
    out.append("//!\n");
    out.append("//! | Byte (hex) | Source | Replacement |\n");
    out.append("//! | ---------- | ------ | ----------- |\n");
    let ghost head = out@;
    assert(head == doc_head(crate_name@));
    assert(mappings@.take(0) =~= Seq::<(u8, String)>::empty());
    let mut i: usize = 0;
    while i < mappings.len()
        invariant
            i <= mappings@.len(),
            head == doc_head(crate_name@),
            out@ == head + doc_rows(mappings@.take(i as int)),
        decreases mappings@.len() - i,
    {
        let b = mappings[i].0;
        let q = &mappings[i].1;
        let ghost before = out@;
        out.append("//! | `0x");
        let hex = render_hex_pair(b);
        out.append(hex.as_str());
        out.append("` | ");
        let source = render_source_byte(b);
        out.append(source.as_str());
        out.append(" | `");
        let replacement = escape_md_inline_code(q.as_str());
        out.append(replacement.as_str());
        out.append("` |\n");
        assert(out@ =~= before + doc_row(b, q@));
        assert(mappings@.take(i + 1).drop_last() =~= mappings@.take(i as int));
        i = i + 1;
        assert(out@ =~= head + doc_rows(mappings@.take(i as int)));
    }
    assert(mappings@.take(i as int) =~= mappings@);
    out.append("//!\n");
    out.append("//! ## Public API\n");
    out.append("//!\n");
    out.append(
        "//! The following functions are emitted, gated by their respective Cargo\n\
         //! features (all enabled by default):\n",
    );
    out.append("//!\n");
    out.append(
        "//! | Function | Feature | Signature |\n\
         //! | -------- | ------- | --------- |\n\
         //! | `escape_string` | `string` | `fn(&str, &mut String)` |\n\
         //! | `escape_bytes`  | `bytes`  | `fn(&str, &mut Vec<u8>)` |\n\
         //! | `escape_fmt`    | `fmt`    | `fn(&str) -> impl Display + '_` |\n",
    );
    out.append("//!\n");
    out.append(
        "//! At runtime the implementation dispatches to the best SIMD backend\n\
         //! available on the current CPU (AVX2/SSE2 on x86_64, NEON on aarch64,\n\
         //! `simd128` on wasm32) and falls back to a scalar loop otherwise.\n",
    );
    out.append("//!\n");
    out
}

} // verus!
