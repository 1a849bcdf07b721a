//! The functions that an escape table is used through: escaping into a `String`,
//! into a byte vector, or lazily for formatting.
use vstd::prelude::*;

use vstd::string::StringExecFns;

use crate::escapes::{escape_chars, escape_spec, lemma_escape_text, masking_wf, Escapes};
use crate::writer::{Writer, WriterVec};

verus! {

/// `std::str::from_utf8`: the bytes read as text when they are valid UTF-8.
#[verifier::external_body]
pub(crate) fn str_from_utf8(bytes: &[u8]) -> (r: Option<&str>)
    ensures
        r is Some <==> vstd::utf8::valid_utf8(bytes@),
        r matches Some(s) ==> vstd::utf8::encode_utf8(s@) == bytes@,
{
    std::str::from_utf8(bytes).ok()
}

/// Escapes `haystack` and appends the resulting UTF-8 bytes to `buffer`.
pub fn escape_bytes<E: Escapes>(escapes: &E, haystack: &str, buffer: &mut Vec<u8>)
    requires
        masking_wf(*escapes),
    ensures
        final(buffer)@ == old(buffer)@ + escape_spec(*escapes, vstd::utf8::encode_utf8(haystack@)),
{
    let mut taken: Vec<u8> = Vec::new();
    std::mem::swap(&mut taken, buffer);
    let mut writer = WriterVec::new(taken);
    let _ = crate::arch::x86_64::avx::escape(escapes, haystack, &mut writer);
    *buffer = writer.into_inner();
}

/// Escapes `haystack` and appends the result to `buffer`.
pub fn escape_string<E: Escapes>(escapes: &E, haystack: &str, buffer: &mut String)
    requires
        masking_wf(*escapes),
    ensures
        final(buffer)@ == old(buffer)@ + escape_chars(*escapes, haystack@),
{
    let mut bytes: Vec<u8> = Vec::new();
    escape_bytes(escapes, haystack, &mut bytes);
    proof {
        lemma_escape_text(*escapes, haystack@);
    }
    match str_from_utf8(bytes.as_slice()) {
        Some(text) => {
            proof {
                vstd::utf8::encode_utf8_decode_utf8(text@);
            }
            buffer.append(text);
        },
        None => {},
    }
}

/// A value that escapes `haystack` lazily, when it is rendered.
pub struct EscapeFmt<'a, E> {
    escapes: &'a E,
    haystack: &'a str,
}

/// Returns a value that escapes `haystack` when it is rendered.
pub fn escape_fmt<'a, E: Escapes>(escapes: &'a E, haystack: &'a str) -> (r: EscapeFmt<'a, E>)
    ensures
        r.escapes() == *escapes,
        r.haystack() == haystack@,
{
    EscapeFmt { escapes, haystack }
}

impl<'a, E: Escapes> EscapeFmt<'a, E> {
    /// The escapes used.
    pub closed spec fn escapes(&self) -> E {
        *self.escapes
    }

    /// The text to be escaped.
    pub closed spec fn haystack(&self) -> Seq<char> {
        self.haystack@
    }

    /// The text to be escaped.
    pub fn as_str(&self) -> (r: &'a str)
        ensures
            r@ == self.haystack(),
    {
        self.haystack
    }

    /// Renders the escaped text.
    pub fn to_string(&self) -> (r: String)
        requires
            masking_wf(self.escapes()),
        ensures
            r@ == escape_chars(self.escapes(), self.haystack()),
    {
        let mut buffer = String::new();
        escape_string(self.escapes, self.haystack, &mut buffer);
        buffer
    }
}

} // verus!
