//! The escape entry point for targets without block instructions.
use vstd::prelude::*;

use crate::escapes::{byte_byte_escape, escape_spec, table_wf, Escapes, failed, oks, write_pieces};
use crate::writer::Writer;

verus! {

/// A function that performs escape operations using the byte-by-byte implementation.
pub fn escape_fallback<E: Escapes, W: Writer>(
    escapes: &E,
    haystack: &str,
    writer: &mut W,
) -> (r: Result<
    (),
    W::Error,
>)
    requires
        table_wf(*escapes),
    ensures
        r is Ok ==> final(writer).written() == old(writer).written() + escape_spec(
            *escapes,
            vstd::utf8::encode_utf8(haystack@),
        ),
        r is Ok ==> final(writer).calls() == old(writer).calls() + oks(
            write_pieces(*escapes, vstd::utf8::encode_utf8(haystack@)),
        ),
        r matches Err(x) ==> failed(
            *escapes,
            vstd::utf8::encode_utf8(haystack@),
            old(writer).calls(),
            final(writer).calls(),
            x,
        ),
        W::infallible() ==> r is Ok,
{
    byte_byte_escape(escapes, haystack, writer)
}

} // verus!
