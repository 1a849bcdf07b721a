//! The escape entry point for Wasm SIMD, whose vectors hold 16 bytes.
use vstd::prelude::*;

use crate::escapes::{byte_byte_escape, escape_spec, masking_wf, Escapes, failed, oks, write_pieces};
use crate::generic::Generic;
use crate::writer::Writer;

verus! {

/// The number of bytes of a Wasm SIMD vector.
pub const VECTOR_BYTES: usize = 16;

/// A function that performs escape operations with Wasm SIMD vectorization.
pub fn escape<E: Escapes, W: Writer>(
    escapes: &E,
    haystack: &str,
    writer: &mut W,
) -> (r: Result<
    (),
    W::Error,
>)
    requires
        masking_wf(*escapes),
    ensures
        r is Ok ==> final(writer).written() == old(writer).written() + escape_spec(
            *escapes,
            vstd::utf8::encode_utf8(haystack@),
        ),
        r is Ok ==> final(writer).calls() == old(writer).calls() + oks(
            write_pieces(*escapes, vstd::utf8::encode_utf8(haystack@)),
        ),
        r matches Err(x) ==> failed(
            *escapes,
            vstd::utf8::encode_utf8(haystack@),
            old(writer).calls(),
            final(writer).calls(),
            x,
        ),
        W::infallible() ==> r is Ok,
{
    let len = haystack.len();
    if len < VECTOR_BYTES {
        return byte_byte_escape(escapes, haystack, writer);
    }
    Generic::new(escapes, VECTOR_BYTES).escape(haystack, writer)
}

} // verus!
