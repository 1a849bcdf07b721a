//! The escape entry point for AVX2, which uses SSE2 vectors for inputs shorter
//! than an AVX2 vector.
use vstd::prelude::*;

use crate::arch::x86_64::sse::SSE_VECTOR_BYTES;
use crate::escapes::{byte_byte_escape, escape_spec, masking_wf, Escapes, failed, oks, write_pieces};
use crate::generic::Generic;
use crate::writer::Writer;

verus! {

/// The number of bytes of an AVX2 vector.
pub const AVX_VECTOR_BYTES: usize = 32;

/// A function that performs escape operations using AVX and SSE vectorization.
pub fn escape<E: Escapes, W: Writer>(
    escapes: &E,
    haystack: &str,
    writer: &mut W,
) -> (r: Result<
    (),
    W::Error,
>)
    requires
        masking_wf(*escapes),
    ensures
        r is Ok ==> final(writer).written() == old(writer).written() + escape_spec(
            *escapes,
            vstd::utf8::encode_utf8(haystack@),
        ),
        r is Ok ==> final(writer).calls() == old(writer).calls() + oks(
            write_pieces(*escapes, vstd::utf8::encode_utf8(haystack@)),
        ),
        r matches Err(x) ==> failed(
            *escapes,
            vstd::utf8::encode_utf8(haystack@),
            old(writer).calls(),
            final(writer).calls(),
            x,
        ),
        W::infallible() ==> r is Ok,
{
    let len = haystack.len();
    if len < AVX_VECTOR_BYTES {
        if len < SSE_VECTOR_BYTES {
            return byte_byte_escape(escapes, haystack, writer);
        }
        return Generic::new(escapes, SSE_VECTOR_BYTES).escape(haystack, writer);
    }
    Generic::new(escapes, AVX_VECTOR_BYTES).escape(haystack, writer)
}

} // verus!
