//! HTML escaping over SSE-sized blocks.
use vstd::prelude::*;

use crate::arch::x86_64::sse::SSE_VECTOR_BYTES;
use crate::escapes::byte_byte_escape_raw;
use crate::generic::Generic;
use crate::escapes::{failed, oks, write_pieces, EscapesBuilder};
use crate::html::{html_escape, lemma_html_wf, HtmlBuilder, HtmlEscapes};
use crate::writer::Writer;

verus! {

/// Html escape, block by block.
pub fn escape<W: Writer>(bytes: &[u8], writer: &mut W) -> (r: Result<(), W::Error>)
    ensures
        r is Ok ==> final(writer).written() == old(writer).written() + html_escape(bytes@),
        r is Ok ==> final(writer).calls() == old(writer).calls() + oks(
            write_pieces(HtmlEscapes, bytes@),
        ),
        r matches Err(x) ==> failed(HtmlEscapes, bytes@, old(writer).calls(), final(writer).calls(), x),
        W::infallible() ==> r is Ok,
{
    proof {
        lemma_html_wf();
    }
    let escapes = HtmlBuilder::new();
    if bytes.len() < SSE_VECTOR_BYTES {
        return byte_byte_escape_raw(&escapes, bytes, writer);
    }
    Generic::new(&escapes, SSE_VECTOR_BYTES).escape_bytes(bytes, writer)
}

} // verus!
