//! The block-wise escaping routine: whole blocks of lanes are tested with the
//! escapes' mask, and only the selected lanes are looked up in the table.
use vstd::prelude::*;

use crate::escapes::{
    emit, emitted, escape_spec, failed, finish, lemma_emitted_extend, logged, masking_wf, oks,
    write_pieces, Escapes,
};
use crate::writer::{CallLog, Writer};

verus! {

/// Whether lane `k` of mask `m` is set.
pub open spec fn bit(m: u64, k: int) -> bool {
    0 <= k < 64 && (m >> (k as u64)) & 1u64 == 1u64
}

/// Setting lane `k` of a mask.
pub proof fn lemma_bit_set(m: u64, k: u64, j: u64)
    requires
        k < 64,
        j < 64,
    ensures
        ((m | (1u64 << k)) >> j) & 1u64 == 1u64 <==> ((m >> j) & 1u64 == 1u64 || j == k),
{
    assert(((m | (1u64 << k)) >> j) & 1u64 == 1u64 <==> ((m >> j) & 1u64 == 1u64 || j == k))
        by (bit_vector)
        requires
            k < 64,
            j < 64,
    ;
}

/// Clearing the lowest set lane `t` of a mask.
pub proof fn lemma_bit_clear_lowest(m: u64, t: u64, j: u64)
    requires
        m != 0,
        t < 64,
        j < 64,
        (m >> t) & 1u64 == 1u64,
        m << ((64 - t) as u64) == 0u64,
    ensures
        ((m & ((m - 1) as u64)) >> j) & 1u64 == 1u64 <==> ((m >> j) & 1u64 == 1u64 && j != t),
{
    assert(((m & ((m - 1) as u64)) >> j) & 1u64 == 1u64 <==> ((m >> j) & 1u64 == 1u64 && j != t))
        by (bit_vector)
        requires
            m != 0,
            t < 64,
            j < 64,
            (m >> t) & 1u64 == 1u64,
            m << ((64 - t) as u64) == 0u64,
    ;
}

/// The lowest set lane of a non-empty mask, and the lanes below it.
pub proof fn lemma_first_offset(m: u64)
    requires
        m != 0,
    ensures
        (m.trailing_zeros() as int) < 64,
        bit(m, m.trailing_zeros() as int),
        forall|j: int| 0 <= j < m.trailing_zeros() ==> !bit(m, j),
        m << ((64 - m.trailing_zeros()) as u64) == 0u64,
{
    broadcast use vstd::std_specs::bits::axiom_u64_trailing_zeros;

    let t = m.trailing_zeros();
    assert forall|j: int| 0 <= j < t implies !bit(m, j) by {
        let jj = j as u64;
        assert((m >> jj) & 1u64 == 0u64);
    }
}

/// The empty mask has no lane set.
pub proof fn lemma_bit_zero(j: u64)
    requires
        j < 64,
    ensures
        (0u64 >> j) & 1u64 == 0u64,
{
    assert((0u64 >> j) & 1u64 == 0u64) by (bit_vector);
}

/// A lane of a union of masks is set when it is set in one of them.
pub proof fn lemma_bit_or(a: u64, b: u64, j: u64)
    requires
        j < 64,
    ensures
        ((a | b) >> j) & 1u64 == 1u64 <==> ((a >> j) & 1u64 == 1u64 || (b >> j) & 1u64 == 1u64),
{
    assert(((a | b) >> j) & 1u64 == 1u64 <==> ((a >> j) & 1u64 == 1u64 || (b >> j) & 1u64
        == 1u64)) by (bit_vector);
}

/// Shifting a mask right by `r` moves lane `j + r` to lane `j`.
pub proof fn lemma_bit_shr(m: u64, r: u64, j: u64)
    requires
        r < 64,
        j < 64,
    ensures
        j + r < 64 ==> (((m >> r) >> j) & 1u64 == 1u64 <==> (m >> ((j + r) as u64)) & 1u64
            == 1u64),
        j + r >= 64 ==> ((m >> r) >> j) & 1u64 == 0u64,
{
    assert(j + r < 64 ==> (((m >> r) >> j) & 1u64 == 1u64 <==> (m >> ((j + r) as u64)) & 1u64
        == 1u64)) by (bit_vector)
        requires
            r < 64,
            j < 64,
    ;
    assert(j + r >= 64 ==> ((m >> r) >> j) & 1u64 == 0u64) by (bit_vector)
        requires
            r < 64,
            j < 64,
    ;
}

/// The address of the first byte of `bytes`; it depends on where the bytes lie in
/// memory, and nothing is stated of it.
#[verifier::external_body]
fn address_of(bytes: &[u8]) -> usize {
    bytes.as_ptr() as usize
}

/// A block-wise escaper over blocks of `lanes` bytes.
pub(crate) struct Generic<'a, E> {
    pub(crate) escapes: &'a E,
    pub(crate) lanes: usize,
}

/// The mask `m` selects exactly the lanes `j < valid` of the block starting at `at`
/// on which the escapes' mask holds.
pub(crate) open spec fn mask_of<E: Escapes>(
    e: E,
    s: Seq<u8>,
    at: int,
    valid: int,
    m: u64,
) -> bool {
    forall|j: int| 0 <= j < 64 ==> #[trigger] bit(m, j) == (j < valid && e.spec_masking(s[at + j]))
}

impl<'a, E: Escapes> Generic<'a, E> {
    /// The escapes are well formed and a block fits a mask.
    pub(crate) open spec fn wf(&self) -> bool {
        &&& masking_wf(*self.escapes)
        &&& 1 <= self.lanes <= 64
    }

    /// Creates a new `Generic` instance with the given escape handler.
    pub(crate) fn new(escapes: &'a E, lanes: usize) -> (r: Generic<'a, E>)
        ensures
            r.escapes == escapes,
            r.lanes == lanes,
    {
        Generic { escapes, lanes }
    }

    /// The mask of the block of `lanes` bytes starting at `at`.
    fn block_mask(&self, s: &[u8], at: usize) -> (m: u64)
        requires
            self.wf(),
            at + self.lanes <= s.len(),
        ensures
            mask_of(*self.escapes, s@, at as int, self.lanes as int, m),
    {
        let mut m: u64 = 0;
        let mut k: usize = 0;
        assert forall|j: int| 0 <= j < 64 implies !#[trigger] bit(0u64, j) by {
            lemma_bit_zero(j as u64);
        }
        while k < self.lanes
            invariant
                self.wf(),
                at + self.lanes <= s.len(),
                k <= self.lanes,
                forall|j: int|
                    0 <= j < 64 ==> #[trigger] bit(m, j) == (j < k && self.escapes.spec_masking(
                        s@[at + j],
                    )),
            decreases self.lanes - k,
        {
            if self.escapes.masking(s[at + k]) {
                let ghost old_m = m;
                m = m | (1u64 << (k as u64));
                assert forall|j: int| 0 <= j < 64 implies #[trigger] bit(m, j) == (bit(old_m, j)
                    || j == k) by {
                    lemma_bit_set(old_m, k as u64, j as u64);
                }
            }
            k = k + 1;
        }
        m
    }

    /// Handles the selected lane `offset` of the block at `cur`, and returns the mask
    /// with that lane cleared.
    fn write_step<W: Writer>(
        &self,
        mask: u64,
        s: &[u8],
        cur: usize,
        offset: usize,
        written: &mut usize,
        writer: &mut W,
        Ghost(base): Ghost<Seq<u8>>,
        Ghost(log): Ghost<CallLog<W::Error>>,
    ) -> (r: Result<u64, W::Error>)
        requires
            self.wf(),
            mask != 0,
            offset == mask.trailing_zeros(),
            cur + offset < s.len(),
            self.escapes.spec_masking(s@[cur + offset]),
            emitted(*self.escapes, s@, *old(written) as int, cur + offset, base, old(writer).written()),
            logged(*self.escapes, s@, *old(written) as int, log, old(writer).calls()),
        ensures
            r matches Ok(m) ==> {
                &&& emitted(*self.escapes,
                    s@,
                    *final(written) as int,
                    cur + offset + 1,
                    base,
                    final(writer).written(),
                )
                &&& *final(written) <= cur + offset + 1
                &&& logged(*self.escapes, s@, *final(written) as int, log, final(writer).calls())
                &&& forall|j: int|
                    0 <= j < 64 ==> #[trigger] bit(m, j) == (bit(mask, j) && j != offset)
            },
            r matches Err(x) ==> failed(*self.escapes, s@, log, final(writer).calls(), x),
            *old(written) <= *final(written),
            self.escapes.spec_false_positive() && self.escapes.spec_position(s@[cur + offset])
                >= self.escapes.spec_escape_len() ==> *final(written) == *old(written)
                && final(writer).written() == old(writer).written() && final(writer).calls()
                == old(writer).calls(),
            r is Ok && !(self.escapes.spec_false_positive() && self.escapes.spec_position(
                s@[cur + offset],
            ) >= self.escapes.spec_escape_len()) ==> *final(written) == cur + offset + 1,
            W::infallible() ==> r is Ok,
    {
        let at = cur + offset;
        let c = self.escapes.position(s[at]);
        if !self.escapes.false_positive() || c < self.escapes.escape_len() {
            emit(self.escapes, s, *written, at, c, writer, Ghost(base), Ghost(log))?;
            *written = at + 1;
        } else {
            assert(!self.escapes.spec_compare(s@[at as int]));
        }
        proof {
            lemma_first_offset(mask);
            assert forall|j: int| 0 <= j < 64 implies #[trigger] bit(
                mask & ((mask - 1) as u64),
                j,
            ) == (bit(mask, j) && j != offset) by {
                lemma_bit_clear_lowest(mask, offset as u64, j as u64);
            }
        }
        Ok(mask & (mask - 1))
    }

    /// Writes the escape sequences of the lanes of the block at `cur` that `mask`
    /// selects, below `limit`.
    fn write_mask_helper<W: Writer>(
        &self,
        mask: u64,
        s: &[u8],
        cur: usize,
        limit: usize,
        Ghost(valid): Ghost<int>,
        written: &mut usize,
        writer: &mut W,
        Ghost(base): Ghost<Seq<u8>>,
        Ghost(log): Ghost<CallLog<W::Error>>,
    ) -> (r: Result<(), W::Error>)
        requires
            self.wf(),
            0 <= valid <= 64,
            cur + valid <= s.len(),
            mask_of(*self.escapes, s@, cur as int, valid, mask),
            emitted(*self.escapes, s@, *old(written) as int, cur as int, base, old(writer).written()),
            logged(*self.escapes, s@, *old(written) as int, log, old(writer).calls()),
        ensures
            r is Ok ==> emitted(*self.escapes,
                s@,
                *final(written) as int,
                cur + if limit < valid {
                    limit as int
                } else {
                    valid
                },
                base,
                final(writer).written(),
            ),
            r is Ok ==> logged(*self.escapes, s@, *final(written) as int, log, final(writer).calls()),
            r matches Err(x) ==> failed(*self.escapes, s@, log, final(writer).calls(), x),
            *old(written) <= *final(written),
            W::infallible() ==> r is Ok,
    {
        let ghost end = cur + if limit < valid {
            limit as int
        } else {
            valid
        };
        let mut mask = mask;
        if mask != 0 {
            proof {
                lemma_first_offset(mask);
            }
            let mut offset = mask.trailing_zeros() as usize;
            let ghost mut lo: int = 0;
            proof {
                assert forall|k: int| cur <= k < cur + offset implies !self.escapes.spec_compare(
                    #[trigger] s@[k],
                ) by {
                    assert(!bit(mask, k - cur));
                }
                lemma_emitted_extend(*self.escapes,
                    s@,
                    *written as int,
                    cur as int,
                    cur + offset,
                    base,
                    writer.written(),
                );
            }
            while offset < limit
                invariant_except_break
                    mask != 0,
                    offset == mask.trailing_zeros(),
                    bit(mask, offset as int),
                    lo <= offset < valid,
                    forall|j: int|
                        0 <= j < 64 ==> #[trigger] bit(mask, j) == (lo <= j < valid
                            && self.escapes.spec_masking(s@[cur + j])),
                    emitted(*self.escapes, s@, *written as int, cur + offset, base, writer.written()),
                invariant
                    self.wf(),
                    0 <= valid <= 64,
                    cur + valid <= s.len(),
                    *old(written) <= *written,
                    logged(*self.escapes, s@, *written as int, log, writer.calls()),
                    *written <= end,
                    end == cur + if limit < valid {
                        limit as int
                    } else {
                        valid
                    },
                ensures
                    emitted(*self.escapes, s@, *written as int, end, base, writer.written()),
                decreases 64 - offset,
            {
                let ghost prev = offset;
                mask = self.write_step(mask, s, cur, offset, written, writer, Ghost(base), Ghost(log))?;
                proof {
                    lo = prev + 1;
                }
                if mask == 0 {
                    proof {
                        assert forall|k: int| cur + lo <= k < end implies !self.escapes.spec_compare(
                            #[trigger] s@[k],
                        ) by {
                            lemma_bit_zero((k - cur) as u64);
                            assert(!bit(mask, k - cur));
                        }
                        lemma_emitted_extend(*self.escapes,
                            s@,
                            *written as int,
                            cur + lo,
                            end,
                            base,
                            writer.written(),
                        );
                    }
                    break;
                }
                proof {
                    lemma_first_offset(mask);
                }
                offset = mask.trailing_zeros() as usize;
                proof {
                    assert forall|k: int| cur + lo <= k < cur + offset implies !self.escapes.spec_compare(
                        #[trigger] s@[k],
                    ) by {
                        assert(!bit(mask, k - cur));
                    }
                    lemma_emitted_extend(*self.escapes,
                        s@,
                        *written as int,
                        cur + lo,
                        cur + offset,
                        base,
                        writer.written(),
                    );
                }
            }
        } else {
            proof {
                assert forall|k: int| cur <= k < end implies !self.escapes.spec_compare(#[trigger] s@[k]) by {
                    lemma_bit_zero((k - cur) as u64);
                    assert(!bit(mask, k - cur));
                }
                lemma_emitted_extend(*self.escapes, s@, *written as int, cur as int, end, base, writer.written());
            }
        }
        Ok(())
    }

    /// Writes the escape mask of the leading, unaligned block: only the first
    /// `align` lanes belong to it.
    fn write_mask_unaligned<W: Writer>(
        &self,
        mask: u64,
        s: &[u8],
        align: usize,
        written: &mut usize,
        writer: &mut W,
        Ghost(base): Ghost<Seq<u8>>,
        Ghost(log): Ghost<CallLog<W::Error>>,
    ) -> (r: Result<(), W::Error>)
        requires
            self.wf(),
            align <= self.lanes <= s.len(),
            mask_of(*self.escapes, s@, 0, self.lanes as int, mask),
            emitted(*self.escapes, s@, *old(written) as int, 0, base, old(writer).written()),
            logged(*self.escapes, s@, *old(written) as int, log, old(writer).calls()),
        ensures
            r is Ok ==> emitted(*self.escapes,
                s@,
                *final(written) as int,
                align as int,
                base,
                final(writer).written(),
            ),
            r is Ok ==> logged(*self.escapes, s@, *final(written) as int, log, final(writer).calls()),
            r matches Err(x) ==> failed(*self.escapes, s@, log, final(writer).calls(), x),
            W::infallible() ==> r is Ok,
    {
        self.write_mask_helper(mask, s, 0, align, Ghost(self.lanes as int), written, writer, Ghost(base), Ghost(log))
    }

    /// Writes the escape mask of a block whose `valid` lanes all belong to it.
    fn write_mask<W: Writer>(
        &self,
        mask: u64,
        s: &[u8],
        cur: usize,
        Ghost(valid): Ghost<int>,
        written: &mut usize,
        writer: &mut W,
        Ghost(base): Ghost<Seq<u8>>,
        Ghost(log): Ghost<CallLog<W::Error>>,
    ) -> (r: Result<(), W::Error>)
        requires
            self.wf(),
            0 <= valid <= 64,
            cur + valid <= s.len(),
            mask_of(*self.escapes, s@, cur as int, valid, mask),
            emitted(*self.escapes, s@, *old(written) as int, cur as int, base, old(writer).written()),
            logged(*self.escapes, s@, *old(written) as int, log, old(writer).calls()),
        ensures
            r is Ok ==> emitted(*self.escapes,
                s@,
                *final(written) as int,
                cur + valid,
                base,
                final(writer).written(),
            ),
            r is Ok ==> logged(*self.escapes, s@, *final(written) as int, log, final(writer).calls()),
            r matches Err(x) ==> failed(*self.escapes, s@, log, final(writer).calls(), x),
            W::infallible() ==> r is Ok,
    {
        self.write_mask_helper(mask, s, cur, usize::MAX, Ghost(valid), written, writer, Ghost(base), Ghost(log))
    }

    /// Escapes `haystack`, whose first byte lies `lanes - align` bytes past a block
    /// boundary, block by block.
    pub(crate) fn escape_raw<W: Writer>(&self, haystack: &[u8], align: usize, writer: &mut W) -> (r:
        Result<(), W::Error>)
        requires
            self.wf(),
            haystack.len() >= self.lanes,
            1 <= align <= self.lanes,
        ensures
            r is Ok ==> final(writer).written() == old(writer).written() + escape_spec(*self.escapes,
                haystack@,
            ),
            r is Ok ==> final(writer).calls() == old(writer).calls() + oks(
                write_pieces(*self.escapes, haystack@),
            ),
            r matches Err(x) ==> failed(*self.escapes, haystack@, old(writer).calls(), final(writer).calls(), x),
            W::infallible() ==> r is Ok,
    {
        let ghost base = writer.written();
        let ghost log = writer.calls();
        proof {
            assert(haystack@.take(0) =~= Seq::<u8>::empty());
            assert(write_pieces(*self.escapes, Seq::<u8>::empty()) =~= Seq::<Seq<u8>>::empty());
            assert(log + oks::<W::Error>(Seq::<Seq<u8>>::empty()) =~= log);
        }
        let lanes = self.lanes;
        let len = haystack.len();
        let mut written: usize = 0;
        assert(haystack@.take(0) =~= Seq::<u8>::empty());
        assert(escape_spec(*self.escapes, Seq::<u8>::empty()) == Seq::<u8>::empty());
        assert(base + Seq::<u8>::empty() =~= base);

        let mask = self.block_mask(haystack, 0);
        self.write_mask_unaligned(mask, haystack, align, &mut written, writer, Ghost(base), Ghost(log))?;

        // `cur` is the first block boundary past the start.
        let mut cur = align;
        let loop_size = 4 * lanes;
        if len >= loop_size {
            while cur <= len - loop_size
                invariant
                    self.wf(),
                    lanes == self.lanes,
                    len == haystack.len(),
                    loop_size == 4 * lanes,
                    len >= loop_size,
                    cur <= len,
                    emitted(*self.escapes, haystack@, written as int, cur as int, base, writer.written()),
                    logged(*self.escapes, haystack@, written as int, log, writer.calls()),
                    log == old(writer).calls(),
                decreases len - cur,
            {
                let a = self.block_mask(haystack, cur);
                let b = self.block_mask(haystack, cur + lanes);
                let c = self.block_mask(haystack, cur + 2 * lanes);
                let d = self.block_mask(haystack, cur + 3 * lanes);
                if (a | b) | (c | d) != 0 {
                    self.write_mask(a, haystack, cur, Ghost(lanes as int), &mut written, writer, Ghost(base), Ghost(log))?;
                    self.write_mask(
                        b,
                        haystack,
                        cur + lanes,
                        Ghost(lanes as int),
                        &mut written,
                        writer,
                        Ghost(base), Ghost(log),
                    )?;
                    self.write_mask(
                        c,
                        haystack,
                        cur + 2 * lanes,
                        Ghost(lanes as int),
                        &mut written,
                        writer,
                        Ghost(base), Ghost(log),
                    )?;
                    self.write_mask(
                        d,
                        haystack,
                        cur + 3 * lanes,
                        Ghost(lanes as int),
                        &mut written,
                        writer,
                        Ghost(base), Ghost(log),
                    )?;
                } else {
                    proof {
                        assert forall|k: int| cur <= k < cur + loop_size implies !self.escapes.spec_compare(
                            #[trigger] haystack@[k],
                        ) by {
                            let j = k - cur;
                            let r = if j < lanes {
                                j
                            } else if j < 2 * lanes {
                                j - lanes
                            } else if j < 3 * lanes {
                                j - 2 * lanes
                            } else {
                                j - 3 * lanes
                            };
                            lemma_bit_or(a, b, r as u64);
                            lemma_bit_or(c, d, r as u64);
                            lemma_bit_or(a | b, c | d, r as u64);
                            lemma_bit_zero(r as u64);
                            assert(!bit(a, r) && !bit(b, r) && !bit(c, r) && !bit(d, r));
                        }
                        lemma_emitted_extend(*self.escapes,
                            haystack@,
                            written as int,
                            cur as int,
                            cur + loop_size,
                            base,
                            writer.written(),
                        );
                    }
                }
                cur = cur + loop_size;
            }
        }
        // Handle any leftovers after the unrolled loop above.
        while cur <= len - lanes
            invariant
                self.wf(),
                lanes == self.lanes,
                len == haystack.len(),
                len >= lanes,
                cur <= len,
                emitted(*self.escapes, haystack@, written as int, cur as int, base, writer.written()),
                logged(*self.escapes, haystack@, written as int, log, writer.calls()),
                log == old(writer).calls(),
            decreases len - cur,
        {
            let mask = self.block_mask(haystack, cur);
            self.write_mask(mask, haystack, cur, Ghost(lanes as int), &mut written, writer, Ghost(base), Ghost(log))?;
            cur = cur + lanes;
        }
        // Handle the remaining bytes, fewer than a block: the last block of the
        // haystack is tested and its mask shifted down to start at `cur`.
        if cur < len {
            let rest = lanes - (len - cur);
            let full = self.block_mask(haystack, len - lanes);
            let mask = full >> (rest as u64);
            proof {
                assert forall|j: int| 0 <= j < 64 implies #[trigger] bit(mask, j) == (j < len - cur
                    && self.escapes.spec_masking(haystack@[cur + j])) by {
                    lemma_bit_shr(full, rest as u64, j as u64);
                    if j + rest < 64 {
                        assert(bit(mask, j) == bit(full, j + rest));
                    } else {
                        assert(!bit(mask, j));
                    }
                }
            }
            self.write_mask(
                mask,
                haystack,
                cur,
                Ghost((len - cur) as int),
                &mut written,
                writer,
                Ghost(base), Ghost(log),
            )?;
        }
        finish(self.escapes, haystack, written, writer, Ghost(base), Ghost(log))
    }

    /// Escapes `bytes` block by block from the first block boundary of their address.
    pub(crate) fn escape_bytes<W: Writer>(&self, bytes: &[u8], writer: &mut W) -> (r: Result<
        (),
        W::Error,
    >)
        requires
            self.wf(),
            bytes@.len() >= self.lanes,
        ensures
            r is Ok ==> final(writer).written() == old(writer).written() + escape_spec(
                *self.escapes,
                bytes@,
            ),
            r is Ok ==> final(writer).calls() == old(writer).calls() + oks(
                write_pieces(*self.escapes, bytes@),
            ),
            r matches Err(x) ==> failed(*self.escapes, bytes@, old(writer).calls(), final(writer).calls(), x),
            W::infallible() ==> r is Ok,
    {
        let start = address_of(bytes);
        let align = self.lanes - start % self.lanes;
        self.escape_raw(bytes, align, writer)
    }

    /// Escapes the input string by applying the escape sequences defined in the
    /// `Escapes` trait, block by block.
    pub(crate) fn escape<W: Writer>(&self, haystack: &str, writer: &mut W) -> (r: Result<
        (),
        W::Error,
    >)
        requires
            self.wf(),
            vstd::utf8::encode_utf8(haystack@).len() >= self.lanes,
        ensures
            r is Ok ==> final(writer).written() == old(writer).written() + escape_spec(
                *self.escapes,
                vstd::utf8::encode_utf8(haystack@),
            ),
            r is Ok ==> final(writer).calls() == old(writer).calls() + oks(
                write_pieces(*self.escapes, vstd::utf8::encode_utf8(haystack@)),
            ),
            r matches Err(x) ==> failed(*self.escapes, vstd::utf8::encode_utf8(haystack@), old(writer).calls(), final(writer).calls(), x),
            W::infallible() ==> r is Ok,
    {
        self.escape_bytes(haystack.as_bytes(), writer)
    }
}

} // verus!
