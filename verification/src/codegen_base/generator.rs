//! What the code generator computes from a template's pairs: the order of the
//! pairs, the lookup table of the generated code, and the mappings it reports.
use vstd::prelude::*;

use vstd::string::StringExecFns;

use crate::builder::str_from_utf8;
use crate::codegen_base::pairs::{ascii_pairs, pair_chars, Pair, Pairs};
use crate::codegen_base::ranges::{classify, lemma_groups, sorted_ascii};
use crate::codegen_base::switch::{MaskTerm, Switch};
use crate::escapes::lemma_ascii_valid_utf8;

verus! {

/// A byte of the template, accepted when it is ASCII.
pub struct Ch(pub i8);

impl Ch {
    /// Accepts `n` when it is an ASCII value.
    pub fn new(n: u8) -> (r: Result<Ch, ()>)
        ensures
            r is Ok <==> n < 128,
            r matches Ok(c) ==> c.0 == n,
    {
        if n <= (i8::MAX as u8) {
            Ok(Ch(n as i8))
        } else {
            Err(())
        }
    }
}

/// The pairs are in non-decreasing order of their bytes.
pub open spec fn sorted_by_ch(s: Seq<Pair>) -> bool {
    forall|i: int, j: int| 0 <= i < j < s.len() ==> s[i].ch <= s[j].ch
}

/// The pair escapes byte `c`.
pub open spec fn byte_is(c: u8) -> spec_fn(Pair) -> bool {
    |p: Pair| p.ch == c
}

/// The pairs that escape byte `c`, in order.
pub open spec fn with_byte(s: Seq<Pair>, c: u8) -> Seq<Pair> {
    s.filter(byte_is(c))
}

/// Appending a pair appends it to the pairs of its byte only.
pub proof fn lemma_with_byte_push(s: Seq<Pair>, x: Pair, c: u8)
    ensures
        with_byte(s.push(x), c) == (if x.ch == c {
            with_byte(s, c).push(x)
        } else {
            with_byte(s, c)
        }),
{
    reveal(Seq::filter);
    assert(s.push(x).drop_last() =~= s);
}

/// Pairs of other bytes have no pair of byte `c`.
proof fn lemma_with_byte_none(s: Seq<Pair>, c: u8)
    requires
        forall|i: int| 0 <= i < s.len() ==> s[i].ch != c,
    ensures
        with_byte(s, c) == Seq::<Pair>::empty(),
    decreases s.len(),
{
    reveal(Seq::filter);
    if s.len() > 0 {
        lemma_with_byte_none(s.drop_last(), c);
    }
}

/// Inserting `p` after every pair of a byte up to its own and before every pair of
/// a greater byte appends it to the pairs of its byte and leaves the others.
proof fn lemma_insert_stable(before: Seq<Pair>, pos: int, p: Pair, c: u8)
    requires
        0 <= pos <= before.len(),
        forall|i: int| pos <= i < before.len() ==> before[i].ch > p.ch,
    ensures
        with_byte(before.insert(pos, p), c) == (if p.ch == c {
            with_byte(before, c).push(p)
        } else {
            with_byte(before, c)
        }),
{
    let head = before.take(pos);
    let tail = before.skip(pos);
    assert(before.insert(pos, p) =~= (head + seq![p]) + tail);
    assert(before =~= head + tail);
    Seq::filter_distributes_over_add(head + seq![p], tail, byte_is(c));
    Seq::filter_distributes_over_add(head, seq![p], byte_is(c));
    Seq::filter_distributes_over_add(head, tail, byte_is(c));
    lemma_with_byte_push(Seq::<Pair>::empty(), p, c);
    assert(Seq::<Pair>::empty().push(p) =~= seq![p]);
    lemma_with_byte_none(Seq::<Pair>::empty(), c);
    if p.ch == c {
        lemma_with_byte_none(tail, c);
        assert(with_byte(head, c) + seq![p] =~= with_byte(head, c).push(p));
        assert(with_byte(head, c) + Seq::<Pair>::empty() =~= with_byte(head, c));
        assert(with_byte(head, c) + seq![p] + Seq::<Pair>::empty() =~= with_byte(head, c).push(p));
    } else {
        assert(with_byte(head, c) + Seq::<Pair>::empty() =~= with_byte(head, c));
    }
}

/// Sorts the pairs by byte, keeping the order of pairs with the same byte.
pub fn sort_pairs(pairs: &mut Vec<Pair>)
    ensures
        final(pairs)@.to_multiset() == old(pairs)@.to_multiset(),
        sorted_by_ch(final(pairs)@),
        forall|c: u8| #[trigger] with_byte(final(pairs)@, c) == with_byte(old(pairs)@, c),
{
    let mut input: Vec<Pair> = Vec::new();
    std::mem::swap(&mut input, pairs);
    let ghost orig = input@;
    let mut out: Vec<Pair> = Vec::new();
    let ghost mut k: int = 0;
    assert(orig.take(0) =~= Seq::<Pair>::empty());
    assert forall|c: u8| #[trigger] with_byte(out@, c) == with_byte(orig.take(0), c) by {
        assert(out@ =~= orig.take(0));
    }
    while input.len() > 0
        invariant
            0 <= k <= orig.len(),
            input@ == orig.skip(k),
            out@.to_multiset() == orig.take(k).to_multiset(),
            sorted_by_ch(out@),
            forall|c: u8| #[trigger] with_byte(out@, c) == with_byte(orig.take(k), c),
        decreases input.len(),
    {
        let p = input.remove(0);
        let mut pos: usize = 0;
        while pos < out.len() && out[pos].ch <= p.ch
            invariant
                pos <= out.len(),
                forall|i: int| 0 <= i < pos ==> out@[i].ch <= p.ch,
            decreases out.len() - pos,
        {
            pos = pos + 1;
        }
        let ghost before = out@;
        out.insert(pos, p);
        proof {
            assert(orig.take(k + 1) =~= orig.take(k).push(orig[k]));
            assert(p == orig[k]);
            assert(out@ == before.insert(pos as int, p));
            vstd::seq_lib::to_multiset_insert(before, pos as int, p);
            vstd::seq_lib::to_multiset_build(orig.take(k), orig[k]);
            assert(orig.take(k).push(orig[k]).to_multiset() == orig.take(k).to_multiset().insert(
                orig[k],
            ));
            assert forall|i: int| pos <= i < before.len() implies before[i].ch > p.ch by {
                assert(before[pos as int].ch > p.ch);
                assert(before[pos as int].ch <= before[i].ch);
            }
            assert forall|c: u8| #[trigger] with_byte(out@, c) == with_byte(orig.take(k + 1), c) by {
                lemma_insert_stable(before, pos as int, p, c);
                lemma_with_byte_push(orig.take(k), orig[k], c);
            }
            k = k + 1;
            assert(input@ =~= orig.skip(k));
            assert forall|i: int, j: int| 0 <= i < j < out@.len() implies out@[i].ch <= out@[j].ch by {
                if j < pos {
                } else if j == pos {
                    assert(out@[i] == before[i]);
                } else if i < pos {
                    assert(out@[j] == before[j - 1]);
                    if j - 1 >= pos {
                        assert(before[i].ch <= before[j - 1].ch);
                    }
                } else if i == pos {
                    assert(out@[j] == before[j - 1]);
                } else {
                    assert(out@[i] == before[i - 1]);
                    assert(out@[j] == before[j - 1]);
                }
            }
        }
    }
    assert(orig.take(k) =~= orig);
    *pairs = out;
}

/// The index of the first pair whose byte repeats in the next pair, if any.
pub fn find_repeated(pairs: &[Pair]) -> (r: Option<usize>)
    requires
        pairs@.len() >= 1,
        sorted_by_ch(pairs@),
    ensures
        r matches Some(i) ==> i + 1 < pairs@.len() && pairs@[i as int].ch == pairs@[i + 1].ch
            && forall|j: int| 0 <= j < i ==> (#[trigger] pairs@[j]).ch < pairs@[j + 1].ch,
        r is None ==> forall|i: int, j: int| 0 <= i < j < pairs@.len() ==> pairs@[i].ch < pairs@[j].ch,
{
    let mut i: usize = 0;
    while i < pairs.len() - 1
        invariant
            pairs@.len() >= 1,
            sorted_by_ch(pairs@),
            i <= pairs@.len() - 1,
            forall|j: int| 0 <= j < i ==> (#[trigger] pairs@[j]).ch < pairs@[j + 1].ch,
        decreases pairs@.len() - i,
    {
        if pairs[i].ch == pairs[i + 1].ch {
            return Some(i);
        }
        i = i + 1;
    }
    proof {
        assert forall|a: int, b: int| 0 <= a < b < pairs@.len() implies pairs@[a].ch
            < pairs@[b].ch by {
            assert(pairs@[a].ch < pairs@[a + 1].ch);
            assert(pairs@[a + 1].ch <= pairs@[b].ch);
        }
    }
    None
}

/// The entry of the lookup table for byte `b`: the index of its pair, or the
/// number of pairs when `b` is not escaped.
pub open spec fn table_entry(chs: Seq<u8>, b: int, entry: int) -> bool {
    &&& 0 <= entry <= chs.len()
    &&& entry < chs.len() ==> chs[entry] == b
    &&& entry == chs.len() ==> forall|k: int| 0 <= k < chs.len() ==> chs[k] != b
}

/// The concatenation of the escape sequences of the pairs.
pub open spec fn joined_quotes(pairs: Seq<Pair>) -> Seq<char>
    decreases pairs.len(),
{
    if pairs.len() == 0 {
        seq![]
    } else {
        joined_quotes(pairs.drop_last()) + pairs.last().quote@
    }
}

/// A sorted table of distinct ASCII bytes has at most 128 entries.
pub proof fn lemma_table_size(chs: Seq<u8>)
    requires
        sorted_ascii(chs),
    ensures
        chs.len() <= 128,
{
    if chs.len() > 0 {
        assert forall|i: int| 0 <= i < chs.len() implies chs[i] >= i by {
            lemma_sorted_at_least(chs, i);
        }
        assert(chs[chs.len() - 1] < 128);
    }
}

/// In a strictly increasing table, the byte at `i` is at least `i`.
proof fn lemma_sorted_at_least(chs: Seq<u8>, i: int)
    requires
        sorted_ascii(chs),
        0 <= i < chs.len(),
    ensures
        chs[i] >= i,
    decreases i,
{
    if i > 0 {
        lemma_sorted_at_least(chs, i - 1);
    }
}

/// Generates the code of an escape table from its pairs.
pub struct Generator<'a> {
    pairs: &'a [Pair],
}

impl<'a> Generator<'a> {
    /// The pairs the code is generated from.
    pub closed spec fn pairs(&self) -> Seq<Pair> {
        self.pairs@
    }

    /// A generator for `pairs`.
    pub fn new(pairs: &'a [Pair]) -> (r: Generator<'a>)
        ensures
            r.pairs() == pairs@,
    {
        Generator { pairs }
    }

    /// The pairs the code is generated from.
    pub fn pairs_slice(&self) -> (r: &'a [Pair])
        ensures
            r@ == self.pairs(),
    {
        self.pairs
    }

    /// The number of escape sequences.
    pub fn escape_len(&self) -> (r: usize)
        ensures
            r == self.pairs().len(),
    {
        self.pairs.len()
    }

    /// The lookup table of the generated code: for each byte, the index of its pair,
    /// or the number of pairs when it is not escaped.
    pub fn static_table(&self) -> (t: Vec<u8>)
        requires
            sorted_ascii(pair_chars(self.pairs())),
        ensures
            t@.len() == 256,
            forall|b: int|
                0 <= b < 256 ==> table_entry(pair_chars(self.pairs()), b, #[trigger] t@[b] as int),
    {
        let ghost chs = pair_chars(self.pairs());
        proof {
            lemma_table_size(chs);
        }
        let len = self.pairs.len();
        let mut table: Vec<u8> = Vec::new();
        let mut b: usize = 0;
        while b < 256
            invariant
                chs == pair_chars(self.pairs()),
                len == chs.len(),
                len <= 128,
                b <= 256,
                table@.len() == b,
                forall|c: int| 0 <= c < b ==> table_entry(chs, c, #[trigger] table@[c] as int),
            decreases 256 - b,
        {
            let mut n: usize = 0;
            while n < len && self.pairs[n].ch as usize != b
                invariant
                    chs == pair_chars(self.pairs()),
                    len == chs.len(),
                    n <= len,
                    forall|k: int| 0 <= k < n ==> chs[k] != b,
                decreases len - n,
            {
                n = n + 1;
            }
            table.push(n as u8);
            b = b + 1;
        }
        table
    }

    /// The mask of the table.
    pub fn switch(&self) -> (r: Switch)
        requires
            self.pairs().len() >= 1,
            ascii_pairs(self.pairs()),
        ensures
            r == classify(pair_chars(self.pairs())),
    {
        Pairs(self.pairs).into()
    }

    /// The terms of the table's mask, in the order the generated code tests them.
    pub fn mask_terms(&self) -> (r: Vec<MaskTerm>)
        requires
            self.pairs().len() >= 1,
            sorted_ascii(pair_chars(self.pairs())),
        ensures
            r@ == classify(pair_chars(self.pairs())).spec_masking(),
    {
        proof {
            let chs = pair_chars(self.pairs());
            lemma_groups(chs);
            assert forall|i: int| 0 <= i < self.pairs().len() implies #[trigger] self.pairs()[i].ch
                < 128 by {
                assert(chs[i] == self.pairs()[i].ch);
            }
        }
        let switch = self.switch();
        switch.masking()
    }

    /// The escaped bytes, as text.
    pub fn escapes(&self) -> (r: String)
        requires
            ascii_pairs(self.pairs()),
        ensures
            vstd::utf8::encode_utf8(r@) == pair_chars(self.pairs()),
    {
        let mut bytes: Vec<u8> = Vec::new();
        let mut i: usize = 0;
        while i < self.pairs.len()
            invariant
                ascii_pairs(self.pairs()),
                i <= self.pairs().len(),
                bytes@ == pair_chars(self.pairs()).take(i as int),
            decreases self.pairs().len() - i,
        {
            bytes.push(self.pairs[i].ch);
            i = i + 1;
            assert(bytes@ =~= pair_chars(self.pairs()).take(i as int));
        }
        proof {
            assert(bytes@ =~= pair_chars(self.pairs()));
            lemma_ascii_valid_utf8(bytes@);
        }
        match str_from_utf8(bytes.as_slice()) {
            Some(text) => text.to_owned(),
            None => String::new(),
        }
    }

    /// The escape sequences of the pairs, one after the other.
    pub fn escaped(&self) -> (r: String)
        ensures
            r@ == joined_quotes(self.pairs()),
    {
        let mut out = String::new();
        let mut i: usize = 0;
        while i < self.pairs.len()
            invariant
                i <= self.pairs().len(),
                out@ == joined_quotes(self.pairs().take(i as int)),
            decreases self.pairs().len() - i,
        {
            out.append(self.pairs[i].quote.as_str());
            proof {
                assert(self.pairs().take(i + 1).drop_last() =~= self.pairs().take(i as int));
            }
            i = i + 1;
        }
        assert(self.pairs().take(i as int) =~= self.pairs());
        out
    }
}

} // verus!
