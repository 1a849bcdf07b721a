//! The pairs of an escape table, and their classification into a mask.
use vstd::prelude::*;

use crate::codegen_base::ranges::{
    classify, first_cut, group_ranges, group_singles, lemma_cuts, lemma_widest_gap, second_cut,
    widest_gap,
};
use crate::codegen_base::switch::{signed_lane, Switch};

verus! {

/// An escaped byte and its escape sequence.
#[derive(Debug)]
pub struct Pair {
    pub ch: u8,
    pub quote: String,
}

impl Pair {
    /// The pair of byte `ch` and escape sequence `quote`.
    pub fn new(ch: i8, quote: &str) -> (r: Pair)
        ensures
            r.ch == ch as u8,
            r.quote@ == quote@,
    {
        Pair { ch: ch as u8, quote: quote.to_owned() }
    }
}

/// The escaped bytes of a table, in order.
pub open spec fn pair_chars(pairs: Seq<Pair>) -> Seq<u8> {
    pairs.map_values(|p: Pair| p.ch)
}

/// Every escaped byte of the table is ASCII.
pub open spec fn ascii_pairs(pairs: Seq<Pair>) -> bool {
    forall|i: int| 0 <= i < pairs.len() ==> #[trigger] pairs[i].ch < 128
}

/// A table of pairs, sorted by byte.
pub struct Pairs<'a>(pub &'a [Pair]);

impl<'a> Pairs<'a> {
    /// The escaped bytes, in order.
    pub open spec fn chars(self) -> Seq<u8> {
        pair_chars(self.0@)
    }

    /// The number of pairs.
    pub fn len(&self) -> (n: usize)
        ensures
            n == self.0@.len(),
    {
        self.0.len()
    }

    /// The byte of pair `i`, as a signed lane value.
    pub fn ch(&self, i: usize) -> (c: i8)
        requires
            i < self.0@.len(),
        ensures
            c == signed_lane(self.chars()[i as int]),
    {
        let b = self.0[i].ch;
        assert(b == self.chars()[i as int]);
        assert((b as i8) as int == if b < 128 {
            b as int
        } else {
            b - 256
        }) by (bit_vector);
        b as i8
    }

    /// The widest gap between consecutive bytes, other than the one after index
    /// `excl`; the earliest of equally wide ones.
    fn widest_gap(&self, excl: Option<usize>) -> (r: Option<usize>)
        requires
            self.0@.len() >= 1,
            ascii_pairs(self.0@),
        ensures
            ({
                let x = match excl {
                    Some(x) => x as int,
                    None => -1,
                };
                match r {
                    Some(i) => i == widest_gap(self.chars(), self.0@.len() - 1, x),
                    None => widest_gap(self.chars(), self.0@.len() - 1, x) < 0,
                }
            }),
    {
        let ghost x = match excl {
            Some(x) => x as int,
            None => -1,
        };
        let e = self.len() - 1;
        let mut best: Option<usize> = None;
        let mut best_diff: i8 = 0;
        let mut i: usize = 0;
        while i < e
            invariant
                e == self.0@.len() - 1,
                ascii_pairs(self.0@),
                i <= e,
                x == match excl {
                    Some(x) => x as int,
                    None => -1,
                },
                match best {
                    Some(b) => b == widest_gap(self.chars(), i as int, x) && best_diff == self.chars()[b + 1]
                        - self.chars()[b as int],
                    None => widest_gap(self.chars(), i as int, x) < 0,
                },
            decreases e - i,
        {
            proof {
                lemma_widest_gap(self.chars(), i as int, x);
            }
            let diff = self.ch(i + 1) - self.ch(i);
            let excluded = match excl {
                Some(x) => x == i,
                None => false,
            };
            if 1 < diff && !excluded {
                let wider = match best {
                    Some(_) => diff > best_diff,
                    None => true,
                };
                if wider {
                    best = Some(i);
                    best_diff = diff;
                }
            }
            i = i + 1;
        }
        best
    }

    /// The mask of the table: its bytes are cut at the two widest gaps into at most
    /// three groups, each of which becomes a range or a single byte.
    pub fn into(self) -> (r: Switch)
        requires
            self.0@.len() >= 1,
            ascii_pairs(self.0@),
        ensures
            r == classify(self.chars()),
    {
        proof {
            lemma_cuts(self.chars());
        }
        if self.len() == 1 {
            return Switch::A { a: self.ch(0) };
        }
        let e = self.len() - 1;
        match self.widest_gap(None) {
            None => Switch::Ar { la: self.ch(0), ra: self.ch(e) },
            Some(i) => match self.widest_gap(Some(i)) {
                None => {
                    if e == 1 {
                        Switch::AB { a: self.ch(0), b: self.ch(e) }
                    } else if i == 0 {
                        Switch::ArB { la: self.ch(i + 1), ra: self.ch(e), b: self.ch(0) }
                    } else if i + 1 != e {
                        Switch::ArBr {
                            la: self.ch(0),
                            ra: self.ch(i),
                            lb: self.ch(i + 1),
                            rb: self.ch(e),
                        }
                    } else {
                        Switch::ArB { la: self.ch(0), ra: self.ch(i), b: self.ch(i + 1) }
                    }
                },
                Some(j) => {
                    if e <= 2 {
                        return Switch::ABC { a: self.ch(0), b: self.ch(1), c: self.ch(2) };
                    }
                    let f = if i < j {
                        i
                    } else {
                        j
                    };
                    let l = if i < j {
                        j
                    } else {
                        i
                    };
                    if f + 1 == l {
                        if f == 0 {
                            self.push_1_ranges_2_equals_at_first(f, l, e)
                        } else if l + 1 == e {
                            self.push_1_ranges_2_equals_at_last(f, l, e)
                        } else {
                            self.push_2_ranges_1_equals(f, l, e)
                        }
                    } else if f == 0 {
                        if l + 1 == e {
                            self.push_1_ranges_2_equals_at_first_last(f, l, e)
                        } else {
                            self.push_2_ranges_1_equals_at_first(f, l, e)
                        }
                    } else if l + 1 == e {
                        self.push_2_ranges_1_equals_at_last(f, l, e)
                    } else {
                        self.push_3_ranges(f, l, e)
                    }
                },
            },
        }
    }

    /// The first and second bytes are single, the rest a range.
    fn push_1_ranges_2_equals_at_first(&self, f: usize, l: usize, e: usize) -> (r: Switch)
        requires
            f < l < e < self.0@.len(),
            ascii_pairs(self.0@),
        ensures
            r == (Switch::ArBC {
                la: self.chars()[l + 1] as i8,
                ra: self.chars()[e as int] as i8,
                b: self.chars()[0] as i8,
                c: self.chars()[f + 1] as i8,
            }),
    {
        Switch::ArBC { la: self.ch(l + 1), ra: self.ch(e), b: self.ch(0), c: self.ch(f + 1) }
    }

    /// The last two bytes are single, the rest a range.
    fn push_1_ranges_2_equals_at_last(&self, f: usize, l: usize, e: usize) -> (r: Switch)
        requires
            f < l <= e < self.0@.len(),
            ascii_pairs(self.0@),
        ensures
            r == (Switch::ArBC {
                la: self.chars()[0] as i8,
                ra: self.chars()[f as int] as i8,
                b: self.chars()[l as int] as i8,
                c: self.chars()[e as int] as i8,
            }),
    {
        Switch::ArBC { la: self.ch(0), ra: self.ch(f), b: self.ch(l), c: self.ch(e) }
    }

    /// The first and last bytes are single, the middle a range.
    fn push_1_ranges_2_equals_at_first_last(&self, f: usize, l: usize, e: usize) -> (r: Switch)
        requires
            f < l <= e < self.0@.len(),
            ascii_pairs(self.0@),
        ensures
            r == (Switch::ArBC {
                la: self.chars()[f + 1] as i8,
                ra: self.chars()[l as int] as i8,
                b: self.chars()[0] as i8,
                c: self.chars()[e as int] as i8,
            }),
    {
        Switch::ArBC { la: self.ch(f + 1), ra: self.ch(l), b: self.ch(0), c: self.ch(e) }
    }

    /// A range, a single byte in the middle, and a range.
    fn push_2_ranges_1_equals(&self, f: usize, l: usize, e: usize) -> (r: Switch)
        requires
            f < l < e < self.0@.len(),
            ascii_pairs(self.0@),
        ensures
            r == (Switch::ArBrC {
                la: self.chars()[0] as i8,
                ra: self.chars()[f as int] as i8,
                lb: self.chars()[l + 1] as i8,
                rb: self.chars()[e as int] as i8,
                c: self.chars()[f + 1] as i8,
            }),
    {
        Switch::ArBrC {
            la: self.ch(0),
            ra: self.ch(f),
            lb: self.ch(l + 1),
            rb: self.ch(e),
            c: self.ch(f + 1),
        }
    }

    /// A single first byte and two ranges.
    fn push_2_ranges_1_equals_at_first(&self, f: usize, l: usize, e: usize) -> (r: Switch)
        requires
            f < l < e < self.0@.len(),
            ascii_pairs(self.0@),
        ensures
            r == (Switch::ArBrC {
                la: self.chars()[f + 1] as i8,
                ra: self.chars()[l as int] as i8,
                lb: self.chars()[l + 1] as i8,
                rb: self.chars()[e as int] as i8,
                c: self.chars()[0] as i8,
            }),
    {
        Switch::ArBrC {
            la: self.ch(f + 1),
            ra: self.ch(l),
            lb: self.ch(l + 1),
            rb: self.ch(e),
            c: self.ch(0),
        }
    }

    /// Two ranges and a single last byte.
    fn push_2_ranges_1_equals_at_last(&self, f: usize, l: usize, e: usize) -> (r: Switch)
        requires
            f < l <= e < self.0@.len(),
            ascii_pairs(self.0@),
        ensures
            r == (Switch::ArBrC {
                la: self.chars()[0] as i8,
                ra: self.chars()[f as int] as i8,
                lb: self.chars()[f + 1] as i8,
                rb: self.chars()[l as int] as i8,
                c: self.chars()[e as int] as i8,
            }),
    {
        Switch::ArBrC {
            la: self.ch(0),
            ra: self.ch(f),
            lb: self.ch(f + 1),
            rb: self.ch(l),
            c: self.ch(e),
        }
    }

    /// Three ranges.
    fn push_3_ranges(&self, f: usize, l: usize, e: usize) -> (r: Switch)
        requires
            f < l < e < self.0@.len(),
            ascii_pairs(self.0@),
        ensures
            r == (Switch::ArBrCr {
                la: self.chars()[0] as i8,
                ra: self.chars()[f as int] as i8,
                lb: self.chars()[f + 1] as i8,
                rb: self.chars()[l as int] as i8,
                lc: self.chars()[l + 1] as i8,
                rc: self.chars()[e as int] as i8,
            }),
    {
        Switch::ArBrCr {
            la: self.ch(0),
            ra: self.ch(f),
            lb: self.ch(f + 1),
            rb: self.ch(l),
            lc: self.ch(l + 1),
            rc: self.ch(e),
        }
    }
}

} // verus!
