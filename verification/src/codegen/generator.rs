//! The code generator's analysis of a template: its pairs, their mask and the
//! target features the generated loops are written for.
use vstd::prelude::*;

use crate::codegen_base::ranges::{
    classify, first_cut, group_ranges, group_singles, lemma_cuts, lemma_widest_gap, second_cut,
    sorted_ascii, widest_gap,
};
use crate::codegen_base::switch::{signed_lane, Switch};

verus! {

/// An escaped byte and its escape sequence.
#[derive(Debug)]
pub struct Pair {
    pub ch: u8,
    pub quote: String,
}

impl Pair {
    /// The pair of byte `ch` and escape sequence `quote`.
    pub fn new(ch: u8, quote: &str) -> (r: Pair)
        ensures
            r.ch == ch,
            r.quote@ == quote@,
    {
        Pair { ch, quote: quote.to_owned() }
    }
}

/// The escaped bytes of a table, in order.
pub open spec fn chars_of(pairs: Seq<Pair>) -> Seq<u8> {
    pairs.map_values(|p: Pair| p.ch)
}

/// A byte of the template, accepted when it is an ASCII value.
pub struct Ch(pub u8);

impl Ch {
    /// Accepts `n` when it is an ASCII value.
    pub fn new(n: u8) -> (r: Result<Ch, ()>)
        ensures
            r is Ok <==> n < 128,
            r matches Ok(c) ==> c.0 == n,
    {
        if n <= (i8::MAX as u8) {
            Ok(Ch(n))
        } else {
            Err(())
        }
    }
}

/// The target feature a block-wise loop is generated for.
#[derive(Debug, Clone, Copy, PartialEq, Eq, Structural)]
pub enum Feature {
    Avx2,
    Sse2,
}

impl Feature {
    /// The name of the target feature.
    pub fn name(self) -> (r: &'static str)
        ensures
            self == Feature::Avx2 ==> r@ == "avx2"@,
            self == Feature::Sse2 ==> r@ == "sse2"@,
    {
        match self {
            Feature::Avx2 => "avx2",
            Feature::Sse2 => "sse2",
        }
    }

    /// The number of bytes of the feature's vectors.
    pub fn vector_bytes(self) -> (r: usize)
        ensures
            self == Feature::Avx2 ==> r == 32,
            self == Feature::Sse2 ==> r == 16,
    {
        match self {
            Feature::Avx2 => 32,
            Feature::Sse2 => 16,
        }
    }
}

/// Generates the code of an escape table from its sorted pairs.
pub struct Generator<'a> {
    pairs: &'a [Pair],
}

impl<'a> Generator<'a> {
    /// The pairs the code is generated from.
    pub closed spec fn pairs(&self) -> Seq<Pair> {
        self.pairs@
    }

    /// The escaped bytes, in order.
    pub open spec fn chars(&self) -> Seq<u8> {
        chars_of(self.pairs())
    }

    /// A generator for `pairs`.
    pub fn new(pairs: &'a [Pair]) -> (r: Generator<'a>)
        ensures
            r.pairs() == pairs@,
    {
        Generator { pairs }
    }

    /// The byte of pair `i`, as a signed lane value.
    pub fn ch(&self, i: usize) -> (c: i8)
        requires
            i < self.pairs().len(),
        ensures
            c == signed_lane(self.chars()[i as int]),
    {
        let b = self.pairs[i].ch;
        assert(b == self.chars()[i as int]);
        assert((b as i8) as int == if b < 128 {
            b as int
        } else {
            b - 256
        }) by (bit_vector);
        b as i8
    }

    /// The widest gap between consecutive bytes, other than the one after index
    /// `excl`; the earliest of equally wide ones.
    fn widest_gap(&self, excl: Option<usize>) -> (r: Option<usize>)
        requires
            self.pairs().len() >= 1,
            sorted_ascii(self.chars()),
        ensures
            ({
                let x = match excl {
                    Some(x) => x as int,
                    None => -1,
                };
                match r {
                    Some(i) => i == widest_gap(self.chars(), self.pairs().len() - 1, x),
                    None => widest_gap(self.chars(), self.pairs().len() - 1, x) < 0,
                }
            }),
    {
        let ghost x = match excl {
            Some(x) => x as int,
            None => -1,
        };
        let e = self.pairs.len() - 1;
        let mut best: Option<usize> = None;
        let mut best_diff: u8 = 0;
        let mut i: usize = 0;
        while i < e
            invariant
                e == self.pairs().len() - 1,
                sorted_ascii(self.chars()),
                i <= e,
                x == match excl {
                    Some(x) => x as int,
                    None => -1,
                },
                match best {
                    Some(b) => b == widest_gap(self.chars(), i as int, x) && best_diff == self.chars()[b + 1]
                        - self.chars()[b as int],
                    None => widest_gap(self.chars(), i as int, x) < 0,
                },
            decreases e - i,
        {
            proof {
                lemma_widest_gap(self.chars(), i as int, x);
                assert(self.chars()[i as int] < self.chars()[i + 1]);
            }
            let diff = self.pairs[i + 1].ch - self.pairs[i].ch;
            let excluded = match excl {
                Some(x) => x == i,
                None => false,
            };
            if 1 < diff && !excluded {
                let wider = match best {
                    Some(_) => diff > best_diff,
                    None => true,
                };
                if wider {
                    best = Some(i);
                    best_diff = diff;
                }
            }
            i = i + 1;
        }
        best
    }

    /// The mask of the table: its bytes are cut at the two widest gaps into at most
    /// three groups, each of which becomes a range or a single byte.
    pub fn calculate_ranges(&self) -> (r: Switch)
        requires
            self.pairs().len() >= 1,
            sorted_ascii(self.chars()),
        ensures
            r == classify(self.chars()),
    {
        proof {
            lemma_cuts(self.chars());
        }
        if self.pairs.len() == 1 {
            return Switch::A { a: self.ch(0) };
        }
        let e = self.pairs.len() - 1;
        match self.widest_gap(None) {
            None => Switch::Ar { la: self.ch(0), ra: self.ch(e) },
            Some(i) => match self.widest_gap(Some(i)) {
                None => {
                    if e == 1 {
                        Switch::AB { a: self.ch(0), b: self.ch(e) }
                    } else if i == 0 {
                        Switch::ArB { la: self.ch(i + 1), ra: self.ch(e), b: self.ch(0) }
                    } else if i + 1 != e {
                        Switch::ArBr {
                            la: self.ch(0),
                            ra: self.ch(i),
                            lb: self.ch(i + 1),
                            rb: self.ch(e),
                        }
                    } else {
                        Switch::ArB { la: self.ch(0), ra: self.ch(i), b: self.ch(i + 1) }
                    }
                },
                Some(j) => {
                    if e <= 2 {
                        return Switch::ABC { a: self.ch(0), b: self.ch(1), c: self.ch(2) };
                    }
                    let f = if i < j {
                        i
                    } else {
                        j
                    };
                    let l = if i < j {
                        j
                    } else {
                        i
                    };
                    if f + 1 == l {
                        if f == 0 {
                            self.push_1_ranges_2_equals_at_first(f, l, e)
                        } else if l + 1 == e {
                            self.push_1_ranges_2_equals_at_last(f, l, e)
                        } else {
                            self.push_2_ranges_1_equals(f, l, e)
                        }
                    } else if f == 0 {
                        if l + 1 == e {
                            self.push_1_ranges_2_equals_at_first_last(f, l, e)
                        } else {
                            self.push_2_ranges_1_equals_at_first(f, l, e)
                        }
                    } else if l + 1 == e {
                        self.push_2_ranges_1_equals_at_last(f, l, e)
                    } else {
                        self.push_3_ranges(f, l, e)
                    }
                },
            },
        }
    }

    /// The first and second bytes are single, the rest a range.
    fn push_1_ranges_2_equals_at_first(&self, f: usize, l: usize, e: usize) -> (r: Switch)
        requires
            f < l < e < self.pairs().len(),
            sorted_ascii(self.chars()),
        ensures
            r == (Switch::ArBC {
                la: self.chars()[l + 1] as i8,
                ra: self.chars()[e as int] as i8,
                b: self.chars()[0] as i8,
                c: self.chars()[f + 1] as i8,
            }),
    {
        Switch::ArBC { la: self.ch(l + 1), ra: self.ch(e), b: self.ch(0), c: self.ch(f + 1) }
    }

    /// The last two bytes are single, the rest a range.
    fn push_1_ranges_2_equals_at_last(&self, f: usize, l: usize, e: usize) -> (r: Switch)
        requires
            f < l <= e < self.pairs().len(),
            sorted_ascii(self.chars()),
        ensures
            r == (Switch::ArBC {
                la: self.chars()[0] as i8,
                ra: self.chars()[f as int] as i8,
                b: self.chars()[l as int] as i8,
                c: self.chars()[e as int] as i8,
            }),
    {
        Switch::ArBC { la: self.ch(0), ra: self.ch(f), b: self.ch(l), c: self.ch(e) }
    }

    /// The first and last bytes are single, the middle a range.
    fn push_1_ranges_2_equals_at_first_last(&self, f: usize, l: usize, e: usize) -> (r: Switch)
        requires
            f < l <= e < self.pairs().len(),
            sorted_ascii(self.chars()),
        ensures
            r == (Switch::ArBC {
                la: self.chars()[f + 1] as i8,
                ra: self.chars()[l as int] as i8,
                b: self.chars()[0] as i8,
                c: self.chars()[e as int] as i8,
            }),
    {
        Switch::ArBC { la: self.ch(f + 1), ra: self.ch(l), b: self.ch(0), c: self.ch(e) }
    }

    /// A range, a single byte in the middle, and a range.
    fn push_2_ranges_1_equals(&self, f: usize, l: usize, e: usize) -> (r: Switch)
        requires
            f < l < e < self.pairs().len(),
            sorted_ascii(self.chars()),
        ensures
            r == (Switch::ArBrC {
                la: self.chars()[0] as i8,
                ra: self.chars()[f as int] as i8,
                lb: self.chars()[l + 1] as i8,
                rb: self.chars()[e as int] as i8,
                c: self.chars()[f + 1] as i8,
            }),
    {
        Switch::ArBrC {
            la: self.ch(0),
            ra: self.ch(f),
            lb: self.ch(l + 1),
            rb: self.ch(e),
            c: self.ch(f + 1),
        }
    }

    /// A single first byte and two ranges.
    fn push_2_ranges_1_equals_at_first(&self, f: usize, l: usize, e: usize) -> (r: Switch)
        requires
            f < l < e < self.pairs().len(),
            sorted_ascii(self.chars()),
        ensures
            r == (Switch::ArBrC {
                la: self.chars()[f + 1] as i8,
                ra: self.chars()[l as int] as i8,
                lb: self.chars()[l + 1] as i8,
                rb: self.chars()[e as int] as i8,
                c: self.chars()[0] as i8,
            }),
    {
        Switch::ArBrC {
            la: self.ch(f + 1),
            ra: self.ch(l),
            lb: self.ch(l + 1),
            rb: self.ch(e),
            c: self.ch(0),
        }
    }

    /// Two ranges and a single last byte.
    fn push_2_ranges_1_equals_at_last(&self, f: usize, l: usize, e: usize) -> (r: Switch)
        requires
            f < l <= e < self.pairs().len(),
            sorted_ascii(self.chars()),
        ensures
            r == (Switch::ArBrC {
                la: self.chars()[0] as i8,
                ra: self.chars()[f as int] as i8,
                lb: self.chars()[f + 1] as i8,
                rb: self.chars()[l as int] as i8,
                c: self.chars()[e as int] as i8,
            }),
    {
        Switch::ArBrC {
            la: self.ch(0),
            ra: self.ch(f),
            lb: self.ch(f + 1),
            rb: self.ch(l),
            c: self.ch(e),
        }
    }

    /// Three ranges.
    fn push_3_ranges(&self, f: usize, l: usize, e: usize) -> (r: Switch)
        requires
            f < l < e < self.pairs().len(),
            sorted_ascii(self.chars()),
        ensures
            r == (Switch::ArBrCr {
                la: self.chars()[0] as i8,
                ra: self.chars()[f as int] as i8,
                lb: self.chars()[f + 1] as i8,
                rb: self.chars()[l as int] as i8,
                lc: self.chars()[l + 1] as i8,
                rc: self.chars()[e as int] as i8,
            }),
    {
        Switch::ArBrCr {
            la: self.ch(0),
            ra: self.ch(f),
            lb: self.ch(f + 1),
            rb: self.ch(l),
            lc: self.ch(l + 1),
            rc: self.ch(e),
        }
    }
}

} // verus!
