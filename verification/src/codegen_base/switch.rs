//! The shape of an escape table's mask: up to three ranges and single bytes that
//! together cover the escaped bytes, and the lane-wise tests that implement it.
use vstd::prelude::*;

verus! {

/// The mask of an escape table, as ranges `[l*, r*]` and single bytes.
///
/// Ranges come first, in increasing order, then single bytes, in increasing order.
#[derive(Debug, Clone, Copy, PartialEq, Eq, Structural)]
pub enum Switch {
    A { a: i8 },
    Ar { la: i8, ra: i8 },
    AB { a: i8, b: i8 },
    ArB { la: i8, ra: i8, b: i8 },
    ArBr { la: i8, ra: i8, lb: i8, rb: i8 },
    ABC { a: i8, b: i8, c: i8 },
    ArBC { la: i8, ra: i8, b: i8, c: i8 },
    ArBrC { la: i8, ra: i8, lb: i8, rb: i8, c: i8 },
    ArBrCr { la: i8, ra: i8, lb: i8, rb: i8, lc: i8, rc: i8 },
}

/// Whether the lookup after the mask may be skipped: `Exact` masks select only
/// escaped bytes, `Reg` masks may select others too.
#[derive(Debug, Clone, Copy, PartialEq, Eq, Structural)]
pub enum Bodies {
    Reg,
    Exact,
}

/// One test of the mask on a lane: a range test by translation and signed
/// comparison, or an equality test.
#[derive(Debug, Clone, Copy, PartialEq, Eq, Structural)]
pub enum MaskTerm {
    /// The lane is selected when `lane + translation` (wrapping) is greater than `below`.
    Range { translation: i8, below: i8 },
    /// The lane is selected when it equals `value`.
    Equal { value: i8 },
}

/// The byte `b` read as a signed 8-bit lane.
pub open spec fn signed_lane(b: u8) -> int {
    if b < 128 {
        b as int
    } else {
        b - 256
    }
}

/// The signed 8-bit value that `v` wraps around to.
pub open spec fn wrap_i8(v: int) -> int {
    if v > 127 {
        v - 256
    } else if v < -128 {
        v + 256
    } else {
        v
    }
}

impl MaskTerm {
    /// Whether the term selects lane `b`.
    pub open spec fn selects(self, b: u8) -> bool {
        match self {
            MaskTerm::Range { translation, below } => wrap_i8(signed_lane(b) + translation) > below,
            MaskTerm::Equal { value } => signed_lane(b) == value,
        }
    }

    /// The term that selects the bytes in `[l, r]`.
    pub open spec fn spec_range(l: i8, r: i8) -> MaskTerm {
        MaskTerm::Range { translation: (127 - r) as i8, below: (127 - (r - l) - 1) as i8 }
    }

    /// The range test of `[l, r]`: lanes are translated so that `r` lands on the
    /// largest signed value, and those above `l`'s image are kept.
    pub fn range(l: i8, r: i8) -> (t: MaskTerm)
        requires
            0 <= l <= r <= 127,
        ensures
            t == MaskTerm::spec_range(l, r),
    {
        let translation: i8 = i8::MAX - r;
        let below: i8 = i8::MAX - (r - l) - 1;
        MaskTerm::Range { translation, below }
    }

    /// Applies the term to one lane, as the vector instructions do.
    pub fn lane(&self, b: u8) -> (r: bool)
        ensures
            r == self.selects(b),
    {
        let x: i16 = if b < 128 {
            b as i16
        } else {
            b as i16 - 256
        };
        match *self {
            MaskTerm::Range { translation, below } => {
                let sum: i16 = x + translation as i16;
                let wrapped: i16 = if sum > 127 {
                    sum - 256
                } else if sum < -128 {
                    sum + 256
                } else {
                    sum
                };
                wrapped > below as i16
            },
            MaskTerm::Equal { value } => x == value as i16,
        }
    }
}

/// The range test of `[l, r]` selects exactly the bytes in `[l, r]`.
pub proof fn lemma_range_term(l: i8, r: i8, b: u8)
    requires
        0 <= l <= r <= 127,
    ensures
        MaskTerm::spec_range(l, r).selects(b) <==> l <= b <= r,
{
}

/// The equality test of a non-negative value selects exactly that byte.
pub proof fn lemma_equal_term(v: i8, b: u8)
    requires
        0 <= v,
    ensures
        (MaskTerm::Equal { value: v }).selects(b) <==> b == v,
{
}

/// Whether `x` lies in one of the first three ranges of `rs`.
pub open spec fn in_ranges(rs: Seq<(int, int)>, x: int) -> bool {
    ||| (rs.len() > 0 && rs[0].0 <= x <= rs[0].1)
    ||| (rs.len() > 1 && rs[1].0 <= x <= rs[1].1)
    ||| (rs.len() > 2 && rs[2].0 <= x <= rs[2].1)
}

/// Whether `x` is one of the first three values of `ss`.
pub open spec fn in_singles(ss: Seq<int>, x: int) -> bool {
    ||| (ss.len() > 0 && ss[0] == x)
    ||| (ss.len() > 1 && ss[1] == x)
    ||| (ss.len() > 2 && ss[2] == x)
}

impl Switch {
    /// The ranges of the mask, in order.
    pub open spec fn ranges(self) -> Seq<(int, int)> {
        match self {
            Switch::A { .. } | Switch::AB { .. } | Switch::ABC { .. } => seq![],
            Switch::Ar { la, ra } | Switch::ArB { la, ra, .. } | Switch::ArBC { la, ra, .. } => seq![
                (la as int, ra as int),
            ],
            Switch::ArBr { la, ra, lb, rb } | Switch::ArBrC { la, ra, lb, rb, .. } => seq![
                (la as int, ra as int),
                (lb as int, rb as int),
            ],
            Switch::ArBrCr { la, ra, lb, rb, lc, rc } => seq![
                (la as int, ra as int),
                (lb as int, rb as int),
                (lc as int, rc as int),
            ],
        }
    }

    /// The single bytes of the mask, in order.
    pub open spec fn singles(self) -> Seq<int> {
        match self {
            Switch::A { a } => seq![a as int],
            Switch::AB { a, b } => seq![a as int, b as int],
            Switch::ABC { a, b, c } => seq![a as int, b as int, c as int],
            Switch::Ar { .. } | Switch::ArBr { .. } | Switch::ArBrCr { .. } => seq![],
            Switch::ArB { b, .. } => seq![b as int],
            Switch::ArBC { b, c, .. } => seq![b as int, c as int],
            Switch::ArBrC { c, .. } => seq![c as int],
        }
    }

    /// Whether the mask selects byte value `x`.
    pub open spec fn contains(self, x: int) -> bool {
        in_ranges(self.ranges(), x) || in_singles(self.singles(), x)
    }

    /// Every bound is an ASCII value and every range is non-empty.
    pub open spec fn wf(self) -> bool {
        &&& forall|i: int|
            0 <= i < self.ranges().len() ==> 0 <= #[trigger] self.ranges()[i].0 <= self.ranges()[i].1
                <= 127
        &&& forall|i: int| 0 <= i < self.singles().len() ==> 0 <= #[trigger] self.singles()[i] <= 127
    }

    /// The kind of lookup that the mask needs.
    pub open spec fn spec_bodies(self) -> Bodies {
        match self {
            Switch::ArBC { .. } | Switch::ArBrCr { .. } | Switch::ArBrC { .. } => Bodies::Reg,
            _ => Bodies::Exact,
        }
    }

    /// The terms of the mask: one range test per range, then one equality test per
    /// single byte, in order.
    pub open spec fn spec_masking(self) -> Seq<MaskTerm> {
        self.ranges().map_values(
            |r: (int, int)| MaskTerm::spec_range(r.0 as i8, r.1 as i8),
        ) + self.singles().map_values(|v: int| MaskTerm::Equal { value: v as i8 })
    }

    /// Returns the terms of the mask, in the order the generated code tests them.
    pub fn masking(&self) -> (r: Vec<MaskTerm>)
        requires
            self.wf(),
        ensures
            r@ == self.spec_masking(),
    {
        proof {
            lemma_wf_bounds(*self);
        }
        let mut v: Vec<MaskTerm> = Vec::new();
        match *self {
            Switch::A { a } => {
                v.push(MaskTerm::Equal { value: a });
            },
            Switch::Ar { la, ra } => {
                v.push(MaskTerm::range(la, ra));
            },
            Switch::AB { a, b } => {
                v.push(MaskTerm::Equal { value: a });
                v.push(MaskTerm::Equal { value: b });
            },
            Switch::ArB { la, ra, b } => {
                v.push(MaskTerm::range(la, ra));
                v.push(MaskTerm::Equal { value: b });
            },
            Switch::ArBr { la, ra, lb, rb } => {
                v.push(MaskTerm::range(la, ra));
                v.push(MaskTerm::range(lb, rb));
            },
            Switch::ABC { a, b, c } => {
                v.push(MaskTerm::Equal { value: a });
                v.push(MaskTerm::Equal { value: b });
                v.push(MaskTerm::Equal { value: c });
            },
            Switch::ArBC { la, ra, b, c } => {
                v.push(MaskTerm::range(la, ra));
                v.push(MaskTerm::Equal { value: b });
                v.push(MaskTerm::Equal { value: c });
            },
            Switch::ArBrC { la, ra, lb, rb, c } => {
                v.push(MaskTerm::range(la, ra));
                v.push(MaskTerm::range(lb, rb));
                v.push(MaskTerm::Equal { value: c });
            },
            Switch::ArBrCr { la, ra, lb, rb, lc, rc } => {
                v.push(MaskTerm::range(la, ra));
                v.push(MaskTerm::range(lb, rb));
                v.push(MaskTerm::range(lc, rc));
            },
        }
        assert(v@ =~= self.spec_masking());
        v
    }

    /// Applies the whole mask to one lane: the lane is selected when one of the
    /// terms selects it.
    pub fn lane(&self, b: u8) -> (r: bool)
        requires
            self.wf(),
        ensures
            r == self.contains(b as int),
    {
        let terms = self.masking();
        let mut i: usize = 0;
        let mut hit = false;
        while i < terms.len()
            invariant
                self.wf(),
                terms@ == self.spec_masking(),
                i <= terms.len(),
                hit == exists|j: int| 0 <= j < i && (#[trigger] terms@[j]).selects(b),
            decreases terms.len() - i,
        {
            hit = hit || terms[i].lane(b);
            i = i + 1;
        }
        proof {
            lemma_masking_selects(*self, b);
        }
        hit
    }

    /// The kind of lookup that the mask needs.
    pub fn bodies(&self) -> (r: Bodies)
        ensures
            r == self.spec_bodies(),
    {
        match *self {
            Switch::ArBC { .. } | Switch::ArBrCr { .. } | Switch::ArBrC { .. } => Bodies::Reg,
            _ => Bodies::Exact,
        }
    }
}

/// The bounds of a well-formed mask, one by one.
pub proof fn lemma_wf_bounds(sw: Switch)
    requires
        sw.wf(),
    ensures
        sw.ranges().len() > 0 ==> 0 <= sw.ranges()[0].0 <= sw.ranges()[0].1 <= 127,
        sw.ranges().len() > 1 ==> 0 <= sw.ranges()[1].0 <= sw.ranges()[1].1 <= 127,
        sw.ranges().len() > 2 ==> 0 <= sw.ranges()[2].0 <= sw.ranges()[2].1 <= 127,
        sw.singles().len() > 0 ==> 0 <= sw.singles()[0] <= 127,
        sw.singles().len() > 1 ==> 0 <= sw.singles()[1] <= 127,
        sw.singles().len() > 2 ==> 0 <= sw.singles()[2] <= 127,
{
    if sw.ranges().len() > 0 {
        assert(0 <= sw.ranges()[0].0);
    }
    if sw.ranges().len() > 1 {
        assert(0 <= sw.ranges()[1].0);
    }
    if sw.ranges().len() > 2 {
        assert(0 <= sw.ranges()[2].0);
    }
    if sw.singles().len() > 0 {
        assert(0 <= sw.singles()[0]);
    }
    if sw.singles().len() > 1 {
        assert(0 <= sw.singles()[1]);
    }
    if sw.singles().len() > 2 {
        assert(0 <= sw.singles()[2]);
    }
}

/// The terms of a well-formed mask select a lane exactly when the mask contains
/// its byte.
pub proof fn lemma_masking_selects(sw: Switch, b: u8)
    requires
        sw.wf(),
    ensures
        (exists|j: int| 0 <= j < sw.spec_masking().len() && (#[trigger] sw.spec_masking()[j]).selects(b))
            <==> sw.contains(b as int),
{
    let t = sw.spec_masking();
    let rs = sw.ranges();
    let ss = sw.singles();
    assert(t.len() == rs.len() + ss.len());
    assert forall|i: int| 0 <= i < rs.len() implies (#[trigger] t[i]).selects(b) == (rs[i].0 <= b
        <= rs[i].1) by {
        assert(t[i] == MaskTerm::spec_range(rs[i].0 as i8, rs[i].1 as i8));
        lemma_range_term(rs[i].0 as i8, rs[i].1 as i8, b);
    }
    assert forall|i: int| 0 <= i < ss.len() implies (#[trigger] t[rs.len() + i]).selects(b) == (
    ss[i] == b) by {
        assert(t[rs.len() + i] == MaskTerm::Equal { value: ss[i] as i8 });
        lemma_equal_term(ss[i] as i8, b);
    }
    assert(rs.len() <= 3 && ss.len() <= 3);
    if sw.contains(b as int) {
        if in_ranges(rs, b as int) {
            if rs.len() > 0 && rs[0].0 <= b <= rs[0].1 {
                assert(t[0].selects(b));
            } else if rs.len() > 1 && rs[1].0 <= b <= rs[1].1 {
                assert(t[1].selects(b));
            } else {
                assert(t[2].selects(b));
            }
        } else {
            if ss.len() > 0 && ss[0] == b {
                assert(t[rs.len() as int + 0].selects(b));
            } else if ss.len() > 1 && ss[1] == b {
                assert(t[rs.len() as int + 1].selects(b));
            } else {
                assert(t[rs.len() as int + 2].selects(b));
            }
        }
    }
    if exists|j: int| 0 <= j < t.len() && (#[trigger] t[j]).selects(b) {
        let j = choose|j: int| 0 <= j < t.len() && (#[trigger] t[j]).selects(b);
        if j < rs.len() {
            assert(rs[j].0 <= b <= rs[j].1);
        } else {
            assert(t[rs.len() + (j - rs.len())].selects(b));
            assert(ss[j - rs.len()] == b);
        }
    }
}

} // verus!
