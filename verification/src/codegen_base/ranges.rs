//! How the code generator splits a sorted escape table into at most three groups
//! at its two widest gaps, and the mask that those groups give.
use vstd::prelude::*;

use crate::codegen_base::switch::{in_ranges, in_singles, Switch};

verus! {

/// The escaped bytes are sorted, distinct, and ASCII.
pub open spec fn sorted_ascii(chs: Seq<u8>) -> bool {
    &&& forall|i: int, j: int| 0 <= i < j < chs.len() ==> chs[i] < chs[j]
    &&& forall|i: int| 0 <= i < chs.len() ==> #[trigger] chs[i] < 128
}

/// The distance between the bytes at `i` and `i + 1`.
pub open spec fn gap(chs: Seq<u8>, i: int) -> int {
    chs[i + 1] - chs[i]
}

/// Whether some byte value is missing between the bytes at `i` and `i + 1`.
pub open spec fn is_gap(chs: Seq<u8>, i: int) -> bool {
    0 <= i < chs.len() - 1 && gap(chs, i) > 1
}

/// The widest gap before index `k` other than `excl`, the earliest of equally
/// wide ones, or -1 when there is none.
pub open spec fn widest_gap(chs: Seq<u8>, k: int, excl: int) -> int
    decreases k,
{
    if k <= 0 {
        -1
    } else {
        let b = widest_gap(chs, k - 1, excl);
        let i = k - 1;
        if is_gap(chs, i) && i != excl && (b < 0 || gap(chs, i) > gap(chs, b)) {
            i
        } else {
            b
        }
    }
}

/// The widest gap of the table, or -1.
pub open spec fn first_cut(chs: Seq<u8>) -> int {
    widest_gap(chs, chs.len() - 1, -1)
}

/// The widest gap of the table besides the first cut, or -1.
pub open spec fn second_cut(chs: Seq<u8>) -> int {
    widest_gap(chs, chs.len() - 1, first_cut(chs))
}

/// The range that the group of indices `[s, t]` gives, if it has several bytes.
pub open spec fn part_range(chs: Seq<u8>, s: int, t: int) -> Seq<(int, int)> {
    if s < t {
        seq![(chs[s] as int, chs[t] as int)]
    } else {
        seq![]
    }
}

/// The single byte that the group of indices `[s, t]` gives, if it has one byte.
pub open spec fn part_single(chs: Seq<u8>, s: int, t: int) -> Seq<int> {
    if s == t {
        seq![chs[s] as int]
    } else {
        seq![]
    }
}

/// The ranges of the groups obtained by cutting the table at its (at most two)
/// widest gaps.
pub open spec fn group_ranges(chs: Seq<u8>) -> Seq<(int, int)> {
    let e = chs.len() - 1;
    let g1 = first_cut(chs);
    let g2 = second_cut(chs);
    if g1 < 0 {
        part_range(chs, 0, e)
    } else if g2 < 0 {
        part_range(chs, 0, g1) + part_range(chs, g1 + 1, e)
    } else {
        let f = if g1 < g2 {
            g1
        } else {
            g2
        };
        let l = if g1 < g2 {
            g2
        } else {
            g1
        };
        part_range(chs, 0, f) + part_range(chs, f + 1, l) + part_range(chs, l + 1, e)
    }
}

/// The single bytes of the groups obtained by cutting the table at its (at most
/// two) widest gaps.
pub open spec fn group_singles(chs: Seq<u8>) -> Seq<int> {
    let e = chs.len() - 1;
    let g1 = first_cut(chs);
    let g2 = second_cut(chs);
    if g1 < 0 {
        part_single(chs, 0, e)
    } else if g2 < 0 {
        part_single(chs, 0, g1) + part_single(chs, g1 + 1, e)
    } else {
        let f = if g1 < g2 {
            g1
        } else {
            g2
        };
        let l = if g1 < g2 {
            g2
        } else {
            g1
        };
        part_single(chs, 0, f) + part_single(chs, f + 1, l) + part_single(chs, l + 1, e)
    }
}

/// The mask with ranges `rs` and single bytes `ss`.
pub open spec fn make_switch(rs: Seq<(int, int)>, ss: Seq<int>) -> Switch {
    if rs.len() == 0 {
        if ss.len() == 1 {
            Switch::A { a: ss[0] as i8 }
        } else if ss.len() == 2 {
            Switch::AB { a: ss[0] as i8, b: ss[1] as i8 }
        } else {
            Switch::ABC { a: ss[0] as i8, b: ss[1] as i8, c: ss[2] as i8 }
        }
    } else if rs.len() == 1 {
        if ss.len() == 0 {
            Switch::Ar { la: rs[0].0 as i8, ra: rs[0].1 as i8 }
        } else if ss.len() == 1 {
            Switch::ArB { la: rs[0].0 as i8, ra: rs[0].1 as i8, b: ss[0] as i8 }
        } else {
            Switch::ArBC { la: rs[0].0 as i8, ra: rs[0].1 as i8, b: ss[0] as i8, c: ss[1] as i8 }
        }
    } else if rs.len() == 2 {
        if ss.len() == 0 {
            Switch::ArBr {
                la: rs[0].0 as i8,
                ra: rs[0].1 as i8,
                lb: rs[1].0 as i8,
                rb: rs[1].1 as i8,
            }
        } else {
            Switch::ArBrC {
                la: rs[0].0 as i8,
                ra: rs[0].1 as i8,
                lb: rs[1].0 as i8,
                rb: rs[1].1 as i8,
                c: ss[0] as i8,
            }
        }
    } else {
        Switch::ArBrCr {
            la: rs[0].0 as i8,
            ra: rs[0].1 as i8,
            lb: rs[1].0 as i8,
            rb: rs[1].1 as i8,
            lc: rs[2].0 as i8,
            rc: rs[2].1 as i8,
        }
    }
}

/// The mask of a sorted escape table: its groups' ranges, then their single bytes.
pub open spec fn classify(chs: Seq<u8>) -> Switch {
    make_switch(group_ranges(chs), group_singles(chs))
}

/// The widest gap found is a gap, before `k`, other than `excl`, no other such gap
/// is wider, and every such gap before it is narrower (of equally wide gaps, the
/// earliest is found); there is none only when there is no such gap.
pub proof fn lemma_widest_gap(chs: Seq<u8>, k: int, excl: int)
    ensures
        widest_gap(chs, k, excl) >= -1,
        widest_gap(chs, k, excl) >= 0 ==> {
            let r = widest_gap(chs, k, excl);
            &&& r < k
            &&& r != excl
            &&& is_gap(chs, r)
            &&& forall|i: int| 0 <= i < k && i != excl && is_gap(chs, i) ==> gap(chs, i) <= gap(chs, r)
            &&& forall|i: int| 0 <= i < r && i != excl && is_gap(chs, i) ==> gap(chs, i) < gap(chs, r)
        },
        widest_gap(chs, k, excl) < 0 ==> forall|i: int|
            0 <= i < k && i != excl ==> !is_gap(chs, i),
    decreases k,
{
    if k > 0 {
        lemma_widest_gap(chs, k - 1, excl);
    }
}

/// The cuts of a table are distinct gaps, the second present only with the first.
pub proof fn lemma_cuts(chs: Seq<u8>)
    requires
        chs.len() >= 1,
    ensures
        -1 <= first_cut(chs) < chs.len() - 1,
        -1 <= second_cut(chs) < chs.len() - 1,
        first_cut(chs) >= 0 ==> is_gap(chs, first_cut(chs)),
        second_cut(chs) >= 0 ==> is_gap(chs, second_cut(chs)) && second_cut(chs) != first_cut(chs),
        first_cut(chs) < 0 ==> second_cut(chs) < 0,
        first_cut(chs) < 0 ==> forall|i: int| !is_gap(chs, i),
        second_cut(chs) < 0 ==> forall|i: int| is_gap(chs, i) ==> i == first_cut(chs),
{
    let e = chs.len() - 1;
    lemma_widest_gap(chs, e, -1);
    lemma_widest_gap(chs, e, first_cut(chs));
}

/// The cuts are the widest gaps, the earliest of equally wide ones: no other gap
/// is wider than the first cut and none before it is as wide; none but the first
/// cut is wider than the second, and none before it but the first cut is as wide.
pub proof fn lemma_cuts_widest(chs: Seq<u8>, i: int)
    requires
        chs.len() >= 1,
        is_gap(chs, i),
    ensures
        first_cut(chs) >= 0 && gap(chs, i) <= gap(chs, first_cut(chs)),
        i < first_cut(chs) ==> gap(chs, i) < gap(chs, first_cut(chs)),
        i != first_cut(chs) && second_cut(chs) >= 0 ==> gap(chs, i) <= gap(chs, second_cut(chs)),
        i != first_cut(chs) && i < second_cut(chs) ==> gap(chs, i) < gap(chs, second_cut(chs)),
{
    let e = chs.len() - 1;
    lemma_widest_gap(chs, e, -1);
    lemma_widest_gap(chs, e, first_cut(chs));
}

/// A mask built from at most three ranges and single bytes has exactly those
/// ranges and single bytes.
pub proof fn lemma_make_switch(rs: Seq<(int, int)>, ss: Seq<int>)
    requires
        1 <= rs.len() + ss.len() <= 3,
        forall|i: int| 0 <= i < rs.len() ==> 0 <= #[trigger] rs[i].0 <= 127 && 0 <= rs[i].1 <= 127,
        forall|i: int| 0 <= i < ss.len() ==> 0 <= #[trigger] ss[i] <= 127,
    ensures
        make_switch(rs, ss).ranges() == rs,
        make_switch(rs, ss).singles() == ss,
{
    if rs.len() > 0 {
        assert(0 <= rs[0].0 <= 127);
    }
    if rs.len() > 1 {
        assert(0 <= rs[1].0 <= 127);
    }
    if rs.len() > 2 {
        assert(0 <= rs[2].0 <= 127);
    }
    if ss.len() > 0 {
        assert(0 <= ss[0] <= 127);
    }
    if ss.len() > 1 {
        assert(0 <= ss[1] <= 127);
    }
    if ss.len() > 2 {
        assert(0 <= ss[2] <= 127);
    }
    let sw = make_switch(rs, ss);
    assert(sw.ranges() =~= rs);
    assert(sw.singles() =~= ss);
}

/// The group `[s, t]` gives one range or one single byte.
pub proof fn lemma_part(chs: Seq<u8>, s: int, t: int)
    requires
        sorted_ascii(chs),
        0 <= s <= t < chs.len(),
    ensures
        part_range(chs, s, t).len() + part_single(chs, s, t).len() == 1,
        part_range(chs, s, t).len() == 1 ==> 0 <= part_range(chs, s, t)[0].0 < part_range(
            chs,
            s,
            t,
        )[0].1 <= 127,
        part_single(chs, s, t).len() == 1 ==> 0 <= part_single(chs, s, t)[0] <= 127,
{
    assert(chs[s] < 128 && chs[t] < 128);
}

/// The groups of a sorted table, and the mask's ranges and single bytes.
pub proof fn lemma_groups(chs: Seq<u8>)
    requires
        sorted_ascii(chs),
        chs.len() >= 1,
    ensures
        1 <= group_ranges(chs).len() + group_singles(chs).len() <= 3,
        forall|i: int|
            0 <= i < group_ranges(chs).len() ==> 0 <= #[trigger] group_ranges(chs)[i].0 < group_ranges(
                chs,
            )[i].1 <= 127,
        forall|i: int| 0 <= i < group_singles(chs).len() ==> 0 <= #[trigger] group_singles(chs)[i] <= 127,
        classify(chs).ranges() == group_ranges(chs),
        classify(chs).singles() == group_singles(chs),
        classify(chs).wf(),
{
    lemma_cuts(chs);
    let e = chs.len() - 1;
    let g1 = first_cut(chs);
    let g2 = second_cut(chs);
    let rs = group_ranges(chs);
    let ss = group_singles(chs);
    if g1 < 0 {
        lemma_part(chs, 0, e);
    } else if g2 < 0 {
        lemma_part(chs, 0, g1);
        lemma_part(chs, g1 + 1, e);
    } else {
        let f = if g1 < g2 {
            g1
        } else {
            g2
        };
        let l = if g1 < g2 {
            g2
        } else {
            g1
        };
        lemma_part(chs, 0, f);
        lemma_part(chs, f + 1, l);
        lemma_part(chs, l + 1, e);
    }
    assert forall|i: int| 0 <= i < rs.len() implies 0 <= #[trigger] rs[i].0 < rs[i].1 <= 127 by {}
    assert forall|i: int| 0 <= i < ss.len() implies 0 <= #[trigger] ss[i] <= 127 by {}
    lemma_make_switch(rs, ss);
}

/// Each byte of a group lies in the group's range or is its single byte.
pub proof fn lemma_part_covers(chs: Seq<u8>, s: int, t: int, k: int)
    requires
        sorted_ascii(chs),
        0 <= s <= k <= t < chs.len(),
    ensures
        in_ranges(part_range(chs, s, t), chs[k] as int) || in_singles(
            part_single(chs, s, t),
            chs[k] as int,
        ),
{
    if s < k {
        assert(chs[s] < chs[k]);
    }
    if k < t {
        assert(chs[k] < chs[t]);
    }
}

/// Membership in the ranges of at most three parts of at most one range each.
pub proof fn lemma_in_ranges_parts(
    a: Seq<(int, int)>,
    b: Seq<(int, int)>,
    c: Seq<(int, int)>,
    x: int,
)
    requires
        a.len() <= 1,
        b.len() <= 1,
        c.len() <= 1,
    ensures
        in_ranges(a + b + c, x) == (in_ranges(a, x) || in_ranges(b, x) || in_ranges(c, x)),
        in_ranges(a + b, x) == (in_ranges(a, x) || in_ranges(b, x)),
{
}

/// Membership in the single bytes of at most three parts of at most one byte each.
pub proof fn lemma_in_singles_parts(a: Seq<int>, b: Seq<int>, c: Seq<int>, x: int)
    requires
        a.len() <= 1,
        b.len() <= 1,
        c.len() <= 1,
    ensures
        in_singles(a + b + c, x) == (in_singles(a, x) || in_singles(b, x) || in_singles(c, x)),
        in_singles(a + b, x) == (in_singles(a, x) || in_singles(b, x)),
{
}

/// Whether the mask built for `chs` selects byte value `x`: `x` lies in the range
/// or is the single byte of one of the table's groups.
pub open spec fn covered(chs: Seq<u8>, x: int) -> bool {
    let e = chs.len() - 1;
    let g1 = first_cut(chs);
    let g2 = second_cut(chs);
    let f = if g1 < g2 {
        g1
    } else {
        g2
    };
    let l = if g1 < g2 {
        g2
    } else {
        g1
    };
    let group = |s: int, t: int|
        in_ranges(part_range(chs, s, t), x) || in_singles(part_single(chs, s, t), x);
    if g1 < 0 {
        group(0, e)
    } else if g2 < 0 {
        group(0, g1) || group(g1 + 1, e)
    } else {
        group(0, f) || group(f + 1, l) || group(l + 1, e)
    }
}

/// The mask of a sorted table selects exactly what its groups cover.
pub proof fn lemma_classify_contains(chs: Seq<u8>, x: int)
    requires
        sorted_ascii(chs),
        chs.len() >= 1,
    ensures
        classify(chs).contains(x) == covered(chs, x),
{
    lemma_groups(chs);
    lemma_cuts(chs);
    let e = chs.len() - 1;
    let g1 = first_cut(chs);
    let g2 = second_cut(chs);
    let f = if g1 < g2 {
        g1
    } else {
        g2
    };
    let l = if g1 < g2 {
        g2
    } else {
        g1
    };
    if g1 < 0 {
        lemma_part(chs, 0, e);
    } else if g2 < 0 {
        lemma_part(chs, 0, g1);
        lemma_part(chs, g1 + 1, e);
        lemma_in_ranges_parts(part_range(chs, 0, g1), part_range(chs, g1 + 1, e), seq![], x);
        lemma_in_singles_parts(part_single(chs, 0, g1), part_single(chs, g1 + 1, e), seq![], x);
    } else {
        lemma_part(chs, 0, f);
        lemma_part(chs, f + 1, l);
        lemma_part(chs, l + 1, e);
        lemma_in_ranges_parts(
            part_range(chs, 0, f),
            part_range(chs, f + 1, l),
            part_range(chs, l + 1, e),
            x,
        );
        lemma_in_singles_parts(
            part_single(chs, 0, f),
            part_single(chs, f + 1, l),
            part_single(chs, l + 1, e),
            x,
        );
    }
}

/// Law: the mask that the code generator builds for a sorted escape table selects
/// every escaped byte.
pub proof fn lemma_classify_covers(chs: Seq<u8>, k: int)
    requires
        sorted_ascii(chs),
        chs.len() >= 1,
        0 <= k < chs.len(),
    ensures
        classify(chs).contains(chs[k] as int),
{
    lemma_classify_contains(chs, chs[k] as int);
    lemma_cuts(chs);
    let e = chs.len() - 1;
    let g1 = first_cut(chs);
    let g2 = second_cut(chs);
    let f = if g1 < g2 {
        g1
    } else {
        g2
    };
    let l = if g1 < g2 {
        g2
    } else {
        g1
    };
    if g1 < 0 {
        lemma_part_covers(chs, 0, e, k);
    } else if g2 < 0 {
        if k <= g1 {
            lemma_part_covers(chs, 0, g1, k);
        } else {
            lemma_part_covers(chs, g1 + 1, e, k);
        }
    } else {
        if k <= f {
            lemma_part_covers(chs, 0, f, k);
        } else if k <= l {
            lemma_part_covers(chs, f + 1, l, k);
        } else {
            lemma_part_covers(chs, l + 1, e, k);
        }
    }
}

/// Bytes of a group without gaps follow each other.
pub proof fn lemma_consecutive(chs: Seq<u8>, s: int, t: int, j: int)
    requires
        sorted_ascii(chs),
        0 <= s <= t < chs.len(),
        forall|i: int| s <= i < t ==> !is_gap(chs, i),
        0 <= j <= t - s,
    ensures
        chs[s + j] == chs[s] + j,
    decreases j,
{
    if j > 0 {
        lemma_consecutive(chs, s, t, j - 1);
        assert(!is_gap(chs, s + j - 1));
        assert(chs[s + j - 1] < chs[s + j]);
    }
}

/// A byte value in the range of a group without gaps is one of the group's bytes.
pub proof fn lemma_part_exact(chs: Seq<u8>, s: int, t: int, x: int)
    requires
        sorted_ascii(chs),
        0 <= s <= t < chs.len(),
        forall|i: int| s <= i < t ==> !is_gap(chs, i),
        in_ranges(part_range(chs, s, t), x) || in_singles(part_single(chs, s, t), x),
    ensures
        exists|k: int| s <= k <= t && chs[k] == x,
{
    if s < t {
        lemma_consecutive(chs, s, t, t - s);
        let j = x - chs[s];
        lemma_consecutive(chs, s, t, j);
        assert(chs[s + j] == x);
    } else {
        assert(chs[s] == x);
    }
}

/// Law: when the table has no gaps besides its cuts, its mask selects exactly the
/// escaped bytes.
pub proof fn lemma_classify_exact(chs: Seq<u8>, x: int)
    requires
        sorted_ascii(chs),
        chs.len() >= 1,
        forall|i: int| is_gap(chs, i) ==> i == first_cut(chs) || i == second_cut(chs),
    ensures
        classify(chs).contains(x) <==> exists|k: int| 0 <= k < chs.len() && chs[k] == x,
{
    lemma_classify_contains(chs, x);
    lemma_cuts(chs);
    if exists|k: int| 0 <= k < chs.len() && chs[k] == x {
        let k = choose|k: int| 0 <= k < chs.len() && chs[k] == x;
        lemma_classify_covers(chs, k);
    }
    if classify(chs).contains(x) {
        let e = chs.len() - 1;
        let g1 = first_cut(chs);
        let g2 = second_cut(chs);
        let f = if g1 < g2 {
            g1
        } else {
            g2
        };
        let l = if g1 < g2 {
            g2
        } else {
            g1
        };
        if g1 < 0 {
            lemma_part_exact(chs, 0, e, x);
        } else if g2 < 0 {
            if in_ranges(part_range(chs, 0, g1), x) || in_singles(part_single(chs, 0, g1), x) {
                lemma_part_exact(chs, 0, g1, x);
            } else {
                lemma_part_exact(chs, g1 + 1, e, x);
            }
        } else {
            if in_ranges(part_range(chs, 0, f), x) || in_singles(part_single(chs, 0, f), x) {
                lemma_part_exact(chs, 0, f, x);
            } else if in_ranges(part_range(chs, f + 1, l), x) || in_singles(
                part_single(chs, f + 1, l),
                x,
            ) {
                lemma_part_exact(chs, f + 1, l, x);
            } else {
                lemma_part_exact(chs, l + 1, e, x);
            }
        }
    }
}

/// Law: a mask classified as exact only arises from a table with no gaps besides
/// its cuts, so it selects exactly the escaped bytes.
pub proof fn lemma_exact_bodies(chs: Seq<u8>, x: int)
    requires
        sorted_ascii(chs),
        chs.len() >= 1,
        classify(chs).spec_bodies() == crate::codegen_base::switch::Bodies::Exact,
    ensures
        classify(chs).contains(x) <==> exists|k: int| 0 <= k < chs.len() && chs[k] == x,
{
    lemma_cuts(chs);
    lemma_groups(chs);
    let e = chs.len() - 1;
    let g1 = first_cut(chs);
    let g2 = second_cut(chs);
    if g2 >= 0 {
        let f = if g1 < g2 {
            g1
        } else {
            g2
        };
        let l = if g1 < g2 {
            g2
        } else {
            g1
        };
        lemma_part(chs, 0, f);
        lemma_part(chs, f + 1, l);
        lemma_part(chs, l + 1, e);
        assert(group_ranges(chs).len() == 0);
        assert(f == 0 && l == 1 && e == 2);
    }
    lemma_classify_exact(chs, x);
}

} // verus!
