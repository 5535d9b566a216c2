//! The algebra of ranges (intersection, merge, union, difference) and the
//! conversion between character positions and line/column pairs.

use crate::models::{
    Function, MirBasicBlock, MirDecl, MirStatement, MirTerminator, lemma_range_bounds, lemma_range_inv, lemma_without_cr_prefix, lemma_without_cr_push, without_cr,
    Loc, Range,
};
use vstd::prelude::*;

verus! {

broadcast use {lemma_range_inv, lemma_range_bounds};

/// Some range of `s` holds position `x`.
pub open spec fn covers(s: Seq<Range>, x: int) -> bool {
    exists|k: int| 0 <= k < s.len() && (#[trigger] s[k]).has(x)
}

/// The two ranges overlap or touch, so that their union is one range.
pub open spec fn mergeable(a: Range, b: Range) -> bool {
    &&& a.lo() < a.hi()
    &&& b.lo() < b.hi()
    &&& a.lo() <= b.hi()
    &&& b.lo() <= a.hi()
}

/// No two ranges of `s` overlap or touch.
pub open spec fn separated(s: Seq<Range>) -> bool {
    forall|i: int, j: int|
        0 <= i < s.len() && 0 <= j < s.len() && i != j ==> !mergeable(#[trigger] s[i], #[trigger] s[j])
}

/// The two ranges share a position.
pub open spec fn overlaps(a: Range, b: Range) -> bool {
    max(a.lo(), b.lo()) < min(a.hi(), b.hi())
}

pub open spec fn max(a: int, b: int) -> int {
    if a >= b {
        a
    } else {
        b
    }
}

pub open spec fn min(a: int, b: int) -> int {
    if a <= b {
        a
    } else {
        b
    }
}

/// `r2` lies within `r1` and is strictly smaller.
pub open spec fn strictly_contains(r1: Range, r2: Range) -> bool {
    (r1.lo() < r2.lo() && r2.hi() <= r1.hi()) || (r1.lo() <= r2.lo() && r2.hi() < r1.hi())
}

/// Whether `r2` lies within `r1` and is strictly smaller.
pub fn is_super_range(r1: Range, r2: Range) -> (b: bool)
    ensures
        b == strictly_contains(r1, r2),
{
    (r1.from().0 < r2.from().0 && r2.until().0 <= r1.until().0) || (r1.from().0 <= r2.from().0
        && r2.until().0 < r1.until().0)
}

/// The positions that both ranges hold, or `None` where they share none.
pub fn common_range(r1: Range, r2: Range) -> (r: Option<Range>)
    ensures
        r is Some <==> overlaps(r1, r2),
        r matches Some(c) ==> c.lo() == max(r1.lo(), r2.lo()) && c.hi() == min(r1.hi(), r2.hi()),
    decreases
            if r2.lo() < r1.lo() {
                1int
            } else {
                0int
            },
{
    if r2.from().0 < r1.from().0 {
        return common_range(r2, r1);
    }
    if r1.until().0 < r2.from().0 {
        return None;
    }
    let from = r2.from();
    let until = if r1.until().0 <= r2.until().0 {
        r1.until()
    } else {
        r2.until()
    };
    Range::new(from, until)
}

/// The smallest range holding both, where they overlap or touch; `None`
/// otherwise.
pub fn merge_ranges(r1: Range, r2: Range) -> (r: Option<Range>)
    ensures
        r is Some <==> mergeable(r1, r2),
        r matches Some(m) ==> m.lo() == min(r1.lo(), r2.lo()) && m.hi() == max(r1.hi(), r2.hi()),
{
    if common_range(r1, r2).is_some() || r1.until() == r2.from() || r2.until() == r1.from() {
        let from = if r1.from().0 <= r2.from().0 {
            r1.from()
        } else {
            r2.from()
        };
        let until = if r1.until().0 >= r2.until().0 {
            r1.until()
        } else {
            r2.until()
        };
        Range::new(from, until)
    } else {
        None
    }
}

/// A range that overlaps or touches the union of two mergeable ranges
/// overlaps or touches one of them.
proof fn lemma_mergeable_hull(a: Range, b: Range, c: Range, m: Range)
    requires
        mergeable(b, c),
        m.lo() == min(b.lo(), c.lo()),
        m.hi() == max(b.hi(), c.hi()),
        mergeable(a, m),
    ensures
        mergeable(a, b) || mergeable(a, c),
{
}

/// The first and the first-after position of each range, in order.
pub open spec fn range_bounds(s: Seq<Range>) -> Seq<(int, int)> {
    s.map_values(|r: Range| (r.lo(), r.hi()))
}

/// Two bound pairs that overlap or touch.
pub open spec fn touch(a: (int, int), b: (int, int)) -> bool {
    a.0 <= b.1 && b.0 <= a.1
}

/// The first index from `j` on, other than `i`, whose pair touches the pair
/// at `i`.
pub open spec fn first_touching(s: Seq<(int, int)>, i: int, j: int) -> Option<int>
    decreases s.len() - j,
{
    if j < 0 || j >= s.len() {
        None
    } else if j != i && touch(s[i], s[j]) {
        Some(j)
    } else {
        first_touching(s, i, j + 1)
    }
}

/// The index that `first_touching` finds is one whose pair touches.
pub proof fn lemma_first_touching_in(s: Seq<(int, int)>, i: int, j: int)
    ensures
        first_touching(s, i, j) matches Some(k) ==> j <= k < s.len() && k != i && touch(s[i], s[k]),
    decreases s.len() - j,
{
    if 0 <= j < s.len() && !(j != i && touch(s[i], s[j])) {
        lemma_first_touching_in(s, i, j + 1);
    }
}

/// The merging pass over the bound pairs from index `i` on: the pair at `i`
/// takes in the first other pair that it touches, which leaves the list,
/// until it touches none; then the pass goes on with the next index.
pub open spec fn merge_pass(s: Seq<(int, int)>, i: nat) -> Seq<(int, int)>
    decreases 2 * s.len() - i,
{
    if i >= s.len() {
        s
    } else {
        match first_touching(s, i as int, 0) {
            None => merge_pass(s, i + 1),
            Some(j) => {
                proof {
                    lemma_first_touching_in(s, i as int, 0);
                }
                merge_pass(
                    s.update(
                        i as int,
                        (min(s[i as int].0, s[j].0), max(s[i as int].1, s[j].1)),
                    ).remove(j),
                    i,
                )
            },
        }
    }
}

/// Merges the ranges that overlap or touch until none do; the positions
/// covered stay the same.
pub fn eliminated_ranges(ranges: Vec<Range>) -> (r: Vec<Range>)
    ensures
        forall|x: int| covers(r@, x) <==> covers(ranges@, x),
        separated(r@),
        r@.len() <= ranges@.len(),
        separated(ranges@) ==> r@ == ranges@,
        range_bounds(r@) == merge_pass(range_bounds(ranges@), 0),
{
    let ghost orig = ranges@;
    let mut ranges = ranges;
    let mut i: usize = 0;
    while i < ranges.len()
        invariant
            separated(orig) ==> ranges@ == orig,
            merge_pass(range_bounds(ranges@), i as nat) == merge_pass(range_bounds(orig), 0),
            i <= ranges@.len() <= orig.len(),
            forall|x: int| covers(ranges@, x) <==> covers(orig, x),
            forall|p: int, q: int|
                0 <= p < i && 0 <= q < ranges@.len() && p != q ==> !mergeable(
                    #[trigger] ranges@[p],
                    #[trigger] ranges@[q],
                ),
        decreases 2 * ranges@.len() - i,
    {
        let ri = ranges[i];
        proof {
            use_type_invariant(&ri);
        }
        let ghost b = range_bounds(ranges@);
        let mut j: usize = 0;
        let mut merged: Option<Range> = None;
        while merged.is_none() && j < ranges.len()
            invariant
                i < ranges@.len(),
                j <= ranges@.len(),
                ri == ranges@[i as int],
                ri.lo() < ri.hi(),
                b == range_bounds(ranges@),
                merged is None ==> first_touching(b, i as int, 0) == first_touching(b, i as int, j as int),
                merged is Some ==> first_touching(b, i as int, 0) == Some(j as int),
                merged matches Some(m) ==> j < ranges@.len() && j != i && mergeable(ri, ranges@[j as int])
                    && m.lo() == min(ri.lo(), ranges@[j as int].lo()) && m.hi() == max(
                    ri.hi(),
                    ranges@[j as int].hi(),
                ),
                merged is None ==> forall|q: int|
                    0 <= q < j && q != i ==> !mergeable(ri, #[trigger] ranges@[q]),
            decreases ranges@.len() - j + (if merged is None { 1int } else { 0int }),
        {
            if i != j {
                let rj = ranges[j];
                proof {
                    use_type_invariant(&rj);
                }
                let m = merge_ranges(ri, rj);
                if m.is_some() {
                    merged = m;
                } else {
                    j = j + 1;
                }
            } else {
                j = j + 1;
            }
        }
        match merged {
            Some(m) => {
                let ghost old_r = ranges@;
                let rj = ranges[j];
                proof {
                    if separated(orig) {
                        assert(!mergeable(old_r[i as int], old_r[j as int]));
                    }
                    if (j as int) < (i as int) {
                        assert(!mergeable(old_r[j as int], old_r[i as int]));
                    }
                }
                ranges.set(i, m);
                ranges.remove(j);
                proof {
                    let new_r = ranges@;
                    assert(new_r =~= old_r.update(i as int, m).remove(j as int));
                    assert(range_bounds(new_r) =~= b.update(
                        i as int,
                        (min(b[i as int].0, b[j as int].0), max(b[i as int].1, b[j as int].1)),
                    ).remove(j as int));
                    assert forall|x: int| covers(new_r, x) <==> covers(old_r, x) by {
                        if covers(new_r, x) {
                            let k = choose|k: int| 0 <= k < new_r.len() && new_r[k].has(x);
                            if k == i {
                                if ri.has(x) {
                                    assert(old_r[i as int].has(x));
                                } else {
                                    assert(old_r[j as int].has(x));
                                }
                            } else if k < j {
                                assert(old_r[k].has(x));
                            } else {
                                assert(old_r[k + 1].has(x));
                            }
                        }
                        if covers(old_r, x) {
                            let k = choose|k: int| 0 <= k < old_r.len() && old_r[k].has(x);
                            if k == i || k == j {
                                assert(new_r[i as int].has(x));
                            } else if k < j {
                                assert(new_r[k].has(x));
                            } else {
                                assert(new_r[k - 1].has(x));
                            }
                        }
                    }
                    assert forall|p: int, q: int|
                        0 <= p < i && 0 <= q < new_r.len() && p != q implies !mergeable(
                        #[trigger] new_r[p],
                        #[trigger] new_r[q],
                    ) by {
                        assert(new_r[p] == old_r[p]);
                        if q == i {
                            if mergeable(new_r[p], m) {
                                lemma_mergeable_hull(old_r[p], ri, rj, m);
                            }
                        } else if q < j {
                            assert(new_r[q] == old_r[q]);
                        } else {
                            assert(new_r[q] == old_r[q + 1]);
                        }
                    }
                }
            },
            None => {
                proof {
                    assert forall|p: int, q: int|
                        0 <= p < i + 1 && 0 <= q < ranges@.len() && p != q implies !mergeable(
                        #[trigger] ranges@[p],
                        #[trigger] ranges@[q],
                    ) by {
                        if p == i {
                        } else if q == i {
                            assert(!mergeable(ranges@[q], ranges@[p]));
                        }
                    }
                    assert(first_touching(b, i as int, j as int) is None);
                }
                i = i + 1;
            },
        }
    }
    ranges
}

/// Position `x` lies in two different ranges of `s`.
pub open spec fn covered_twice(s: Seq<Range>, x: int) -> bool {
    exists|i: int, j: int| 0 <= i < j < s.len() && (#[trigger] s[i]).has(x) && (#[trigger] s[j]).has(x)
}

/// The common pairs of `a` with each pair of `b` that it overlaps, in the
/// order of `b`.
pub open spec fn commons_with(a: (int, int), b: Seq<(int, int)>) -> Seq<(int, int)>
    decreases b.len(),
{
    if b.len() == 0 {
        Seq::empty()
    } else {
        let rest = commons_with(a, b.drop_last());
        let c = b.last();
        if max(a.0, c.0) < min(a.1, c.1) {
            rest.push((max(a.0, c.0), min(a.1, c.1)))
        } else {
            rest
        }
    }
}

/// For each of the first `n` pairs in turn, its common pairs with the pairs
/// after it.
pub open spec fn later_commons(s: Seq<(int, int)>, n: nat) -> Seq<(int, int)>
    decreases n,
{
    if n == 0 {
        Seq::empty()
    } else {
        later_commons(s, (n - 1) as nat) + commons_with(s[n - 1], s.subrange(n as int, s.len() as int))
    }
}

/// For each pair of `a` in turn, its common pairs with those of `b`.
pub open spec fn all_commons(a: Seq<(int, int)>, b: Seq<(int, int)>) -> Seq<(int, int)>
    decreases a.len(),
{
    if a.len() == 0 {
        Seq::empty()
    } else {
        all_commons(a.drop_last(), b) + commons_with(a.last(), b)
    }
}

/// The positions that lie in at least two of the ranges, as separated ranges.
pub fn common_ranges(ranges: &[Range]) -> (r: Vec<Range>)
    ensures
        forall|x: int| covers(r@, x) <==> covered_twice(ranges@, x),
        separated(r@),
        range_bounds(r@) == merge_pass(later_commons(range_bounds(ranges@), ranges@.len()), 0),
{
    let ghost sb = range_bounds(ranges@);
    let mut common: Vec<Range> = Vec::new();
    let n = ranges.len();
    let mut i: usize = 0;
    proof {
        assert(range_bounds(common@) =~= later_commons(sb, 0));
    }
    while i < n
        invariant
            n == ranges@.len(),
            i <= n,
            sb == range_bounds(ranges@),
            range_bounds(common@) == later_commons(sb, i as nat),
            forall|x: int|
                covers(common@, x) <==> exists|a: int, b: int|
                    0 <= a < b < n && a < i && (#[trigger] ranges@[a]).has(x) && (
                    #[trigger] ranges@[b]).has(x),
        decreases n - i,
    {
        let mut j: usize = i + 1;
        proof {
            assert(sb.subrange(i + 1, i + 1) =~= Seq::<(int, int)>::empty());
            assert(later_commons(sb, i as nat) + Seq::<(int, int)>::empty() =~= later_commons(sb, i as nat));
        }
        while j < n
            invariant
                n == ranges@.len(),
                i < n,
                i + 1 <= j <= n,
                sb == range_bounds(ranges@),
                range_bounds(common@) == later_commons(sb, i as nat) + commons_with(
                    sb[i as int],
                    sb.subrange(i + 1, j as int),
                ),
                forall|x: int|
                    covers(common@, x) <==> exists|a: int, b: int|
                        0 <= a < b < n && (a < i || (a == i && b < j)) && (#[trigger] ranges@[a]).has(
                            x,
                        ) && (#[trigger] ranges@[b]).has(x),
            decreases n - j,
        {
            let ghost old_c = common@;
            let c = common_range(ranges[i], ranges[j]);
            if let Some(cr) = c {
                common.push(cr);
            }
            proof {
                assert(sb.subrange(i + 1, j + 1).drop_last() =~= sb.subrange(i + 1, j as int));
                if let Some(cr) = c {
                    assert(range_bounds(common@) =~= range_bounds(old_c).push((cr.lo(), cr.hi())));
                    assert(later_commons(sb, i as nat) + commons_with(
                        sb[i as int],
                        sb.subrange(i + 1, j as int),
                    ).push((cr.lo(), cr.hi())) =~= (later_commons(sb, i as nat) + commons_with(
                        sb[i as int],
                        sb.subrange(i + 1, j as int),
                    )).push((cr.lo(), cr.hi())));
                } else {
                    assert(range_bounds(common@) =~= range_bounds(old_c));
                }
                assert forall|x: int|
                    covers(common@, x) <==> exists|a: int, b: int|
                        0 <= a < b < n && (a < i || (a == i && b < j + 1)) && (
                        #[trigger] ranges@[a]).has(x) && (#[trigger] ranges@[b]).has(x) by {
                    if covers(common@, x) {
                        let k = choose|k: int| 0 <= k < common@.len() && common@[k].has(x);
                        if k < old_c.len() {
                            assert(old_c[k].has(x));
                            assert(covers(old_c, x));
                        } else {
                            assert(ranges@[i as int].has(x) && ranges@[j as int].has(x));
                        }
                    }
                    if exists|a: int, b: int|
                        0 <= a < b < n && (a < i || (a == i && b < j + 1)) && (
                        #[trigger] ranges@[a]).has(x) && (#[trigger] ranges@[b]).has(x) {
                        let (a, b) = choose|a: int, b: int|
                            0 <= a < b < n && (a < i || (a == i && b < j + 1)) && (
                            #[trigger] ranges@[a]).has(x) && (#[trigger] ranges@[b]).has(x);
                        if a == i && b == j {
                            let cr = c->0;
                            assert(common@[common@.len() - 1] == cr);
                            assert(common@[common@.len() - 1].has(x));
                        } else {
                            assert(covers(old_c, x));
                            let k = choose|k: int| 0 <= k < old_c.len() && old_c[k].has(x);
                            assert(common@[k] == old_c[k]);
                        }
                    }
                }
            }
            j = j + 1;
        }
        proof {
            assert(sb.subrange(i + 1, n as int) =~= sb.subrange((i + 1) as int, sb.len() as int));
        }
        i = i + 1;
    }
    eliminated_ranges(common)
}

/// The positions that both lists cover, as separated ranges.
pub fn intersect_ranges(ranges1: Vec<Range>, ranges2: Vec<Range>) -> (r: Vec<Range>)
    ensures
        forall|x: int| covers(r@, x) <==> covers(ranges1@, x) && covers(ranges2@, x),
        separated(r@),
        range_bounds(r@) == merge_pass(all_commons(range_bounds(ranges1@), range_bounds(ranges2@)), 0),
{
    let ghost ab = range_bounds(ranges1@);
    let ghost bb = range_bounds(ranges2@);
    let mut result: Vec<Range> = Vec::new();
    let n1 = ranges1.len();
    let n2 = ranges2.len();
    let mut i: usize = 0;
    proof {
        assert(range_bounds(result@) =~= all_commons(ab.take(0), bb));
    }
    while i < n1
        invariant
            n1 == ranges1@.len(),
            n2 == ranges2@.len(),
            i <= n1,
            ab == range_bounds(ranges1@),
            bb == range_bounds(ranges2@),
            range_bounds(result@) == all_commons(ab.take(i as int), bb),
            forall|x: int|
                covers(result@, x) <==> exists|a: int, b: int|
                    0 <= a < i && 0 <= b < n2 && (#[trigger] ranges1@[a]).has(x) && (
                    #[trigger] ranges2@[b]).has(x),
        decreases n1 - i,
    {
        let mut j: usize = 0;
        proof {
            assert(bb.take(0) =~= Seq::<(int, int)>::empty());
            assert(all_commons(ab.take(i as int), bb) + Seq::<(int, int)>::empty() =~= all_commons(
                ab.take(i as int),
                bb,
            ));
        }
        while j < n2
            invariant
                n1 == ranges1@.len(),
                n2 == ranges2@.len(),
                i < n1,
                j <= n2,
                ab == range_bounds(ranges1@),
                bb == range_bounds(ranges2@),
                range_bounds(result@) == all_commons(ab.take(i as int), bb) + commons_with(
                    ab[i as int],
                    bb.take(j as int),
                ),
                forall|x: int|
                    covers(result@, x) <==> exists|a: int, b: int|
                        0 <= a < n1 && 0 <= b < n2 && (a < i || (a == i && b < j)) && (
                        #[trigger] ranges1@[a]).has(x) && (#[trigger] ranges2@[b]).has(x),
            decreases n2 - j,
        {
            let ghost old_c = result@;
            let c = common_range(ranges1[i], ranges2[j]);
            if let Some(cr) = c {
                result.push(cr);
            }
            proof {
                assert(bb.take(j + 1).drop_last() =~= bb.take(j as int));
                if let Some(cr) = c {
                    assert(range_bounds(result@) =~= range_bounds(old_c).push((cr.lo(), cr.hi())));
                    assert(all_commons(ab.take(i as int), bb) + commons_with(
                        ab[i as int],
                        bb.take(j as int),
                    ).push((cr.lo(), cr.hi())) =~= (all_commons(ab.take(i as int), bb) + commons_with(
                        ab[i as int],
                        bb.take(j as int),
                    )).push((cr.lo(), cr.hi())));
                } else {
                    assert(range_bounds(result@) =~= range_bounds(old_c));
                }
                assert forall|x: int|
                    covers(result@, x) <==> exists|a: int, b: int|
                        0 <= a < n1 && 0 <= b < n2 && (a < i || (a == i && b < j + 1)) && (
                        #[trigger] ranges1@[a]).has(x) && (#[trigger] ranges2@[b]).has(x) by {
                    if covers(result@, x) {
                        let k = choose|k: int| 0 <= k < result@.len() && result@[k].has(x);
                        if k < old_c.len() {
                            assert(old_c[k].has(x));
                            assert(covers(old_c, x));
                        } else {
                            assert(ranges1@[i as int].has(x) && ranges2@[j as int].has(x));
                        }
                    }
                    if exists|a: int, b: int|
                        0 <= a < n1 && 0 <= b < n2 && (a < i || (a == i && b < j + 1)) && (
                        #[trigger] ranges1@[a]).has(x) && (#[trigger] ranges2@[b]).has(x) {
                        let (a, b) = choose|a: int, b: int|
                            0 <= a < n1 && 0 <= b < n2 && (a < i || (a == i && b < j + 1)) && (
                            #[trigger] ranges1@[a]).has(x) && (#[trigger] ranges2@[b]).has(x);
                        if a == i && b == j {
                            let cr = c->0;
                            assert(result@[result@.len() - 1] == cr);
                            assert(result@[result@.len() - 1].has(x));
                        } else {
                            assert(covers(old_c, x));
                            let k = choose|k: int| 0 <= k < old_c.len() && old_c[k].has(x);
                            assert(result@[k] == old_c[k]);
                        }
                    }
                }
            }
            j = j + 1;
        }
        proof {
            assert(bb.take(n2 as int) =~= bb);
            assert(ab.take(i + 1).drop_last() =~= ab.take(i as int));
        }
        i = i + 1;
    }
    proof {
        assert(ab.take(n1 as int) =~= ab);
        assert forall|x: int|
            covers(result@, x) <==> covers(ranges1@, x) && covers(ranges2@, x) by {
            if covers(ranges1@, x) && covers(ranges2@, x) {
                let a = choose|a: int| 0 <= a < n1 && ranges1@[a].has(x);
                let b = choose|b: int| 0 <= b < n2 && ranges2@[b].has(x);
                assert(ranges1@[a].has(x) && ranges2@[b].has(x));
            }
        }
    }
    eliminated_ranges(result)
}

/// The positions that either list covers, as separated ranges.
pub fn union_ranges(ranges1: Vec<Range>, ranges2: Vec<Range>) -> (r: Vec<Range>)
    ensures
        forall|x: int| covers(r@, x) <==> covers(ranges1@, x) || covers(ranges2@, x),
        separated(r@),
        range_bounds(r@) == merge_pass(range_bounds(ranges1@ + ranges2@), 0),
{
    let ghost a = ranges1@;
    let ghost b = ranges2@;
    let mut combined = ranges1;
    let mut tail = ranges2;
    combined.append(&mut tail);
    proof {
        assert(combined@ =~= a + b);
        assert forall|x: int| covers(combined@, x) <==> covers(a, x) || covers(b, x) by {
            if covers(combined@, x) {
                let k = choose|k: int| 0 <= k < combined@.len() && combined@[k].has(x);
                if k < a.len() {
                    assert(a[k].has(x));
                } else {
                    assert(b[k - a.len()].has(x));
                }
            }
            if covers(a, x) {
                let k = choose|k: int| 0 <= k < a.len() && a[k].has(x);
                assert(combined@[k].has(x));
            }
            if covers(b, x) {
                let k = choose|k: int| 0 <= k < b.len() && b[k].has(x);
                assert(combined@[k + a.len()].has(x));
            }
        }
    }
    eliminated_ranges(combined)
}

/// The two lists cover the same positions.
pub open spec fn same_cover(a: Seq<Range>, b: Seq<Range>) -> bool {
    forall|x: int| covers(a, x) <==> covers(b, x)
}

/// `r` covers exactly the positions that lie in two different ranges of `s`.
pub open spec fn twice_cover(r: Seq<Range>, s: Seq<Range>) -> bool {
    forall|x: int| covers(r, x) <==> covered_twice(s, x)
}

/// `r` covers exactly the positions that `from` covers and `excludes` does
/// not.
pub open spec fn exclusion_of(r: Seq<Range>, from: Seq<Range>, excludes: Seq<Range>) -> bool {
    forall|x: int| covers(r, x) <==> covers(from, x) && !covers(excludes, x)
}

/// The size of a range, zero for one without positions.
pub open spec fn range_len(r: Range) -> int {
    if r.hi() > r.lo() {
        r.hi() - r.lo()
    } else {
        0
    }
}

/// The sum of the sizes of the ranges of `s`.
pub open spec fn total_size(s: Seq<Range>) -> int
    decreases s.len(),
{
    if s.len() == 0 {
        0
    } else {
        total_size(s.drop_last()) + range_len(s.last())
    }
}

proof fn lemma_total_size_concat(a: Seq<Range>, b: Seq<Range>)
    ensures
        total_size(a + b) == total_size(a) + total_size(b),
        total_size(b) >= 0,
    decreases b.len(),
{
    if b.len() == 0 {
        assert(a + b =~= a);
    } else {
        lemma_total_size_concat(a, b.drop_last());
        assert((a + b).drop_last() =~= a + b.drop_last());
    }
}

/// The number of positions from the first bound up to the second, zero where
/// there are none.
pub open spec fn pair_size(p: (int, int)) -> int {
    if p.1 > p.0 {
        p.1 - p.0
    } else {
        0
    }
}

/// The sum of the sizes of the pairs of `s`.
pub open spec fn pairs_size(s: Seq<(int, int)>) -> int
    decreases s.len(),
{
    if s.len() == 0 {
        0
    } else {
        pairs_size(s.drop_last()) + pair_size(s.last())
    }
}

proof fn lemma_pairs_size_concat(a: Seq<(int, int)>, b: Seq<(int, int)>)
    ensures
        pairs_size(a + b) == pairs_size(a) + pairs_size(b),
        pairs_size(b) >= 0,
    decreases b.len(),
{
    if b.len() == 0 {
        assert(a + b =~= a);
    } else {
        lemma_pairs_size_concat(a, b.drop_last());
        assert((a + b).drop_last() =~= a + b.drop_last());
    }
}

/// The parts of `a` before and after `c`, where they hold positions.
pub open spec fn cut_pieces(a: (int, int), c: (int, int)) -> Seq<(int, int)> {
    (if a.0 < c.0 {
        seq![(a.0, c.0)]
    } else {
        Seq::empty()
    }) + (if c.1 < a.1 {
        seq![(c.1, a.1)]
    } else {
        Seq::empty()
    })
}

/// The first index from `j` on of a pair of `ex` that shares a position with
/// `a`.
pub open spec fn first_overlapping(a: (int, int), ex: Seq<(int, int)>, j: int) -> Option<int>
    decreases ex.len() - j,
{
    if j < 0 || j >= ex.len() {
        None
    } else if max(a.0, ex[j].0) < min(a.1, ex[j].1) {
        Some(j)
    } else {
        first_overlapping(a, ex, j + 1)
    }
}

/// The index that `first_overlapping` finds is one that shares a position.
pub proof fn lemma_first_overlapping_in(a: (int, int), ex: Seq<(int, int)>, j: int)
    ensures
        first_overlapping(a, ex, j) matches Some(k) ==> j <= k < ex.len() && max(a.0, ex[k].0) < min(
            a.1,
            ex[k].1,
        ),
    decreases ex.len() - j,
{
    if 0 <= j < ex.len() && !(max(a.0, ex[j].0) < min(a.1, ex[j].1)) {
        lemma_first_overlapping_in(a, ex, j + 1);
    }
}

/// Cutting a pair at `i` into its pieces leaves fewer positions from `i` on.
pub proof fn lemma_cut_step_smaller(s: Seq<(int, int)>, i: int, c: (int, int))
    requires
        0 <= i < s.len(),
        s[i].0 <= c.0 < c.1 <= s[i].1,
    ensures
        0 <= pairs_size((s + cut_pieces(s[i], c)).remove(i).skip(i)) < pairs_size(s.skip(i)),
{
    let pieces = cut_pieces(s[i], c);
    assert(s.skip(i) =~= seq![s[i]] + s.skip(i + 1));
    assert((s + pieces).remove(i).skip(i) =~= s.skip(i + 1) + pieces);
    lemma_pairs_size_concat(seq![s[i]], s.skip(i + 1));
    lemma_pairs_size_concat(s.skip(i + 1), pieces);
    assert(seq![s[i]].drop_last() =~= Seq::<(int, int)>::empty());
    reveal_with_fuel(pairs_size, 3);
    if pieces.len() == 2 {
        assert(pieces.drop_last().drop_last() =~= Seq::<(int, int)>::empty());
        assert(pieces.drop_last() =~= seq![pieces[0]]);
    } else if pieces.len() == 1 {
        assert(pieces.drop_last() =~= Seq::<(int, int)>::empty());
    } else {
        assert(pieces =~= Seq::<(int, int)>::empty());
    }
}

/// Passing over a pair leaves no more positions from the next index on.
pub proof fn lemma_pass_step_no_larger(s: Seq<(int, int)>, i: int)
    requires
        0 <= i < s.len(),
    ensures
        0 <= pairs_size(s.skip(i + 1)) <= pairs_size(s.skip(i)),
{
    assert(s.skip(i) =~= seq![s[i]] + s.skip(i + 1));
    lemma_pairs_size_concat(seq![s[i]], s.skip(i + 1));
    assert(seq![s[i]].drop_last() =~= Seq::<(int, int)>::empty());
    reveal_with_fuel(pairs_size, 2);
}

/// The cutting pass over the bound pairs of `s` from index `i` on: the pair
/// at `i`, where it shares positions with a pair of `ex`, leaves the list and
/// its pieces before and after the first such pair go to the end; otherwise
/// the pass goes on with the next index.
pub open spec fn cut_pass(s: Seq<(int, int)>, ex: Seq<(int, int)>, i: nat) -> Seq<(int, int)>
    decreases pairs_size(s.skip(i as int)), s.len() - i,
{
    if i >= s.len() {
        s
    } else {
        match first_overlapping(s[i as int], ex, 0) {
            None => {
                proof {
                    lemma_pass_step_no_larger(s, i as int);
                }
                cut_pass(s, ex, i + 1)
            },
            Some(e) => {
                let c = (max(s[i as int].0, ex[e].0), min(s[i as int].1, ex[e].1));
                proof {
                    lemma_first_overlapping_in(s[i as int], ex, 0);
                    lemma_cut_step_smaller(s, i as int, c);
                }
                cut_pass((s + cut_pieces(s[i as int], c)).remove(i as int), ex, i)
            },
        }
    }
}

/// The ranges of `from` with the positions of `excludes` cut out, merged:
/// a position is covered exactly where some range of `from` covers it and
/// no range of `excludes` does.
pub fn exclude_ranges(from: Vec<Range>, excludes: Vec<Range>) -> (r: Vec<Range>)
    ensures
        exclusion_of(r@, from@, excludes@),
        separated(r@),
        range_bounds(r@) == merge_pass(cut_pass(range_bounds(from@), range_bounds(excludes@), 0), 0),
{
    let ghost orig = from@;
    let ghost eb = range_bounds(excludes@);
    let mut from = from;
    let n = excludes.len();
    let mut i: usize = 0;
    while i < from.len()
        invariant
            n == excludes@.len(),
            i <= from@.len(),
            eb == range_bounds(excludes@),
            cut_pass(range_bounds(from@), eb, i as nat) == cut_pass(range_bounds(orig), eb, 0),
            forall|x: int| covers(from@, x) ==> covers(orig, x),
            forall|x: int| covers(orig, x) && !covers(excludes@, x) ==> covers(from@, x),
            forall|k: int, e: int|
                0 <= k < i && 0 <= e < n ==> !overlaps(#[trigger] from@[k], #[trigger] excludes@[e]),
        decreases total_size(from@.skip(i as int)),
    {
        let fi = from[i];
        let ghost fb = (fi.lo(), fi.hi());
        let mut j: usize = 0;
        let mut found: Option<(usize, Range)> = None;
        while found.is_none() && j < n
            invariant
                n == excludes@.len(),
                j <= n,
                eb == range_bounds(excludes@),
                fb == (fi.lo(), fi.hi()),
                found is None ==> first_overlapping(fb, eb, 0) == first_overlapping(fb, eb, j as int),
                found matches Some(p) ==> first_overlapping(fb, eb, 0) == Some(p.0 as int),
                found matches Some(p) ==> p.0 < n && overlaps(fi, excludes@[p.0 as int])
                    && p.1.lo() == max(fi.lo(), excludes@[p.0 as int].lo()) && p.1.hi() == min(
                    fi.hi(),
                    excludes@[p.0 as int].hi(),
                ),
                found is None ==> forall|e: int| 0 <= e < j ==> !overlaps(fi, #[trigger] excludes@[e]),
            decreases n - j + (if found is None { 1int } else { 0int }),
        {
            match common_range(fi, excludes[j]) {
                Some(common) => {
                    found = Some((j, common));
                },
                None => {
                    j = j + 1;
                },
            }
        }
        let ghost old_f = from@;
        match found {
            Some((e_idx, common)) => {
                let ghost e = excludes@[e_idx as int];
                let fi_from = fi.from();
                let fi_until = fi.until();
                let c_from = common.from();
                let c_until = common.until();
                let left = Range::new(fi_from, c_from);
                let right = Range::new(c_until, fi_until);
                let ghost mut pieces: Seq<Range> = Seq::empty();
                if let Some(r) = left {
                    from.push(r);
                    proof {
                        pieces = pieces.push(r);
                    }
                }
                if let Some(r) = right {
                    from.push(r);
                    proof {
                        pieces = pieces.push(r);
                    }
                }
                proof {
                    assert(from@ =~= old_f + pieces);
                }
                from.remove(i);
                proof {
                    let new_f = from@;
                    assert(new_f =~= (old_f + pieces).remove(i as int));
                    let c = (common.lo(), common.hi());
                    assert(range_bounds(pieces) =~= cut_pieces(fb, c));
                    assert(range_bounds(new_f) =~= (range_bounds(old_f) + cut_pieces(fb, c)).remove(
                        i as int,
                    ));
                    assert forall|k: int| 0 <= k < pieces.len() implies fi.lo() <= (#[trigger] pieces[k]).lo()
                        && pieces[k].hi() <= fi.hi() by {}
                    assert forall|x: int| covers(new_f, x) implies covers(orig, x) by {
                        let k = choose|k: int| 0 <= k < new_f.len() && new_f[k].has(x);
                        if k < i {
                            assert(old_f[k].has(x));
                        } else if k < old_f.len() - 1 {
                            assert(old_f[k + 1].has(x));
                        } else {
                            let pk = pieces[k - (old_f.len() - 1)];
                            assert(pk.has(x));
                            assert(old_f[i as int].has(x));
                        }
                    }
                    assert forall|x: int|
                        covers(orig, x) && !covers(excludes@, x) implies covers(new_f, x) by {
                        assert(covers(old_f, x));
                        let k = choose|k: int| 0 <= k < old_f.len() && old_f[k].has(x);
                        if k < i {
                            assert(new_f[k] == old_f[k]);
                        } else if k > i {
                            assert(new_f[k - 1] == old_f[k]);
                        } else {
                            assert(!excludes@[e_idx as int].has(x));
                            if x < c_from.0 {
                                let r = left->0;
                                assert(r.has(x));
                                assert(new_f[old_f.len() - 1] == r);
                            } else {
                                let r = right->0;
                                assert(r.has(x));
                                assert(new_f[new_f.len() - 1] == r);
                            }
                        }
                    }
                    assert forall|k: int, e2: int|
                        0 <= k < i && 0 <= e2 < n implies !overlaps(
                        #[trigger] new_f[k],
                        #[trigger] excludes@[e2],
                    ) by {
                        assert(new_f[k] == old_f[k]);
                    }
                    assert(old_f.skip(i as int) =~= seq![fi] + old_f.skip(i + 1));
                    assert(new_f.skip(i as int) =~= old_f.skip(i + 1) + pieces);
                    lemma_total_size_concat(seq![fi], old_f.skip(i + 1));
                    lemma_total_size_concat(old_f.skip(i + 1), pieces);
                    assert(seq![fi].drop_last() =~= Seq::<Range>::empty());
                    let lsz = match left {
                        Some(r) => r.hi() - r.lo(),
                        None => 0,
                    };
                    let rsz = match right {
                        Some(r) => r.hi() - r.lo(),
                        None => 0,
                    };
                    assert(lsz + rsz < fi.hi() - fi.lo());
                    reveal_with_fuel(total_size, 3);
                    if pieces.len() == 2 {
                        assert(pieces.drop_last().drop_last() =~= Seq::<Range>::empty());
                        assert(pieces.drop_last() =~= seq![pieces[0]]);
                    } else if pieces.len() == 1 {
                        assert(pieces.drop_last() =~= Seq::<Range>::empty());
                    }
                    assert(total_size(pieces) == lsz + rsz);
                    assert(total_size(seq![fi]) == fi.hi() - fi.lo());
                    assert(total_size(new_f.skip(i as int)) < total_size(old_f.skip(i as int)));
                }
            },
            None => {
                proof {
                    assert(old_f.skip(i as int) =~= seq![fi] + old_f.skip(i + 1));
                    lemma_total_size_concat(seq![fi], old_f.skip(i + 1));
                    assert(seq![fi].drop_last() =~= Seq::<Range>::empty());
                    use_type_invariant(&fi);
                    reveal_with_fuel(total_size, 2);
                    assert(total_size(seq![fi]) == fi.hi() - fi.lo());
                    assert(total_size(old_f.skip(i + 1)) < total_size(old_f.skip(i as int)));
                    assert(first_overlapping(fb, eb, j as int) is None);
                }
                i = i + 1;
            },
        }
    }
    proof {
        assert forall|x: int| covers(from@, x) implies !covers(excludes@, x) by {
            let k = choose|k: int| 0 <= k < from@.len() && from@[k].has(x);
            if covers(excludes@, x) {
                let e = choose|e: int| 0 <= e < n && excludes@[e].has(x);
                assert(!overlaps(from@[k], excludes@[e]));
            }
        }
    }
    eliminated_ranges(from)
}

/// The line and column at the end of text `p`: the number of line feeds in
/// it, and the number of characters after the last one.
pub open spec fn line_col(p: Seq<char>) -> (int, int)
    decreases p.len(),
{
    if p.len() == 0 {
        (0, 0)
    } else {
        let lc = line_col(p.drop_last());
        if p.last() == '\n' {
            (lc.0 + 1, 0)
        } else {
            (lc.0, lc.1 + 1)
        }
    }
}

pub proof fn lemma_line_col_bounds(p: Seq<char>)
    ensures
        0 <= line_col(p).0 <= p.len(),
        0 <= line_col(p).1 <= p.len(),
    decreases p.len(),
{
    if p.len() > 0 {
        lemma_line_col_bounds(p.drop_last());
    }
}

/// Going further into a text never lowers the line; on the same line the
/// column grows by the characters passed.
pub proof fn lemma_line_col_monotone(t: Seq<char>, a: int, j: int)
    requires
        0 <= a <= j <= t.len(),
    ensures
        line_col(t.take(j)).0 >= line_col(t.take(a)).0,
        line_col(t.take(j)).0 == line_col(t.take(a)).0 ==> line_col(t.take(j)).1 == line_col(
            t.take(a),
        ).1 + (j - a),
    decreases j - a,
{
    if a < j {
        lemma_line_col_monotone(t, a, j - 1);
        assert(t.take(j).drop_last() =~= t.take(j - 1));
    }
}

/// Text `t` has line `line` starting at position `a`.
pub open spec fn line_start(t: Seq<char>, line: int, a: int) -> bool {
    0 <= a <= t.len() && line_col(t.take(a)) == (line, 0int)
}

/// A line starts at one position at most.
pub proof fn lemma_line_start_unique(t: Seq<char>, line: int, a1: int, a2: int)
    requires
        line_start(t, line, a1),
        line_start(t, line, a2),
    ensures
        a1 == a2,
{
    if a1 < a2 {
        lemma_line_col_monotone(t, a1, a2);
    } else if a2 < a1 {
        lemma_line_col_monotone(t, a2, a1);
    }
}

/// Going back from position `k` by its column reaches the start of its line.
#[verifier::spinoff_prover]
proof fn lemma_line_start_of(t: Seq<char>, k: int)
    requires
        0 <= k <= t.len(),
    ensures
        line_start(t, line_col(t.take(k)).0, k - line_col(t.take(k)).1),
    decreases k,
{
    if k > 0 && line_col(t.take(k)).1 > 0 {
        let p = t.take(k);
        assert(p.drop_last() =~= t.take(k - 1));
        assert(p.last() != '\n');
        assert(line_col(p) == (line_col(t.take(k - 1)).0, line_col(t.take(k - 1)).1 + 1));
        lemma_line_start_of(t, k - 1);
        let a = (k - 1) - line_col(t.take(k - 1)).1;
        assert(a == k - line_col(p).1);
        assert(line_start(t, line_col(t.take(k - 1)).0, a));
    } else if k == 0 {
        assert(t.take(0) =~= Seq::<char>::empty());
    } else {
        lemma_line_col_bounds(t.take(k));
        assert(line_start(t, line_col(t.take(k)).0, k));
    }
}

/// Turning a position into a line and column and back gives the position,
/// for every position before the end of the text.
pub proof fn law_line_char_round_trip(t: Seq<char>, idx: int)
    requires
        0 <= idx < t.len(),
    ensures
        line_char_index(t, line_col(t.take(idx)).0, line_col(t.take(idx)).1) == idx,
{
    let lc = line_col(t.take(idx));
    let a = idx - lc.1;
    lemma_line_start_of(t, idx);
    assert(line_start(t, lc.0, a) && a + lc.1 < t.len());
    let a2 = choose|a2: int| line_start(t, lc.0, a2) && a2 + lc.1 < t.len();
    lemma_line_start_unique(t, lc.0, a, a2);
}

/// Turning position `i` of text `s` into a line and column, as
/// `index_to_line_char` does, and back, as `line_char_to_index` does, gives
/// `i` again, for every position before the end of the text whatever its
/// length.
pub proof fn law_position_round_trip(s: Seq<char>, i: u32)
    requires
        (i as int) < without_cr(s).len(),
    ensures
        ({
            let t = without_cr(s);
            let lc = line_col(t.take(i as int));
            line_char_index(t, lc.0, lc.1) % 0x1_0000_0000 == i
        }),
{
    law_line_char_round_trip(without_cr(s), i as int);
    vstd::arithmetic::div_mod::lemma_small_mod(i as nat, 0x1_0000_0000);
}

/// The position of column `ch` of line `line` of `t`, or 0 where the text has
/// no such character.
pub open spec fn line_char_index(t: Seq<char>, line: int, ch: int) -> int {
    if exists|a: int| line_start(t, line, a) && a + ch < t.len() {
        (choose|a: int| line_start(t, line, a) && a + ch < t.len()) + ch
    } else {
        0
    }
}

/// The line and column of character position `idx` of `s`, carriage returns
/// left out; a position past the end gives the end of the text.
pub fn index_to_line_char(s: &str, idx: Loc) -> (r: (u32, u32))
    ensures
        ({
            let t = without_cr(s@);
            let k = if (idx.0 as int) < t.len() {
                idx.0 as int
            } else {
                t.len() as int
            };
            r.0 == line_col(t.take(k)).0 && r.1 == line_col(t.take(k)).1
        }),
{
    let ghost t = without_cr(s@);
    let mut line: u32 = 0;
    let mut col: u32 = 0;
    let mut i: u32 = 0;
    let mut done = false;
    let ghost mut seen: Seq<char> = Seq::empty();
    proof {
        assert(s@.take(0) =~= Seq::<char>::empty());
        lemma_without_cr_prefix(s@, s@.len() as int);
        assert(s@.take(s@.len() as int) =~= s@);
        lemma_cr_len(s@);
    }
    for c in it: s.chars()
        invariant
            it.seq() == s@,
            t == without_cr(s@),
            t.len() <= s@.len(),
            done ==> (idx.0 as int) < t.len() && line == line_col(t.take(idx.0 as int)).0 && col
                == line_col(t.take(idx.0 as int)).1,
            !done ==> {
                &&& seen == without_cr(s@.take(it.index() as int))
                &&& seen.len() <= t.len()
                &&& t.take(seen.len() as int) == seen
                &&& i == seen.len()
                &&& i <= idx.0
                &&& line == line_col(seen).0
                &&& col == line_col(seen).1
            },
    {
        let ghost k = it.index();
        proof {
            assert(s@.take(k + 1) =~= s@.take(k as int).push(c));
            lemma_without_cr_push(s@.take(k as int), c);
            lemma_without_cr_prefix(s@, k + 1);
        }
        if done {
        } else if c == '\r' {
            proof {
                seen = without_cr(s@.take(k + 1));
            }
        } else if idx.0 == i {
            proof {
                assert(t.take(i as int) == seen);
            }
            done = true;
        } else {
            proof {
                let s1 = seen.push(c);
                assert(s1 == without_cr(s@.take(k + 1)));
                assert(s1.drop_last() =~= seen);
                lemma_line_col_bounds(s1);
            }
            if c == '\n' {
                line = line + 1;
                col = 0;
            } else {
                col = col + 1;
            }
            i = i + 1;
            proof {
                seen = seen.push(c);
            }
        }
    }
    proof {
        if !done {
            assert(seen == t);
            assert(t.take(t.len() as int) =~= t);
        }
    }
    (line, col)
}

pub proof fn lemma_cr_len(s: Seq<char>)
    ensures
        without_cr(s).len() <= s.len(),
    decreases s.len(),
{
    if s.len() > 0 {
        lemma_cr_len(s.drop_last());
    }
}

/// Counting one more position, modulo 2^32, as a `u32` counter that wraps.
proof fn lemma_count_step(n: int, i: int)
    requires
        0 <= n,
        i == n % 0x1_0000_0000,
    ensures
        (if i == 0xffff_ffff {
            0
        } else {
            i + 1
        }) == (n + 1) % 0x1_0000_0000,
{
    vstd::arithmetic::div_mod::lemma_add_mod_noop(n, 1, 0x1_0000_0000);
    vstd::arithmetic::div_mod::lemma_mod_pos_bound(n, 0x1_0000_0000);
    vstd::arithmetic::div_mod::lemma_small_mod(1, 0x1_0000_0000);
    if i + 1 < 0x1_0000_0000 {
        vstd::arithmetic::div_mod::lemma_small_mod((i + 1) as nat, 0x1_0000_0000);
    } else {
        vstd::arithmetic::div_mod::lemma_mod_self_0(0x1_0000_0000);
    }
}

/// The character position of column `char` of line `line` of `s`, carriage
/// returns left out, as a `u32` (modulo 2^32, where the text is longer); 0
/// where the text has no character there.
pub fn line_char_to_index(s: &str, line: u32, char: u32) -> (r: u32)
    ensures
        r as int == line_char_index(without_cr(s@), line as int, char as int) % 0x1_0000_0000,
        without_cr(s@).len() <= u32::MAX ==> r == line_char_index(without_cr(s@), line as int, char as int),
{
    let ghost t = without_cr(s@);
    let ghost target = line as int;
    let mut line = line;
    let mut col: u32 = 0;
    let mut i: u32 = 0;
    let mut found: Option<u32> = None;
    let ghost mut seen: Seq<char> = Seq::empty();
    let ghost mut start: int = 0;
    proof {
        assert(s@.take(0) =~= Seq::<char>::empty());
        lemma_without_cr_prefix(s@, s@.len() as int);
        assert(s@.take(s@.len() as int) =~= s@);
        lemma_cr_len(s@);
        assert(t.take(0) =~= Seq::<char>::empty());
    }
    for c in it: s.chars()
        invariant
            it.seq() == s@,
            t == without_cr(s@),
            t.len() <= s@.len(),
            found matches Some(v) ==> line_start(t, target, start) && v as int == (start + char)
                % 0x1_0000_0000 && start + char < t.len(),
            found is None ==> {
                &&& seen == without_cr(s@.take(it.index() as int))
                &&& seen.len() <= t.len()
                &&& t.take(seen.len() as int) == seen
                &&& i as int == seen.len() % 0x1_0000_0000
                &&& (line > 0 ==> line == target - line_col(seen).0)
                &&& (line == 0 ==> line_start(t, target, start) && start <= seen.len() && col
                    == seen.len() - start && start + char >= seen.len())
            },
    {
        let ghost k = it.index();
        proof {
            assert(s@.take(k + 1) =~= s@.take(k as int).push(c));
            lemma_without_cr_push(s@.take(k as int), c);
            lemma_without_cr_prefix(s@, k + 1);
        }
        if found.is_some() {
        } else if c == '\r' {
            proof {
                seen = without_cr(s@.take(k + 1));
            }
        } else if line == 0 && col == char {
            found = Some(i);
        } else {
            let ghost n = seen.len() as int;
            proof {
                let s1 = seen.push(c);
                assert(s1 == without_cr(s@.take(k + 1)));
                assert(s1.drop_last() =~= seen);
                assert(t.take(n + 1) == s1);
                lemma_count_step(n, i as int);
            }
            if c == '\n' && 0 < line {
                line = line - 1;
                col = 0;
                proof {
                    if line == 0 {
                        start = n + 1;
                    }
                }
            } else if line == 0 {
                col = col + 1;
            }
            i = if i == u32::MAX {
                0
            } else {
                i + 1
            };
            proof {
                seen = seen.push(c);
            }
        }
    }
    proof {
        if found is None {
            assert(seen == t);
        }
        if exists|a: int| line_start(t, target, a) && a + char < t.len() {
            let a = choose|a: int| line_start(t, target, a) && a + char < t.len();
            if found is None {
                if line > 0 {
                    lemma_line_col_monotone(t, a, t.len() as int);
                    assert(t.take(t.len() as int) =~= t);
                } else {
                    lemma_line_start_unique(t, target, a, start);
                }
            } else {
                lemma_line_start_unique(t, target, a, start);
            }
            if t.len() <= u32::MAX {
                vstd::arithmetic::div_mod::lemma_small_mod((a + char) as nat, 0x1_0000_0000);
            }
        } else {
            vstd::arithmetic::div_mod::lemma_small_mod(0, 0x1_0000_0000);
        }
    }
    match found {
        Some(v) => v,
        None => 0,
    }
}

/// A pass over the analysis result of a function: each step says how the
/// visitor's state `next` relates to the state before it.
pub trait MirVisitor: Sized {
    spec fn func_step(self, func: Function, next: Self) -> bool;

    spec fn decl_step(self, decl: MirDecl, next: Self) -> bool;

    spec fn stmt_step(self, stmt: MirStatement, next: Self) -> bool;

    spec fn term_step(self, term: MirTerminator, next: Self) -> bool;

    fn visit_func(&mut self, func: &Function)
        ensures
            (*old(self)).func_step(*func, *final(self)),
    ;

    fn visit_decl(&mut self, decl: &MirDecl)
        ensures
            (*old(self)).decl_step(*decl, *final(self)),
    ;

    fn visit_stmt(&mut self, stmt: &MirStatement)
        ensures
            (*old(self)).stmt_step(*stmt, *final(self)),
    ;

    fn visit_term(&mut self, term: &MirTerminator)
        ensures
            (*old(self)).term_step(*term, *final(self)),
    ;
}

/// One thing that a pass over a function hands to the visitor.
pub enum MirItem {
    Func(Function),
    Decl(MirDecl),
    Stmt(MirStatement),
    Term(MirTerminator),
}

/// The visitor in state `v` goes to state `next` on `item`.
pub open spec fn item_step<V: MirVisitor>(v: V, item: MirItem, next: V) -> bool {
    match item {
        MirItem::Func(f) => v.func_step(f, next),
        MirItem::Decl(d) => v.decl_step(d, next),
        MirItem::Stmt(s) => v.stmt_step(s, next),
        MirItem::Term(t) => v.term_step(t, next),
    }
}

pub open spec fn decl_items(decls: Seq<MirDecl>) -> Seq<MirItem> {
    decls.map_values(|d: MirDecl| MirItem::Decl(d))
}

pub open spec fn stmt_items(stmts: Seq<MirStatement>) -> Seq<MirItem> {
    stmts.map_values(|s: MirStatement| MirItem::Stmt(s))
}

/// The statements of a block, then its terminator if it has one.
pub open spec fn block_items(bb: MirBasicBlock) -> Seq<MirItem> {
    stmt_items(bb.statements@) + match bb.terminator {
        Some(t) => seq![MirItem::Term(t)],
        None => Seq::empty(),
    }
}

/// The items of the blocks, one block after the other.
pub open spec fn blocks_items(bbs: Seq<MirBasicBlock>) -> Seq<MirItem>
    decreases bbs.len(),
{
    if bbs.len() == 0 {
        Seq::empty()
    } else {
        blocks_items(bbs.drop_last()) + block_items(bbs.last())
    }
}

/// What a pass over `f` hands to the visitor, in order: the function, its
/// declarations, then each block's statements and terminator.
pub open spec fn visit_order(f: Function) -> Seq<MirItem> {
    seq![MirItem::Func(f)] + decl_items(f.decls@) + blocks_items(f.basic_blocks@)
}

/// `states` is the run of a visitor over `items`: one state before each item
/// and one after the last, each step allowed by the visitor.
pub open spec fn visited_in_order<V: MirVisitor>(states: Seq<V>, items: Seq<MirItem>) -> bool {
    &&& states.len() == items.len() + 1
    &&& forall|k: int| 0 <= k < items.len() ==> item_step(states[k], #[trigger] items[k], states[k + 1])
}

proof fn lemma_visited_push<V: MirVisitor>(states: Seq<V>, items: Seq<MirItem>, item: MirItem, next: V)
    requires
        visited_in_order(states, items),
        item_step(states.last(), item, next),
    ensures
        visited_in_order(states.push(next), items.push(item)),
{
    let s2 = states.push(next);
    let i2 = items.push(item);
    assert forall|k: int| 0 <= k < i2.len() implies item_step(s2[k], #[trigger] i2[k], s2[k + 1]) by {
        if k < items.len() {
            assert(i2[k] == items[k]);
        }
    }
}

/// Visits `func`: the function itself, then each declaration, then each block
/// with its statements and its terminator, all in order.
pub fn mir_visit<V: MirVisitor>(func: &Function, visitor: &mut V)
    ensures
        exists|states: Seq<V>|
            visited_in_order(states, visit_order(*func)) && states[0] == *old(visitor)
                && #[trigger] states.last() == *final(visitor),
{
    let ghost v0 = *visitor;
    visitor.visit_func(func);
    let ghost mut states: Seq<V> = seq![v0, *visitor];
    let ghost mut items: Seq<MirItem> = seq![MirItem::Func(*func)];
    let ghost head = items;
    proof {
        assert(visited_in_order(states, items)) by {
            assert(items[0] == MirItem::Func(*func));
        }
    }
    let mut i: usize = 0;
    while i < func.decls.len()
        invariant
            i <= func.decls@.len(),
            visited_in_order(states, items),
            states[0] == v0,
            states.last() == *visitor,
            items == head + decl_items(func.decls@.take(i as int)),
            head == seq![MirItem::Func(*func)],
        decreases func.decls@.len() - i,
    {
        let ghost before = *visitor;
        visitor.visit_decl(&func.decls[i]);
        proof {
            lemma_visited_push(states, items, MirItem::Decl(func.decls@[i as int]), *visitor);
            states = states.push(*visitor);
            items = items.push(MirItem::Decl(func.decls@[i as int]));
            assert(decl_items(func.decls@.take(i + 1)) =~= decl_items(func.decls@.take(i as int)).push(
                MirItem::Decl(func.decls@[i as int]),
            ));
            assert(items =~= head + decl_items(func.decls@.take(i + 1)));
        }
        i = i + 1;
    }
    proof {
        assert(func.decls@.take(i as int) =~= func.decls@);
        assert(func.basic_blocks@.take(0) =~= Seq::<MirBasicBlock>::empty());
        assert(items =~= head + decl_items(func.decls@) + blocks_items(func.basic_blocks@.take(0)));
    }
    let ghost mid = head + decl_items(func.decls@);
    let mut b: usize = 0;
    while b < func.basic_blocks.len()
        invariant
            b <= func.basic_blocks@.len(),
            visited_in_order(states, items),
            states[0] == v0,
            states.last() == *visitor,
            items == mid + blocks_items(func.basic_blocks@.take(b as int)),
        decreases func.basic_blocks@.len() - b,
    {
        let bb = &func.basic_blocks[b];
        let ghost before_block = items;
        let mut k: usize = 0;
        proof {
            assert(stmt_items(bb.statements@.take(0)) =~= Seq::<MirItem>::empty());
            assert(items =~= before_block + stmt_items(bb.statements@.take(0)));
        }
        while k < bb.statements.len()
            invariant
                k <= bb.statements@.len(),
                visited_in_order(states, items),
                states[0] == v0,
                states.last() == *visitor,
                items == before_block + stmt_items(bb.statements@.take(k as int)),
            decreases bb.statements@.len() - k,
        {
            visitor.visit_stmt(&bb.statements[k]);
            proof {
                lemma_visited_push(states, items, MirItem::Stmt(bb.statements@[k as int]), *visitor);
                states = states.push(*visitor);
                items = items.push(MirItem::Stmt(bb.statements@[k as int]));
                assert(stmt_items(bb.statements@.take(k + 1)) =~= stmt_items(
                    bb.statements@.take(k as int),
                ).push(MirItem::Stmt(bb.statements@[k as int])));
                assert(items =~= before_block + stmt_items(bb.statements@.take(k + 1)));
            }
            k = k + 1;
        }
        proof {
            assert(bb.statements@.take(k as int) =~= bb.statements@);
        }
        if let Some(term) = &bb.terminator {
            visitor.visit_term(term);
            proof {
                lemma_visited_push(states, items, MirItem::Term(*term), *visitor);
                states = states.push(*visitor);
                items = items.push(MirItem::Term(*term));
            }
        }
        proof {
            assert(items =~= before_block + block_items(*bb));
            assert(func.basic_blocks@.take(b + 1).drop_last() =~= func.basic_blocks@.take(b as int));
            assert(func.basic_blocks@.take(b + 1).last() == *bb);
            assert(blocks_items(func.basic_blocks@.take(b + 1)) == blocks_items(
                func.basic_blocks@.take(b as int),
            ) + block_items(*bb));
            assert(items =~= mid + blocks_items(func.basic_blocks@.take(b + 1)));
        }
        b = b + 1;
    }
    proof {
        assert(func.basic_blocks@.take(b as int) =~= func.basic_blocks@);
        assert(items =~= visit_order(*func));
        assert(states.last() == *visitor);
    }
}

/// One pass of a visitor over `f` takes it from state `a` to state `b`.
pub open spec fn one_pass<V: MirVisitor>(f: Function, a: V, b: V) -> bool {
    exists|states: Seq<V>|
        visited_in_order(states, visit_order(f)) && states[0] == a && #[trigger] states.last() == b
}

/// Passes over each function of `fs` in turn take the visitor from state
/// `a` to state `b`.
pub open spec fn passes<V: MirVisitor>(fs: Seq<Function>, a: V, b: V) -> bool {
    exists|states: Seq<V>|
        {
            &&& states.len() == fs.len() + 1
            &&& states[0] == a
            &&& states.last() == b
            &&& forall|k: int| 0 <= k < fs.len() ==> #[trigger] one_pass(fs[k], states[k], states[k + 1])
        }
}

/// Visits each function of `fs` in turn.
pub fn visit_all<V: MirVisitor>(fs: &Vec<Function>, visitor: &mut V)
    ensures
        passes(fs@, *old(visitor), *final(visitor)),
{
    let ghost v0 = *visitor;
    let ghost mut states: Seq<V> = seq![v0];
    let mut i: usize = 0;
    while i < fs.len()
        invariant
            i <= fs@.len(),
            states.len() == i + 1,
            states[0] == v0,
            states.last() == *visitor,
            forall|k: int| 0 <= k < i ==> #[trigger] one_pass(fs@[k], states[k], states[k + 1]),
        decreases fs@.len() - i,
    {
        let ghost before = *visitor;
        mir_visit(&fs[i], visitor);
        proof {
            let s2 = states.push(*visitor);
            assert forall|k: int| 0 <= k < i + 1 implies #[trigger] one_pass(
                fs@[k],
                s2[k],
                s2[k + 1],
            ) by {
                if k < i {
                    assert(s2[k] == states[k] && s2[k + 1] == states[k + 1]);
                } else {
                    assert(s2[k] == before && s2[k + 1] == *visitor);
                }
            }
            states = s2;
        }
        i = i + 1;
    }
}

} // verus!
