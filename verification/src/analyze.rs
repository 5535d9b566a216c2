//! Helpers of the MIR analysis that work on the data model alone: source
//! ranges of spans, and the ranges that borrow-checker locations stand for.

use crate::models::{Loc, MirBasicBlock, MirStatement, MirTerminator, Range, chars_within_bytes, without_cr};
use crate::transform::RichLocation;
use vstd::prelude::*;

verus! {

broadcast use {vstd::seq_lib::to_multiset_insert, vstd::seq_lib::to_multiset_build};

/// The range of source positions of the bytes `lo..hi` of `source`, less
/// `offset`; `None` where it holds no character.
pub fn range_from_span(source: &str, lo: u32, hi: u32, offset: u32) -> (r: Option<Range>)
    ensures
        ({
            let t = without_cr(source@);
            let b_lo = (if lo >= offset { lo - offset } else { 0 }) as nat;
            let b_hi = (if hi >= offset { hi - offset } else { 0 }) as nat;
            forall|f: nat, u: nat|
                chars_within_bytes(t, b_lo, f) && chars_within_bytes(t, b_hi, u) ==> (match r {
                    Some(v) => f < u && v.lo() == f && v.hi() == u,
                    None => u <= f,
                })
        }),
{
    let from = Loc::new(source, lo, offset);
    let until = Loc::new(source, hi, offset);
    proof {
        crate::models::lemma_chars_within_bytes_unique(
            without_cr(source@),
            (if lo >= offset { lo - offset } else { 0 }) as nat,
        );
        crate::models::lemma_chars_within_bytes_unique(
            without_cr(source@),
            (if hi >= offset { hi - offset } else { 0 }) as nat,
        );
    }
    Range::new(from, until)
}

/// Block and statement index `a` come no later than `b`.
pub open spec fn loc_le(a: (u32, usize), b: (u32, usize)) -> bool {
    a.0 < b.0 || (a.0 == b.0 && a.1 <= b.1)
}

/// The pairs are sorted by block, then by statement index.
pub open spec fn locs_sorted(s: Seq<(u32, usize)>) -> bool {
    forall|i: int, j: int| 0 <= i < j < s.len() ==> loc_le(#[trigger] s[i], #[trigger] s[j])
}

fn loc_le_exec(a: (u32, usize), b: (u32, usize)) -> (r: bool)
    ensures
        r == loc_le(a, b),
{
    a.0 < b.0 || (a.0 == b.0 && a.1 <= b.1)
}

/// Sorts (block, statement index) pairs by block, then by index.
pub fn sort_locs(v: &mut Vec<(u32, usize)>)
    ensures
        locs_sorted(final(v)@),
        final(v)@.to_multiset() == old(v)@.to_multiset(),
{
    let mut sorted: Vec<(u32, usize)> = Vec::new();
    let mut i: usize = 0;
    proof {
        assert(v@.take(0) =~= Seq::<(u32, usize)>::empty());
        assert(sorted@ =~= Seq::<(u32, usize)>::empty());
    }
    while i < v.len()
        invariant
            i <= v.len(),
            locs_sorted(sorted@),
            sorted@.to_multiset() == v@.take(i as int).to_multiset(),
        decreases v.len() - i,
    {
        let x = v[i];
        let mut pos: usize = 0;
        while pos < sorted.len() && loc_le_exec(sorted[pos], x)
            invariant
                pos <= sorted@.len(),
                locs_sorted(sorted@),
                forall|t: int| 0 <= t < pos ==> loc_le(#[trigger] sorted@[t], x),
            decreases sorted@.len() - pos,
        {
            pos = pos + 1;
        }
        let ghost before = sorted@;
        sorted.insert(pos, x);
        proof {
            assert forall|a: int, b: int| 0 <= a < b < sorted@.len() implies loc_le(
                #[trigger] sorted@[a],
                #[trigger] sorted@[b],
            ) by {
                if b < pos {
                    assert(sorted@[a] == before[a] && sorted@[b] == before[b]);
                } else if b == pos {
                    assert(sorted@[a] == before[a]);
                } else if a < pos {
                    assert(sorted@[a] == before[a] && sorted@[b] == before[b - 1]);
                } else if a == pos {
                    assert(sorted@[b] == before[b - 1]);
                    assert(!loc_le(before[pos as int], x));
                    if b - 1 > pos {
                        assert(loc_le(before[pos as int], before[b - 1]));
                    }
                } else {
                    assert(sorted@[a] == before[a - 1] && sorted@[b] == before[b - 1]);
                }
            }
            assert(v@.take(i + 1) =~= v@.take(i as int).push(x));
        }
        i = i + 1;
    }
    proof {
        assert(v@.take(i as int) =~= v@);
    }
    *v = sorted;
}

/// The source range of statement `stmt` of block `block`: that of the
/// statement, or of the block's terminator where the index is past the
/// statements.
pub open spec fn loc_range(bbs: Seq<MirBasicBlock>, block: int, stmt: int) -> Option<Range> {
    if 0 <= block < bbs.len() {
        if stmt < bbs[block].statements@.len() {
            Some(bbs[block].statements@[stmt].range_of())
        } else {
            match bbs[block].terminator {
                Some(t) => Some(t.range_of()),
                None => None,
            }
        }
    } else {
        None
    }
}

/// The source range of a statement, or of the terminator where `statement`
/// is past the statements of the block.
pub fn statement_location_to_range(basic_blocks: &[MirBasicBlock], basic_block: usize, statement: usize) -> (r: Option<Range>)
    ensures
        r == loc_range(basic_blocks@, basic_block as int, statement as int),
{
    if basic_block < basic_blocks.len() {
        let bb = &basic_blocks[basic_block];
        if statement < bb.statements.len() {
            Some(bb.statements[statement].range())
        } else {
            match &bb.terminator {
                Some(t) => Some(t.range()),
                None => None,
            }
        }
    } else {
        None
    }
}

/// The (block, statement index) pairs of the start locations, in order.
pub open spec fn starts_of(ls: Seq<RichLocation>) -> Seq<(u32, usize)>
    decreases ls.len(),
{
    if ls.len() == 0 {
        Seq::empty()
    } else {
        match ls.last() {
            RichLocation::Start(l) => starts_of(ls.drop_last()).push((l.block, l.statement_index)),
            RichLocation::Mid(_) => starts_of(ls.drop_last()),
        }
    }
}

/// The (block, statement index) pairs of the middle locations, in order.
pub open spec fn mids_of(ls: Seq<RichLocation>) -> Seq<(u32, usize)>
    decreases ls.len(),
{
    if ls.len() == 0 {
        Seq::empty()
    } else {
        match ls.last() {
            RichLocation::Mid(l) => mids_of(ls.drop_last()).push((l.block, l.statement_index)),
            RichLocation::Start(_) => mids_of(ls.drop_last()),
        }
    }
}

/// The bounds of the ranges that the first `n` pairs of starts `st` and
/// middles `mi` stand for: from the start's range to the end of the
/// middle's, where both have a range and that is not empty.
pub open spec fn paired_bounds(bbs: Seq<MirBasicBlock>, st: Seq<(u32, usize)>, mi: Seq<(u32, usize)>, n: int) -> Seq<(int, int)>
    decreases n,
{
    if n <= 0 {
        Seq::empty()
    } else {
        let rest = paired_bounds(bbs, st, mi, n - 1);
        let s = st[n - 1];
        let m = mi[n - 1];
        match (loc_range(bbs, s.0 as int, s.1 as int), loc_range(bbs, m.0 as int, m.1 as int)) {
            (Some(a), Some(b)) => if a.lo() < b.hi() {
                rest.push((a.lo(), b.hi()))
            } else {
                rest
            },
            _ => rest,
        }
    }
}

/// The bounds of each range of `s`.
pub open spec fn bounds(s: Seq<Range>) -> Seq<(int, int)> {
    s.map_values(|x: Range| (x.lo(), x.hi()))
}

/// `r` is what borrow-checker locations `locations` stand for: the start
/// and middle locations are each sorted by block and statement index and
/// paired in order (the longer list cut to the shorter), and each pair gives
/// the range from the start's statement to the end of the middle's.
pub open spec fn gives_ranges(bbs: Seq<MirBasicBlock>, locations: Seq<RichLocation>, r: Seq<Range>) -> bool {
    exists|st: Seq<(u32, usize)>, mi: Seq<(u32, usize)>|
        {
            &&& locs_sorted(st)
            &&& st.to_multiset() == starts_of(locations).to_multiset()
            &&& locs_sorted(mi)
            &&& mi.to_multiset() == mids_of(locations).to_multiset()
            &&& bounds(r) == paired_bounds(
                bbs,
                st,
                mi,
                if st.len() <= mi.len() {
                    st.len() as int
                } else {
                    mi.len() as int
                },
            )
        }
}

/// The ranges that borrow-checker locations stand for (see `gives_ranges`).
pub fn rich_locations_to_ranges(basic_blocks: &[MirBasicBlock], locations: &[RichLocation]) -> (r: Vec<Range>)
    ensures
        gives_ranges(basic_blocks@, locations@, r@),
{
    let mut starts: Vec<(u32, usize)> = Vec::new();
    let mut mids: Vec<(u32, usize)> = Vec::new();
    let mut i: usize = 0;
    while i < locations.len()
        invariant
            i <= locations@.len(),
            starts@ == starts_of(locations@.take(i as int)),
            mids@ == mids_of(locations@.take(i as int)),
        decreases locations@.len() - i,
    {
        proof {
            assert(locations@.take(i + 1).drop_last() =~= locations@.take(i as int));
        }
        match &locations[i] {
            RichLocation::Start(l) => {
                starts.push((l.block, l.statement_index));
            },
            RichLocation::Mid(l) => {
                mids.push((l.block, l.statement_index));
            },
        }
        i = i + 1;
    }
    proof {
        assert(locations@.take(i as int) =~= locations@);
    }
    let ghost st0 = starts@;
    let ghost mi0 = mids@;
    sort_locs(&mut starts);
    sort_locs(&mut mids);
    proof {
        starts@.to_multiset_ensures();
        mids@.to_multiset_ensures();
        st0.to_multiset_ensures();
        mi0.to_multiset_ensures();
    }
    let n = if starts.len() <= mids.len() {
        starts.len()
    } else {
        mids.len()
    };
    let mut r: Vec<Range> = Vec::new();
    let mut k: usize = 0;
    while k < n
        invariant
            k <= n,
            n <= starts@.len(),
            n <= mids@.len(),
            bounds(r@) == paired_bounds(basic_blocks@, starts@, mids@, k as int),
        decreases n - k,
    {
        let s = starts[k];
        let m = mids[k];
        let sr = statement_location_to_range(basic_blocks, s.0 as usize, s.1);
        let mr = statement_location_to_range(basic_blocks, m.0 as usize, m.1);
        let ghost before = r@;
        if let (Some(a), Some(b)) = (sr, mr) {
            if let Some(x) = Range::new(a.from(), b.until()) {
                r.push(x);
                proof {
                    assert(bounds(r@) =~= bounds(before).push((x.lo(), x.hi())));
                }
            }
        }
        k = k + 1;
    }
    proof {
        assert(bounds(r@) == paired_bounds(basic_blocks@, starts@, mids@, n as int));
    }
    r
}

/// Range `b` strictly contains range `a`: it covers all of `a` and more.
pub open spec fn strictly_contains(b: Range, a: Range) -> bool {
    (b.lo() <= a.lo() && a.hi() < b.hi()) || (b.lo() < a.lo() && a.hi() <= b.hi())
}

/// Range `x` gives way to range `k` kept before it: with `erase_subset`,
/// where `k` strictly contains it; else where it strictly contains `k`.
pub open spec fn gives_way(x: Range, k: Range, erase_subset: bool) -> bool {
    if erase_subset {
        strictly_contains(k, x)
    } else {
        strictly_contains(x, k)
    }
}

/// The ranges of `s` in order, each kept unless it gives way to one kept
/// before it.
pub open spec fn superset_erased(s: Seq<Range>, erase_subset: bool) -> Seq<Range>
    decreases s.len(),
{
    if s.len() == 0 {
        s
    } else {
        let k = superset_erased(s.drop_last(), erase_subset);
        if exists|i: int| 0 <= i < k.len() && #[trigger] gives_way(s.last(), k[i], erase_subset) {
            k
        } else {
            k.push(s.last())
        }
    }
}

/// Drops, in order, each range that strictly contains one kept before it
/// (with `erase_subset`: each range strictly inside one kept before it).
pub fn erase_superset(ranges: Vec<Range>, erase_subset: bool) -> (r: Vec<Range>)
    ensures
        r@ == superset_erased(ranges@, erase_subset),
{
    let mut kept: Vec<Range> = Vec::new();
    let mut i: usize = 0;
    while i < ranges.len()
        invariant
            i <= ranges@.len(),
            kept@ == superset_erased(ranges@.take(i as int), erase_subset),
        decreases ranges@.len() - i,
    {
        proof {
            assert(ranges@.take(i + 1).drop_last() =~= ranges@.take(i as int));
            assert(ranges@.take(i + 1).last() == ranges@[i as int]);
        }
        let x = ranges[i];
        let mut hit = false;
        let mut j: usize = 0;
        while j < kept.len()
            invariant
                j <= kept@.len(),
                hit <==> exists|t: int| 0 <= t < j && #[trigger] gives_way(x, kept@[t], erase_subset),
            decreases kept@.len() - j,
        {
            let k = kept[j];
            let xl = x.from().0;
            let xh = x.until().0;
            let kl = k.from().0;
            let kh = k.until().0;
            let g = if erase_subset {
                (kl <= xl && xh < kh) || (kl < xl && xh <= kh)
            } else {
                (xl <= kl && kh < xh) || (xl < kl && kh <= xh)
            };
            if g {
                proof {
                    assert(gives_way(x, kept@[j as int], erase_subset));
                }
                hit = true;
            }
            j = j + 1;
        }
        if !hit {
            kept.push(x);
        }
        i = i + 1;
    }
    proof {
        assert(ranges@.take(i as int) =~= ranges@);
    }
    kept
}

/// The bounds of the range from the statement of start location `st` to the
/// end of the statement of middle location `mi`, where both statements have
/// a range and it is not empty.
pub open spec fn pair_bounds(bbs: Seq<MirBasicBlock>, st: (u32, usize), mi: (u32, usize)) -> Option<(int, int)> {
    match (loc_range(bbs, st.0 as int, st.1 as int), loc_range(bbs, mi.0 as int, mi.1 as int)) {
        (Some(a), Some(b)) => if a.lo() < b.hi() {
            Some((a.lo(), b.hi()))
        } else {
            None
        },
        _ => None,
    }
}

/// The ranges `r` come, in order, from pairing the `k`-th smallest start
/// location `st[k]` with the `k`-th smallest middle location `mi[k]`, for
/// the increasing positions `ks`; every such pair that gives a range is
/// among them.
pub open spec fn paired_in_order(
    bbs: Seq<MirBasicBlock>,
    locations: Seq<RichLocation>,
    r: Seq<Range>,
    st: Seq<(u32, usize)>,
    mi: Seq<(u32, usize)>,
    ks: Seq<int>,
) -> bool {
    let n = if st.len() <= mi.len() {
        st.len() as int
    } else {
        mi.len() as int
    };
    &&& locs_sorted(st)
    &&& st.to_multiset() == starts_of(locations).to_multiset()
    &&& locs_sorted(mi)
    &&& mi.to_multiset() == mids_of(locations).to_multiset()
    &&& ks.len() == r.len()
    &&& forall|t: int| 0 <= t < ks.len() ==> 0 <= #[trigger] ks[t] < n
    &&& forall|a: int, b: int| 0 <= a < b < ks.len() ==> #[trigger] ks[a] < #[trigger] ks[b]
    &&& forall|t: int|
        0 <= t < r.len() ==> pair_bounds(bbs, st[ks[t]], mi[ks[t]]) == Some(((#[trigger] r[t]).lo(), r[t].hi()))
    &&& forall|k: int| 0 <= k < n && (#[trigger] pair_bounds(bbs, st[k], mi[k])) is Some ==> ks.contains(k)
}

proof fn lemma_paired_indices(bbs: Seq<MirBasicBlock>, st: Seq<(u32, usize)>, mi: Seq<(u32, usize)>, n: int) -> (ks: Seq<int>)
    requires
        0 <= n <= st.len(),
        n <= mi.len(),
    ensures
        ks.len() == paired_bounds(bbs, st, mi, n).len(),
        forall|t: int| 0 <= t < ks.len() ==> 0 <= #[trigger] ks[t] < n,
        forall|t: int|
            0 <= t < ks.len() ==> pair_bounds(bbs, st[ks[t]], mi[ks[t]]) == Some(
                #[trigger] paired_bounds(bbs, st, mi, n)[t],
            ),
        forall|a: int, b: int| 0 <= a < b < ks.len() ==> #[trigger] ks[a] < #[trigger] ks[b],
        forall|k: int| 0 <= k < n && (#[trigger] pair_bounds(bbs, st[k], mi[k])) is Some ==> ks.contains(k),
    decreases n,
{
    if n <= 0 {
        Seq::empty()
    } else {
        let ks0 = lemma_paired_indices(bbs, st, mi, n - 1);
        let rest = paired_bounds(bbs, st, mi, n - 1);
        match pair_bounds(bbs, st[n - 1], mi[n - 1]) {
            Some(p) => {
                let ks = ks0.push(n - 1);
                assert(paired_bounds(bbs, st, mi, n) == rest.push(p));
                assert forall|k: int| 0 <= k < n && (#[trigger] pair_bounds(bbs, st[k], mi[k])) is Some implies ks.contains(k) by {
                    if k < n - 1 {
                        let t = choose|t: int| 0 <= t < ks0.len() && ks0[t] == k;
                        assert(ks[t] == k);
                    } else {
                        assert(ks[ks.len() - 1] == k);
                    }
                }
                ks
            },
            None => {
                assert(paired_bounds(bbs, st, mi, n) == rest);
                ks0
            },
        }
    }
}

/// The ranges of borrow-checker locations pair, in order, the `k`-th
/// smallest start location with the `k`-th smallest middle location (by
/// block, then statement index): each range runs from one such start's
/// statement to the end of the middle location of the same rank, every pair
/// of the same rank that gives a range gives one, and none other does.
pub proof fn law_location_pairs(bbs: Seq<MirBasicBlock>, locations: Seq<RichLocation>, r: Seq<Range>)
    requires
        gives_ranges(bbs, locations, r),
    ensures
        exists|st: Seq<(u32, usize)>, mi: Seq<(u32, usize)>, ks: Seq<int>|
            #[trigger] paired_in_order(bbs, locations, r, st, mi, ks),
{
    let (st, mi) = choose|st: Seq<(u32, usize)>, mi: Seq<(u32, usize)>|
        {
            &&& locs_sorted(st)
            &&& st.to_multiset() == starts_of(locations).to_multiset()
            &&& locs_sorted(mi)
            &&& mi.to_multiset() == mids_of(locations).to_multiset()
            &&& bounds(r) == paired_bounds(
                bbs,
                st,
                mi,
                if st.len() <= mi.len() {
                    st.len() as int
                } else {
                    mi.len() as int
                },
            )
        };
    let n = if st.len() <= mi.len() {
        st.len() as int
    } else {
        mi.len() as int
    };
    let ks = lemma_paired_indices(bbs, st, mi, n);
    assert forall|t: int| 0 <= t < r.len() implies pair_bounds(bbs, st[ks[t]], mi[ks[t]]) == Some(
        ((#[trigger] r[t]).lo(), r[t].hi()),
    ) by {
        assert(bounds(r)[t] == (r[t].lo(), r[t].hi()));
        assert(paired_bounds(bbs, st, mi, n)[t] == bounds(r)[t]);
    }
    assert(paired_in_order(bbs, locations, r, st, mi, ks));
}

/// Pruning keeps a range exactly when it gives way to none kept before it.
/// Without `erase_subset`: no kept range strictly contains one kept before
/// it, and every dropped range strictly contains a kept one; with it: no
/// kept range lies strictly inside one kept before it, and every dropped
/// range lies strictly inside a kept one. Every kept range is one of the
/// input.
pub proof fn law_erase_superset(s: Seq<Range>, erase_subset: bool)
    ensures
        forall|a: int, b: int|
            0 <= a < b < superset_erased(s, erase_subset).len() ==> !gives_way(
                #[trigger] superset_erased(s, erase_subset)[b],
                #[trigger] superset_erased(s, erase_subset)[a],
                erase_subset,
            ),
        forall|m: int|
            0 <= m < s.len() ==> superset_erased(s, erase_subset).contains(#[trigger] s[m]) || exists|t: int|
                0 <= t < superset_erased(s, erase_subset).len() && gives_way(
                    s[m],
                    #[trigger] superset_erased(s, erase_subset)[t],
                    erase_subset,
                ),
        forall|t: int| 0 <= t < superset_erased(s, erase_subset).len() ==> s.contains(
            #[trigger] superset_erased(s, erase_subset)[t],
        ),
    decreases s.len(),
{
    if s.len() > 0 {
        let init = s.drop_last();
        law_erase_superset(init, erase_subset);
        let k = superset_erased(init, erase_subset);
        let r = superset_erased(s, erase_subset);
        assert forall|t: int| 0 <= t < k.len() implies r[t] == k[t] by {}
        assert forall|m: int| 0 <= m < s.len() implies r.contains(#[trigger] s[m]) || exists|t: int|
            0 <= t < r.len() && gives_way(s[m], #[trigger] r[t], erase_subset) by {
            if m < init.len() {
                assert(init[m] == s[m]);
                if k.contains(init[m]) {
                    let t = choose|t: int| 0 <= t < k.len() && k[t] == init[m];
                    assert(r[t] == s[m]);
                } else {
                    let t = choose|t: int| 0 <= t < k.len() && gives_way(init[m], #[trigger] k[t], erase_subset);
                    assert(gives_way(s[m], r[t], erase_subset));
                }
            } else if r.len() > k.len() {
                assert(r[k.len() as int] == s[m]);
            } else {
                let i = choose|i: int| 0 <= i < k.len() && #[trigger] gives_way(s.last(), k[i], erase_subset);
                assert(gives_way(s[m], r[i], erase_subset));
            }
        }
        assert forall|t: int| 0 <= t < r.len() implies s.contains(#[trigger] r[t]) by {
            if t < k.len() {
                assert(init.contains(k[t]));
                let m = choose|m: int| 0 <= m < init.len() && init[m] == k[t];
                assert(s[m] == init[m]);
            } else {
                assert(s[s.len() - 1] == r[t]);
            }
        }
    }
}

} // verus!
