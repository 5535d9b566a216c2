//! The source ranges where a local lives, is borrowed, or must live, from
//! the borrow checker's facts: relations between program points, locals,
//! loans and regions, each given by its index.

use crate::analyze::{gives_ranges, rich_locations_to_ranges};
use crate::models::{MirBasicBlock, Range};
use crate::transform::RichLocation;
use crate::utils::{covers, eliminated_ranges, separated};
use vstd::prelude::*;

verus! {

/// The position of the first entry of `s` with key `k`.
pub open spec fn key_pos<V>(s: Seq<(u32, V)>, k: u32) -> Option<int>
    decreases s.len(),
{
    if s.len() == 0 {
        None
    } else if s[0].0 == k {
        Some(0)
    } else {
        match key_pos(s.drop_first(), k) {
            Some(i) => Some(i + 1),
            None => None,
        }
    }
}

pub proof fn lemma_key_pos<V>(s: Seq<(u32, V)>, k: u32)
    ensures
        key_pos(s, k) matches Some(i) ==> 0 <= i < s.len() && s[i].0 == k && forall|j: int|
            0 <= j < i ==> s[j].0 != k,
        key_pos(s, k) is None ==> forall|j: int| 0 <= j < s.len() ==> s[j].0 != k,
    decreases s.len(),
{
    if s.len() > 0 {
        lemma_key_pos(s.drop_first(), k);
        if s[0].0 != k {
            assert forall|j: int| 1 <= j < s.len() implies s[j] == s.drop_first()[j - 1] by {}
        }
    }
}

/// The locations of `pairs` gathered by local, locals in the order they
/// first occur and each local's locations in the order of its pairs: pair
/// `(l, p)` stands for location `table[p]` of local `l`.
pub open spec fn grouped(pairs: Seq<(u32, u32)>, table: Seq<RichLocation>) -> Seq<(u32, Seq<RichLocation>)>
    decreases pairs.len(),
{
    if pairs.len() == 0 {
        Seq::empty()
    } else {
        let acc = grouped(pairs.drop_last(), table);
        let (l, p) = pairs.last();
        match key_pos(acc, l) {
            Some(i) => acc.update(i, (l, acc[i].1.push(table[p as int]))),
            None => acc.push((l, seq![table[p as int]])),
        }
    }
}

/// `rs` are the merged ranges that locations `locs` stand for.
pub open spec fn merged_ranges_of(bbs: Seq<MirBasicBlock>, locs: Seq<RichLocation>, rs: Seq<Range>) -> bool {
    &&& separated(rs)
    &&& exists|r0: Seq<Range>| gives_ranges(bbs, locs, r0) && forall|x: int| covers(rs, x) <==> covers(r0, x)
}

/// Every point of `pairs` has a location in the table.
pub open spec fn points_in_table(pairs: Seq<(u32, u32)>, n: int) -> bool {
    forall|k: int| 0 <= k < pairs.len() ==> (#[trigger] pairs[k]).1 < n
}

/// The position of local `l` among `keys`.
fn find_key(keys: &Vec<u32>, l: u32) -> (r: Option<usize>)
    ensures
        r matches Some(i) ==> i < keys@.len() && keys@[i as int] == l && forall|j: int| 0 <= j < i ==> keys@[j] != l,
        r is None ==> forall|j: int| 0 <= j < keys@.len() ==> keys@[j] != l,
{
    let mut i: usize = 0;
    while i < keys.len()
        invariant
            i <= keys@.len(),
            forall|j: int| 0 <= j < i ==> keys@[j] != l,
        decreases keys@.len() - i,
    {
        if keys[i] == l {
            return Some(i);
        }
        i = i + 1;
    }
    None
}

/// The keys and the groups of a grouping, side by side.
pub open spec fn splits(g: Seq<(u32, Seq<RichLocation>)>, keys: Seq<u32>, groups: Seq<Vec<RichLocation>>) -> bool {
    &&& keys.len() == g.len()
    &&& groups.len() == g.len()
    &&& forall|i: int| 0 <= i < g.len() ==> #[trigger] keys[i] == g[i].0 && groups[i]@ == g[i].1
}

proof fn lemma_key_pos_of_split(g: Seq<(u32, Seq<RichLocation>)>, keys: Seq<u32>, groups: Seq<Vec<RichLocation>>, l: u32, r: Option<usize>)
    requires
        splits(g, keys, groups),
        r matches Some(i) ==> i < keys.len() && keys[i as int] == l && forall|j: int| 0 <= j < i ==> keys[j] != l,
        r is None ==> forall|j: int| 0 <= j < keys.len() ==> keys[j] != l,
    ensures
        key_pos(g, l) == match r {
            Some(i) => Some(i as int),
            None => None::<int>,
        },
{
    lemma_key_pos(g, l);
    match key_pos(g, l) {
        Some(i) => {
            assert(keys[i] == g[i].0);
            match r {
                Some(i2) => {
                    if (i2 as int) < i {
                        assert(keys[i2 as int] == g[i2 as int].0);
                    } else if i < (i2 as int) {
                        assert(keys[i] == l);
                    }
                },
                None => {},
            }
        },
        None => {
            if let Some(i2) = r {
                assert(keys[i2 as int] == g[i2 as int].0);
            }
        },
    }
}

/// For each local, in the order locals first occur among `pairs`, the merged
/// ranges of the locations its pairs stand for.
#[verifier::spinoff_prover]
fn ranges_by_local(pairs: &Vec<(u32, u32)>, table: &Vec<RichLocation>, basic_blocks: &[MirBasicBlock]) -> (r: Vec<
    (u32, Vec<Range>),
>)
    requires
        points_in_table(pairs@, table@.len() as int),
    ensures
        r@.len() == grouped(pairs@, table@).len(),
        forall|i: int|
            0 <= i < r@.len() ==> (#[trigger] r@[i]).0 == grouped(pairs@, table@)[i].0 && merged_ranges_of(
                basic_blocks@,
                grouped(pairs@, table@)[i].1,
                r@[i].1@,
            ),
{
    let mut keys: Vec<u32> = Vec::new();
    let mut groups: Vec<Vec<RichLocation>> = Vec::new();
    let mut k: usize = 0;
    while k < pairs.len()
        invariant
            k <= pairs@.len(),
            points_in_table(pairs@, table@.len() as int),
            splits(grouped(pairs@.take(k as int), table@), keys@, groups@),
        decreases pairs@.len() - k,
    {
        let ghost g0 = grouped(pairs@.take(k as int), table@);
        proof {
            assert(pairs@.take(k + 1).drop_last() =~= pairs@.take(k as int));
            assert(pairs@.take(k + 1).last() == pairs@[k as int]);
        }
        let (l, p) = pairs[k];
        let loc = table[p as usize];
        let found = find_key(&keys, l);
        proof {
            lemma_key_pos_of_split(g0, keys@, groups@, l, found);
        }
        match found {
            Some(i) => {
                let ghost gs0 = groups@;
                proof {
                    assert(keys@[i as int] == g0[i as int].0);
                    assert(gs0[i as int]@ == g0[i as int].1);
                }
                let mut g = groups.remove(i);
                g.push(loc);
                assert(g@ == g0[i as int].1.push(loc));
                groups.insert(i, g);
                proof {
                    assert(groups@ =~= gs0.update(i as int, g));
                    assert(keys@[i as int] == g0[i as int].0);
                    let g1 = g0.update(i as int, (l, g0[i as int].1.push(loc)));
                    assert(grouped(pairs@.take(k + 1), table@) == g1);
                    assert forall|j: int| 0 <= j < g1.len() implies #[trigger] keys@[j] == g1[j].0 && groups@[j]@ == g1[j].1 by {
                        if j != i {
                            assert(g1[j] == g0[j]);
                        }
                    }
                }
            },
            None => {
                keys.push(l);
                let mut g: Vec<RichLocation> = Vec::new();
                g.push(loc);
                groups.push(g);
                proof {
                    let g1 = g0.push((l, seq![loc]));
                    assert(grouped(pairs@.take(k + 1), table@) == g1);
                    assert(g@ =~= seq![loc]);
                    assert forall|j: int| 0 <= j < g1.len() implies #[trigger] keys@[j] == g1[j].0 && groups@[j]@ == g1[j].1 by {
                        if j < g0.len() {
                            assert(g1[j] == g0[j]);
                        }
                    }
                }
            },
        }
        k = k + 1;
    }
    proof {
        assert(pairs@.take(k as int) =~= pairs@);
    }
    let ghost g = grouped(pairs@, table@);
    let mut out: Vec<(u32, Vec<Range>)> = Vec::new();
    let mut i: usize = 0;
    while i < keys.len()
        invariant
            i <= keys@.len(),
            splits(g, keys@, groups@),
            out@.len() == i,
            forall|j: int|
                0 <= j < i ==> (#[trigger] out@[j]).0 == g[j].0 && merged_ranges_of(basic_blocks@, g[j].1, out@[j].1@),
        decreases keys@.len() - i,
    {
        let r0 = rich_locations_to_ranges(basic_blocks, groups[i].as_slice());
        let ghost r0v = r0@;
        let rs = eliminated_ranges(r0);
        proof {
            assert(keys@[i as int] == g[i as int].0);
            assert(groups@[i as int]@ == g[i as int].1);
            assert(gives_ranges(basic_blocks@, g[i as int].1, r0v));
        }
        out.push((keys[i], rs));
        i = i + 1;
    }
    out
}

/// `(local, point)` for each local that each entry `(point, locals)` holds,
/// entry by entry.
pub open spec fn point_locals(entries: Seq<(u32, Vec<u32>)>) -> Seq<(u32, u32)>
    decreases entries.len(),
{
    if entries.len() == 0 {
        Seq::empty()
    } else {
        point_locals(entries.drop_last()) + entries.last().1@.map_values(|l: u32| (l, entries.last().0))
    }
}

/// Every point of the entries has a location in the table.
pub open spec fn entry_points_in_table(entries: Seq<(u32, Vec<u32>)>, n: int) -> bool {
    forall|k: int| 0 <= k < entries.len() ==> (#[trigger] entries[k]).0 < n
}

proof fn lemma_point_locals_in_table(entries: Seq<(u32, Vec<u32>)>, n: int)
    requires
        entry_points_in_table(entries, n),
    ensures
        points_in_table(point_locals(entries), n),
    decreases entries.len(),
{
    if entries.len() > 0 {
        lemma_point_locals_in_table(entries.drop_last(), n);
        assert(entries.last() == entries[entries.len() - 1]);
    }
}

/// For each local that is live at some point, the merged ranges of the
/// points at which it is: `live_on_entry` gives, for each point, the locals
/// live there; locals come in the order they first occur.
pub fn get_range(live_on_entry: &Vec<(u32, Vec<u32>)>, table: &Vec<RichLocation>, basic_blocks: &[MirBasicBlock]) -> (r:
    Vec<(u32, Vec<Range>)>)
    requires
        entry_points_in_table(live_on_entry@, table@.len() as int),
    ensures
        r@.len() == grouped(point_locals(live_on_entry@), table@).len(),
        forall|i: int|
            0 <= i < r@.len() ==> (#[trigger] r@[i]).0 == grouped(point_locals(live_on_entry@), table@)[i].0
                && merged_ranges_of(basic_blocks@, grouped(point_locals(live_on_entry@), table@)[i].1, r@[i].1@),
{
    let mut pairs: Vec<(u32, u32)> = Vec::new();
    let mut e: usize = 0;
    while e < live_on_entry.len()
        invariant
            e <= live_on_entry@.len(),
            pairs@ == point_locals(live_on_entry@.take(e as int)),
        decreases live_on_entry@.len() - e,
    {
        proof {
            assert(live_on_entry@.take(e + 1).drop_last() =~= live_on_entry@.take(e as int));
            assert(live_on_entry@.take(e + 1).last() == live_on_entry@[e as int]);
        }
        let p = live_on_entry[e].0;
        let locals = &live_on_entry[e].1;
        let ghost before = pairs@;
        let mut j: usize = 0;
        while j < locals.len()
            invariant
                j <= locals@.len(),
                pairs@ == before + locals@.take(j as int).map_values(|l: u32| (l, p)),
            decreases locals@.len() - j,
        {
            pairs.push((locals[j], p));
            j = j + 1;
            proof {
                assert(pairs@ =~= before + locals@.take(j as int).map_values(|l: u32| (l, p)));
            }
        }
        proof {
            assert(locals@.take(j as int) =~= locals@);
        }
        e = e + 1;
    }
    proof {
        assert(live_on_entry@.take(e as int) =~= live_on_entry@);
        lemma_point_locals_in_table(live_on_entry@, table@.len() as int);
    }
    ranges_by_local(&pairs, table, basic_blocks)
}


/// Where each local is live: `var_live_on_entry` gives, for each point, the
/// locals live on entry to it (see `get_range`).
pub fn get_accurate_live(var_live_on_entry: &Vec<(u32, Vec<u32>)>, table: &Vec<RichLocation>, basic_blocks: &[MirBasicBlock]) -> (r:
    Vec<(u32, Vec<Range>)>)
    requires
        entry_points_in_table(var_live_on_entry@, table@.len() as int),
    ensures
        r@.len() == grouped(point_locals(var_live_on_entry@), table@).len(),
        forall|i: int|
            0 <= i < r@.len() ==> (#[trigger] r@[i]).0 == grouped(point_locals(var_live_on_entry@), table@)[i].0
                && merged_ranges_of(basic_blocks@, grouped(point_locals(var_live_on_entry@), table@)[i].1, r@[i].1@),
{
    get_range(var_live_on_entry, table, basic_blocks)
}

/// Where each local may still be dropped: `var_drop_live_on_entry` gives,
/// for each point, the locals drop-live on entry to it (see `get_range`).
pub fn drop_range(var_drop_live_on_entry: &Vec<(u32, Vec<u32>)>, table: &Vec<RichLocation>, basic_blocks: &[MirBasicBlock]) -> (r:
    Vec<(u32, Vec<Range>)>)
    requires
        entry_points_in_table(var_drop_live_on_entry@, table@.len() as int),
    ensures
        r@.len() == grouped(point_locals(var_drop_live_on_entry@), table@).len(),
        forall|i: int|
            0 <= i < r@.len() ==> (#[trigger] r@[i]).0 == grouped(point_locals(var_drop_live_on_entry@), table@)[i].0
                && merged_ranges_of(basic_blocks@, grouped(point_locals(var_drop_live_on_entry@), table@)[i].1, r@[i].1@),
{
    get_range(var_drop_live_on_entry, table, basic_blocks)
}

/// A loan: its index, whether it is mutable, and the local it borrows.
#[derive(Clone, Copy, PartialEq, Eq, Debug, Structural)]
pub struct LoanInfo {
    pub loan: u32,
    pub mutable: bool,
    pub borrowed: u32,
}

/// What the first entry of `infos` for loan `b` says of it.
pub open spec fn loan_info(infos: Seq<LoanInfo>, b: u32) -> Option<LoanInfo>
    decreases infos.len(),
{
    if infos.len() == 0 {
        None
    } else if infos[0].loan == b {
        Some(infos[0])
    } else {
        loan_info(infos.drop_first(), b)
    }
}

fn find_loan(infos: &Vec<LoanInfo>, b: u32) -> (r: Option<LoanInfo>)
    ensures
        r == loan_info(infos@, b),
{
    let mut i: usize = 0;
    assert(infos@.skip(0) =~= infos@);
    while i < infos.len()
        invariant
            i <= infos@.len(),
            loan_info(infos@, b) == loan_info(infos@.skip(i as int), b),
        decreases infos@.len() - i,
    {
        if infos[i].loan == b {
            return Some(infos[i]);
        }
        proof {
            assert(infos@.skip(i as int).drop_first() =~= infos@.skip(i + 1));
        }
        i = i + 1;
    }
    None
}

/// `(borrowed local, p)` for each loan of `bs` live at `p` whose mutability
/// is `mutable`.
pub open spec fn entry_loan_pairs(bs: Seq<u32>, p: u32, infos: Seq<LoanInfo>, mutable: bool) -> Seq<(u32, u32)>
    decreases bs.len(),
{
    if bs.len() == 0 {
        Seq::empty()
    } else {
        entry_loan_pairs(bs.drop_last(), p, infos, mutable) + match loan_info(infos, bs.last()) {
            Some(inf) => if inf.mutable == mutable {
                seq![(inf.borrowed, p)]
            } else {
                Seq::empty()
            },
            None => Seq::empty(),
        }
    }
}

/// `(borrowed local, point)` for each loan live at each point of `loans`
/// whose mutability is `mutable`, entry by entry.
pub open spec fn loan_pairs(loans: Seq<(u32, Vec<u32>)>, infos: Seq<LoanInfo>, mutable: bool) -> Seq<(u32, u32)>
    decreases loans.len(),
{
    if loans.len() == 0 {
        Seq::empty()
    } else {
        loan_pairs(loans.drop_last(), infos, mutable) + entry_loan_pairs(loans.last().1@, loans.last().0, infos, mutable)
    }
}

/// The pairs of the loans live at the points of `loans` with mutability
/// `mutable`.
fn collect_loan_pairs(loans: &Vec<(u32, Vec<u32>)>, infos: &Vec<LoanInfo>, mutable: bool) -> (r: Vec<(u32, u32)>)
    requires
        entry_points_in_table(loans@, u32::MAX as int + 1),
    ensures
        r@ == loan_pairs(loans@, infos@, mutable),
{
    let mut pairs: Vec<(u32, u32)> = Vec::new();
    let mut e: usize = 0;
    while e < loans.len()
        invariant
            e <= loans@.len(),
            pairs@ == loan_pairs(loans@.take(e as int), infos@, mutable),
        decreases loans@.len() - e,
    {
        proof {
            assert(loans@.take(e + 1).drop_last() =~= loans@.take(e as int));
            assert(loans@.take(e + 1).last() == loans@[e as int]);
        }
        let p = loans[e].0;
        let bs = &loans[e].1;
        let ghost before = pairs@;
        let mut j: usize = 0;
        while j < bs.len()
            invariant
                j <= bs@.len(),
                pairs@ == before + entry_loan_pairs(bs@.take(j as int), p, infos@, mutable),
            decreases bs@.len() - j,
        {
            proof {
                assert(bs@.take(j + 1).drop_last() =~= bs@.take(j as int));
            }
            match find_loan(infos, bs[j]) {
                Some(inf) => {
                    if inf.mutable == mutable {
                        pairs.push((inf.borrowed, p));
                    }
                },
                None => {},
            }
            j = j + 1;
            proof {
                assert(pairs@ =~= before + entry_loan_pairs(bs@.take(j as int), p, infos@, mutable));
            }
        }
        proof {
            assert(bs@.take(j as int) =~= bs@);
        }
        e = e + 1;
    }
    proof {
        assert(loans@.take(e as int) =~= loans@);
    }
    pairs
}

proof fn lemma_entry_loan_pairs_points(bs: Seq<u32>, p: u32, infos: Seq<LoanInfo>, mutable: bool, n: int)
    requires
        p < n,
    ensures
        points_in_table(entry_loan_pairs(bs, p, infos, mutable), n),
    decreases bs.len(),
{
    if bs.len() > 0 {
        lemma_entry_loan_pairs_points(bs.drop_last(), p, infos, mutable, n);
    }
}

proof fn lemma_loan_pairs_points(loans: Seq<(u32, Vec<u32>)>, infos: Seq<LoanInfo>, mutable: bool, n: int)
    requires
        entry_points_in_table(loans, n),
    ensures
        points_in_table(loan_pairs(loans, infos, mutable), n),
    decreases loans.len(),
{
    if loans.len() > 0 {
        lemma_loan_pairs_points(loans.drop_last(), infos, mutable, n);
        assert(loans.last() == loans[loans.len() - 1]);
        lemma_entry_loan_pairs_points(loans.last().1@, loans.last().0, infos, mutable, n);
    }
}

/// The merged ranges where each local is borrowed, shared loans first and
/// then mutable ones: `loan_live_at` gives, for each point, the loans live
/// there, and `infos` what each loan is; locals come in the order they
/// first occur.
pub fn get_borrow_live(
    loan_live_at: &Vec<(u32, Vec<u32>)>,
    infos: &Vec<LoanInfo>,
    table: &Vec<RichLocation>,
    basic_blocks: &[MirBasicBlock],
) -> (r: (Vec<(u32, Vec<Range>)>, Vec<(u32, Vec<Range>)>))
    requires
        entry_points_in_table(loan_live_at@, table@.len() as int),
    ensures
        r.0@.len() == grouped(loan_pairs(loan_live_at@, infos@, false), table@).len(),
        forall|i: int|
            0 <= i < r.0@.len() ==> (#[trigger] r.0@[i]).0 == grouped(loan_pairs(loan_live_at@, infos@, false), table@)[i].0
                && merged_ranges_of(basic_blocks@, grouped(loan_pairs(loan_live_at@, infos@, false), table@)[i].1, r.0@[i].1@),
        r.1@.len() == grouped(loan_pairs(loan_live_at@, infos@, true), table@).len(),
        forall|i: int|
            0 <= i < r.1@.len() ==> (#[trigger] r.1@[i]).0 == grouped(loan_pairs(loan_live_at@, infos@, true), table@)[i].0
                && merged_ranges_of(basic_blocks@, grouped(loan_pairs(loan_live_at@, infos@, true), table@)[i].1, r.1@[i].1@),
{
    proof {
        assert forall|k: int| 0 <= k < loan_live_at@.len() implies (#[trigger] loan_live_at@[k]).0 < u32::MAX as int + 1 by {}
        lemma_loan_pairs_points(loan_live_at@, infos@, false, table@.len() as int);
        lemma_loan_pairs_points(loan_live_at@, infos@, true, table@.len() as int);
    }
    let shared = collect_loan_pairs(loan_live_at, infos, false);
    let mutable = collect_loan_pairs(loan_live_at, infos, true);
    (ranges_by_local(&shared, table, basic_blocks), ranges_by_local(&mutable, table, basic_blocks))
}


/// Region `r` is live at point `p`: `origin_live` gives, for each point,
/// the regions live there.
pub open spec fn region_live(origin_live: Seq<(u32, Vec<u32>)>, r: u32, p: u32) -> bool {
    exists|i: int| 0 <= i < origin_live.len() && origin_live[i].0 == p && (#[trigger] origin_live[i]).1@.contains(r)
}

/// Region `r` must be live at point `p`: at `p` some region `sup` that is
/// live there outlives a set of regions (`subset` gives, for each point,
/// each such `sup` with its set), and `r` is `sup` or one of that set.
pub open spec fn region_must(subset: Seq<(u32, Vec<(u32, Vec<u32>)>)>, origin_live: Seq<(u32, Vec<u32>)>, r: u32, p: u32) -> bool {
    exists|i: int, j: int|
        0 <= i < subset.len() && subset[i].0 == p && 0 <= j < subset[i].1@.len() && region_live(
            origin_live,
            (#[trigger] subset[i].1@[j]).0,
            p,
        ) && (subset[i].1@[j].0 == r || subset[i].1@[j].1@.contains(r))
}

/// Region `r` holds loan `b` at some point: `contains` gives, for each
/// point, each region with the loans it holds there.
pub open spec fn region_holds(contains: Seq<(u32, Vec<(u32, Vec<u32>)>)>, r: u32, b: u32) -> bool {
    exists|i: int, j: int|
        0 <= i < contains.len() && 0 <= j < contains[i].1@.len() && (#[trigger] contains[i].1@[j]).0 == r
            && contains[i].1@[j].1@.contains(b)
}

/// The local that loan `b` belongs to: `borrow_locals` gives each local
/// with its loans; a later entry overrides an earlier one.
pub open spec fn owner(borrow_locals: Seq<(u32, Vec<u32>)>, b: u32) -> Option<u32>
    decreases borrow_locals.len(),
{
    if borrow_locals.len() == 0 {
        None
    } else if borrow_locals.last().1@.contains(b) {
        Some(borrow_locals.last().0)
    } else {
        owner(borrow_locals.drop_last(), b)
    }
}

/// Region `r` holds, at some point, a loan of local `l`.
pub open spec fn holds_loan_of(borrow_locals: Seq<(u32, Vec<u32>)>, contains: Seq<(u32, Vec<(u32, Vec<u32>)>)>, r: u32, l: u32) -> bool {
    exists|b: u32| owner(borrow_locals, b) == Some(l) && #[trigger] region_holds(contains, r, b)
}

/// Local `l` must live at point `p`: some region that must be live at `p`
/// holds one of its loans.
pub open spec fn local_must(
    borrow_locals: Seq<(u32, Vec<u32>)>,
    origin_live: Seq<(u32, Vec<u32>)>,
    subset: Seq<(u32, Vec<(u32, Vec<u32>)>)>,
    contains: Seq<(u32, Vec<(u32, Vec<u32>)>)>,
    l: u32,
    p: u32,
) -> bool {
    exists|r: u32| region_must(subset, origin_live, r, p) && #[trigger] holds_loan_of(borrow_locals, contains, r, l)
}

fn contains_u32(v: &Vec<u32>, x: u32) -> (r: bool)
    ensures
        r == v@.contains(x),
{
    let mut i: usize = 0;
    while i < v.len()
        invariant
            i <= v@.len(),
            forall|j: int| 0 <= j < i ==> v@[j] != x,
        decreases v@.len() - i,
    {
        if v[i] == x {
            proof {
                assert(v@[i as int] == x);
            }
            return true;
        }
        i = i + 1;
    }
    false
}

fn region_live_exec(origin_live: &Vec<(u32, Vec<u32>)>, r: u32, p: u32) -> (res: bool)
    ensures
        res == region_live(origin_live@, r, p),
{
    let mut i: usize = 0;
    while i < origin_live.len()
        invariant
            i <= origin_live@.len(),
            forall|k: int| 0 <= k < i ==> !(origin_live@[k].0 == p && (#[trigger] origin_live@[k]).1@.contains(r)),
        decreases origin_live@.len() - i,
    {
        if origin_live[i].0 == p && contains_u32(&origin_live[i].1, r) {
            return true;
        }
        i = i + 1;
    }
    false
}

fn owner_exec(borrow_locals: &Vec<(u32, Vec<u32>)>, b: u32) -> (r: Option<u32>)
    ensures
        r == owner(borrow_locals@, b),
{
    let mut k: usize = borrow_locals.len();
    proof {
        lemma_owner_take(borrow_locals@, b);
    }
    while k > 0
        invariant
            k <= borrow_locals@.len(),
            owner(borrow_locals@, b) == owner(borrow_locals@.take(k as int), b),
        decreases k,
    {
        proof {
            assert(borrow_locals@.take(k as int).drop_last() =~= borrow_locals@.take(k - 1));
            assert(borrow_locals@.take(k as int).last() == borrow_locals@[k - 1]);
        }
        if contains_u32(&borrow_locals[k - 1].1, b) {
            return Some(borrow_locals[k - 1].0);
        }
        k = k - 1;
    }
    proof {
        assert(borrow_locals@.take(0) =~= Seq::<(u32, Vec<u32>)>::empty());
    }
    None
}

proof fn lemma_owner_take(borrow_locals: Seq<(u32, Vec<u32>)>, b: u32)
    ensures
        owner(borrow_locals, b) == owner(borrow_locals.take(borrow_locals.len() as int), b),
{
    assert(borrow_locals.take(borrow_locals.len() as int) =~= borrow_locals);
}

fn holds_loan_of_exec(
    borrow_locals: &Vec<(u32, Vec<u32>)>,
    contains: &Vec<(u32, Vec<(u32, Vec<u32>)>)>,
    r: u32,
    l: u32,
) -> (res: bool)
    ensures
        res == holds_loan_of(borrow_locals@, contains@, r, l),
{
    let mut i: usize = 0;
    while i < contains.len()
        invariant
            i <= contains@.len(),
            forall|b: u32, i2: int, j2: int|
                0 <= i2 < i && 0 <= j2 < contains@[i2].1@.len() && contains@[i2].1@[j2].0 == r
                    && (#[trigger] contains@[i2].1@[j2].1@.contains(b)) ==> owner(borrow_locals@, b) != Some(l),
        decreases contains@.len() - i,
    {
        let regions = &contains[i].1;
        let mut j: usize = 0;
        while j < regions.len()
            invariant
                i < contains@.len(),
                *regions == contains@[i as int].1,
                j <= regions@.len(),
                forall|b: u32, i2: int, j2: int|
                    0 <= i2 < i && 0 <= j2 < contains@[i2].1@.len() && contains@[i2].1@[j2].0 == r
                        && (#[trigger] contains@[i2].1@[j2].1@.contains(b)) ==> owner(borrow_locals@, b) != Some(l),
                forall|b: u32, j2: int|
                    0 <= j2 < j && regions@[j2].0 == r && (#[trigger] regions@[j2].1@.contains(b)) ==> owner(
                        borrow_locals@,
                        b,
                    ) != Some(l),
            decreases regions@.len() - j,
        {
            if regions[j].0 == r {
                let bs = &regions[j].1;
                let mut k: usize = 0;
                while k < bs.len()
                    invariant
                        i < contains@.len(),
                        j < regions@.len(),
                        *regions == contains@[i as int].1,
                        *bs == regions@[j as int].1,
                        regions@[j as int].0 == r,
                        k <= bs@.len(),
                        forall|t: int| 0 <= t < k ==> owner(borrow_locals@, #[trigger] bs@[t]) != Some(l),
                    decreases bs@.len() - k,
                {
                    if owner_exec(borrow_locals, bs[k]) == Some(l) {
                        proof {
                            let b = bs@[k as int];
                            assert(contains@[i as int].1@[j as int].1@.contains(b)) by {
                                assert(bs@[k as int] == b);
                            }
                            assert(region_holds(contains@, r, b));
                        }
                        return true;
                    }
                    k = k + 1;
                }
                proof {
                    assert forall|b: u32| bs@.contains(b) implies owner(borrow_locals@, b) != Some(l) by {
                        let t = choose|t: int| 0 <= t < bs@.len() && bs@[t] == b;
                        assert(owner(borrow_locals@, bs@[t]) != Some(l));
                    }
                }
            }
            j = j + 1;
        }
        i = i + 1;
    }
    proof {
        if holds_loan_of(borrow_locals@, contains@, r, l) {
            let b = choose|b: u32| owner(borrow_locals@, b) == Some(l) && #[trigger] region_holds(contains@, r, b);
            let (i2, j2) = choose|i2: int, j2: int|
                0 <= i2 < contains@.len() && 0 <= j2 < contains@[i2].1@.len() && (#[trigger] contains@[i2].1@[j2]).0 == r
                    && contains@[i2].1@[j2].1@.contains(b);
            assert(owner(borrow_locals@, b) != Some(l));
        }
    }
    false
}

/// The distinct locals of `borrow_locals`, in the order they first occur.
pub open spec fn distinct_in_order(s: Seq<u32>) -> bool {
    forall|i: int, j: int| 0 <= i < j < s.len() ==> s[i] != s[j]
}

/// At entry `(i, j)` of `subset`, the `sup` region is live and it or one of
/// its set holds a loan of `l`.
pub open spec fn entry_says_must(
    borrow_locals: Seq<(u32, Vec<u32>)>,
    origin_live: Seq<(u32, Vec<u32>)>,
    subset: Seq<(u32, Vec<(u32, Vec<u32>)>)>,
    contains: Seq<(u32, Vec<(u32, Vec<u32>)>)>,
    l: u32,
    i: int,
    j: int,
) -> bool {
    let (sup, subs) = subset[i].1@[j];
    &&& region_live(origin_live, sup, subset[i].0)
    &&& (holds_loan_of(borrow_locals, contains, sup, l) || exists|k: int|
        0 <= k < subs@.len() && holds_loan_of(borrow_locals, contains, #[trigger] subs@[k], l))
}

/// Local `l` must live at point `p` exactly where some entry of `subset`
/// at `p` says so.
proof fn lemma_local_must_entries(
    borrow_locals: Seq<(u32, Vec<u32>)>,
    origin_live: Seq<(u32, Vec<u32>)>,
    subset: Seq<(u32, Vec<(u32, Vec<u32>)>)>,
    contains: Seq<(u32, Vec<(u32, Vec<u32>)>)>,
    l: u32,
    p: u32,
)
    ensures
        local_must(borrow_locals, origin_live, subset, contains, l, p) <==> exists|i: int, j: int|
            0 <= i < subset.len() && subset[i].0 == p && 0 <= j < subset[i].1@.len()
                && #[trigger] entry_says_must(borrow_locals, origin_live, subset, contains, l, i, j),
{
    if local_must(borrow_locals, origin_live, subset, contains, l, p) {
        let r = choose|r: u32| region_must(subset, origin_live, r, p) && #[trigger] holds_loan_of(borrow_locals, contains, r, l);
        let (i, j) = choose|i: int, j: int|
            0 <= i < subset.len() && subset[i].0 == p && 0 <= j < subset[i].1@.len() && region_live(
                origin_live,
                (#[trigger] subset[i].1@[j]).0,
                p,
            ) && (subset[i].1@[j].0 == r || subset[i].1@[j].1@.contains(r));
        let subs = subset[i].1@[j].1;
        if subset[i].1@[j].0 != r {
            let k = choose|k: int| 0 <= k < subs@.len() && subs@[k] == r;
            assert(holds_loan_of(borrow_locals, contains, subs@[k], l));
        }
        assert(entry_says_must(borrow_locals, origin_live, subset, contains, l, i, j));
    }
    if exists|i: int, j: int|
        0 <= i < subset.len() && subset[i].0 == p && 0 <= j < subset[i].1@.len()
            && #[trigger] entry_says_must(borrow_locals, origin_live, subset, contains, l, i, j) {
        let (i, j) = choose|i: int, j: int|
            0 <= i < subset.len() && subset[i].0 == p && 0 <= j < subset[i].1@.len()
                && #[trigger] entry_says_must(borrow_locals, origin_live, subset, contains, l, i, j);
        let (sup, subs) = subset[i].1@[j];
        if holds_loan_of(borrow_locals, contains, sup, l) {
            assert(region_must(subset, origin_live, sup, p));
        } else {
            let k = choose|k: int| 0 <= k < subs@.len() && holds_loan_of(borrow_locals, contains, #[trigger] subs@[k], l);
            assert(subs@.contains(subs@[k]));
            assert(region_must(subset, origin_live, subs@[k], p));
        }
    }
}


/// Some entry of `subset` before entry `(i, j)` is at point `q` and says
/// that `l` must live there.
pub open spec fn seen_must(
    borrow_locals: Seq<(u32, Vec<u32>)>,
    origin_live: Seq<(u32, Vec<u32>)>,
    subset: Seq<(u32, Vec<(u32, Vec<u32>)>)>,
    contains: Seq<(u32, Vec<(u32, Vec<u32>)>)>,
    l: u32,
    i: int,
    j: int,
    q: u32,
) -> bool {
    exists|i2: int, j2: int|
        0 <= i2 < subset.len() && 0 <= j2 < subset[i2].1@.len() && (i2 < i || (i2 == i && j2 < j))
            && subset[i2].0 == q && #[trigger] entry_says_must(borrow_locals, origin_live, subset, contains, l, i2, j2)
}

proof fn lemma_owner_is_key(borrow_locals: Seq<(u32, Vec<u32>)>, b: u32, l: u32)
    requires
        owner(borrow_locals, b) == Some(l),
    ensures
        exists|i: int| 0 <= i < borrow_locals.len() && (#[trigger] borrow_locals[i]).0 == l,
    decreases borrow_locals.len(),
{
    if !borrow_locals.last().1@.contains(b) {
        lemma_owner_is_key(borrow_locals.drop_last(), b, l);
        let i = choose|i: int| 0 <= i < borrow_locals.drop_last().len() && (#[trigger] borrow_locals.drop_last()[i]).0 == l;
        assert(borrow_locals[i] == borrow_locals.drop_last()[i]);
    } else {
        assert(borrow_locals[borrow_locals.len() - 1].0 == l);
    }
}

proof fn lemma_seen_step(
    bl: Seq<(u32, Vec<u32>)>,
    olo: Seq<(u32, Vec<u32>)>,
    sub: Seq<(u32, Vec<(u32, Vec<u32>)>)>,
    con: Seq<(u32, Vec<(u32, Vec<u32>)>)>,
    l: u32,
    i: int,
    j: int,
    q: u32,
    p: u32,
    hit: bool,
)
    requires
        0 <= i < sub.len(),
        0 <= j < sub[i].1@.len(),
        p == sub[i].0,
        hit == entry_says_must(bl, olo, sub, con, l, i, j),
    ensures
        seen_must(bl, olo, sub, con, l, i, j + 1, q) <==> (seen_must(bl, olo, sub, con, l, i, j, q) || (hit && q == p)),
{
    if seen_must(bl, olo, sub, con, l, i, j + 1, q) {
        let (i2, j2) = choose|i2: int, j2: int|
            0 <= i2 < sub.len() && 0 <= j2 < sub[i2].1@.len() && (i2 < i || (i2 == i && j2 < j + 1)) && sub[i2].0 == q
                && #[trigger] entry_says_must(bl, olo, sub, con, l, i2, j2);
        if !(i2 == i && j2 == j) {
            assert(seen_must(bl, olo, sub, con, l, i, j, q));
        }
    }
    if seen_must(bl, olo, sub, con, l, i, j, q) {
        let (i2, j2) = choose|i2: int, j2: int|
            0 <= i2 < sub.len() && 0 <= j2 < sub[i2].1@.len() && (i2 < i || (i2 == i && j2 < j)) && sub[i2].0 == q
                && #[trigger] entry_says_must(bl, olo, sub, con, l, i2, j2);
        assert(seen_must(bl, olo, sub, con, l, i, j + 1, q));
    }
    if hit && q == p {
        assert(entry_says_must(bl, olo, sub, con, l, i, j));
        assert(seen_must(bl, olo, sub, con, l, i, j + 1, q));
    }
}

/// The points at which local `l` must live (see `local_must`), each once.
fn must_points(
    borrow_locals: &Vec<(u32, Vec<u32>)>,
    origin_live: &Vec<(u32, Vec<u32>)>,
    subset: &Vec<(u32, Vec<(u32, Vec<u32>)>)>,
    contains: &Vec<(u32, Vec<(u32, Vec<u32>)>)>,
    l: u32,
) -> (r: Vec<u32>)
    ensures
        distinct_in_order(r@),
        forall|q: u32| r@.contains(q) <==> local_must(borrow_locals@, origin_live@, subset@, contains@, l, q),
{
    let ghost bl = borrow_locals@;
    let ghost olo = origin_live@;
    let ghost sub = subset@;
    let ghost con = contains@;
    let mut pts: Vec<u32> = Vec::new();
    let mut i: usize = 0;
    while i < subset.len()
        invariant
            i <= sub.len(),
            bl == borrow_locals@,
            olo == origin_live@,
            sub == subset@,
            con == contains@,
            distinct_in_order(pts@),
            forall|q: u32| pts@.contains(q) <==> seen_must(bl, olo, sub, con, l, i as int, 0, q),
        decreases sub.len() - i,
    {
        let p = subset[i].0;
        let sups = &subset[i].1;
        let mut j: usize = 0;
        proof {
            assert forall|q: u32| seen_must(bl, olo, sub, con, l, i as int, 0, q) <==> seen_must(bl, olo, sub, con, l, i as int, j as int, q) by {}
        }
        while j < sups.len()
            invariant
                i < sub.len(),
                bl == borrow_locals@,
                olo == origin_live@,
                sub == subset@,
                con == contains@,
                p == sub[i as int].0,
                *sups == sub[i as int].1,
                j <= sups@.len(),
                distinct_in_order(pts@),
                forall|q: u32| pts@.contains(q) <==> seen_must(bl, olo, sub, con, l, i as int, j as int, q),
            decreases sups@.len() - j,
        {
            let sup = sups[j].0;
            let subs = &sups[j].1;
            let mut hit = false;
            if region_live_exec(origin_live, sup, p) {
                hit = holds_loan_of_exec(borrow_locals, contains, sup, l);
                let mut k: usize = 0;
                while k < subs.len() && !hit
                    invariant
                        k <= subs@.len(),
                        hit ==> ((exists|t: int| 0 <= t < subs@.len() && holds_loan_of(bl, con, #[trigger] subs@[t], l))
                            || holds_loan_of(bl, con, sup, l)),
                        !hit ==> !holds_loan_of(bl, con, sup, l) && forall|t: int| 0 <= t < k ==> !holds_loan_of(bl, con, #[trigger] subs@[t], l),
                        bl == borrow_locals@,
                        con == contains@,
                    decreases subs@.len() - k,
                {
                    hit = holds_loan_of_exec(borrow_locals, contains, subs[k], l);
                    k = k + 1;
                }
            }
            proof {
                assert(sub[i as int].1@[j as int] == (sup, *subs));
                assert(hit == entry_says_must(bl, olo, sub, con, l, i as int, j as int));
            }
            let ghost old_pts = pts@;
            let already = contains_u32(&pts, p);
            if hit && !already {
                pts.push(p);
                proof {
                    assert(pts@[pts@.len() - 1] == p);
                    assert forall|a: int, b: int| 0 <= a < b < pts@.len() implies pts@[a] != pts@[b] by {
                        if b == pts@.len() - 1 {
                            assert(old_pts[a] == pts@[a]);
                            assert(old_pts.contains(old_pts[a]));
                        } else {
                            assert(old_pts[a] == pts@[a] && old_pts[b] == pts@[b]);
                        }
                    }
                }
            }
            proof {
                assert forall|q: u32| pts@.contains(q) <==> (old_pts.contains(q) || (hit && q == p)) by {
                    if pts@.contains(q) {
                        let t = choose|t: int| 0 <= t < pts@.len() && pts@[t] == q;
                        if t < old_pts.len() {
                            assert(old_pts[t] == q);
                        }
                    }
                    if old_pts.contains(q) {
                        let t = choose|t: int| 0 <= t < old_pts.len() && old_pts[t] == q;
                        assert(pts@[t] == q);
                    }
                }
            }
            proof {
                assert forall|q: u32| pts@.contains(q) <==> seen_must(bl, olo, sub, con, l, i as int, j + 1, q) by {
                    lemma_seen_step(bl, olo, sub, con, l, i as int, j as int, q, p, hit);
                    assert(old_pts.contains(q) <==> seen_must(bl, olo, sub, con, l, i as int, j as int, q));
                }
            }
            j = j + 1;
        }
        proof {
            assert forall|q: u32| seen_must(bl, olo, sub, con, l, i as int, j as int, q) <==> seen_must(bl, olo, sub, con, l, i + 1, 0, q) by {
                if seen_must(bl, olo, sub, con, l, i + 1, 0, q) {
                    let (i2, j2) = choose|i2: int, j2: int|
                        0 <= i2 < sub.len() && 0 <= j2 < sub[i2].1@.len() && (i2 < i + 1 || (i2 == i + 1 && j2 < 0))
                            && sub[i2].0 == q && #[trigger] entry_says_must(bl, olo, sub, con, l, i2, j2);
                    assert(i2 < i || (i2 == i && j2 < j));
                }
            }
        }
        i = i + 1;
    }
    proof {
        assert forall|q: u32| pts@.contains(q) <==> local_must(bl, olo, sub, con, l, q) by {
            lemma_local_must_entries(bl, olo, sub, con, l, q);
            if local_must(bl, olo, sub, con, l, q) {
                let (i2, j2) = choose|i2: int, j2: int|
                    0 <= i2 < sub.len() && sub[i2].0 == q && 0 <= j2 < sub[i2].1@.len()
                        && #[trigger] entry_says_must(bl, olo, sub, con, l, i2, j2);
                assert(seen_must(bl, olo, sub, con, l, i as int, 0, q));
            }
        }
    }
    pts
}


/// A point at which some local must live is a point of `subset`.
proof fn lemma_must_point_in_subset(
    borrow_locals: Seq<(u32, Vec<u32>)>,
    origin_live: Seq<(u32, Vec<u32>)>,
    subset: Seq<(u32, Vec<(u32, Vec<u32>)>)>,
    contains: Seq<(u32, Vec<(u32, Vec<u32>)>)>,
    l: u32,
    q: u32,
)
    requires
        local_must(borrow_locals, origin_live, subset, contains, l, q),
    ensures
        exists|i: int| 0 <= i < subset.len() && (#[trigger] subset[i]).0 == q,
        exists|i: int| 0 <= i < borrow_locals.len() && (#[trigger] borrow_locals[i]).0 == l,
{
    let r = choose|r: u32| region_must(subset, origin_live, r, q) && #[trigger] holds_loan_of(borrow_locals, contains, r, l);
    let (i, j) = choose|i: int, j: int|
        0 <= i < subset.len() && subset[i].0 == q && 0 <= j < subset[i].1@.len() && region_live(
            origin_live,
            (#[trigger] subset[i].1@[j]).0,
            q,
        ) && (subset[i].1@[j].0 == r || subset[i].1@[j].1@.contains(r));
    assert(subset[i].0 == q);
    let b = choose|b: u32| owner(borrow_locals, b) == Some(l) && #[trigger] region_holds(contains, r, b);
    lemma_owner_is_key(borrow_locals, b, l);
}

/// Local `l` must live at some point.
pub open spec fn must_live_somewhere(
    borrow_locals: Seq<(u32, Vec<u32>)>,
    origin_live: Seq<(u32, Vec<u32>)>,
    subset: Seq<(u32, Vec<(u32, Vec<u32>)>)>,
    contains: Seq<(u32, Vec<(u32, Vec<u32>)>)>,
    l: u32,
) -> bool {
    exists|q: u32| #[trigger] local_must(borrow_locals, origin_live, subset, contains, l, q)
}

/// The locations of points `pts`.
pub open spec fn point_locations(pts: Seq<u32>, table: Seq<RichLocation>) -> Seq<RichLocation> {
    pts.map_values(|q: u32| table[q as int])
}

/// Every point of `subset` has a location in the table.
pub open spec fn subset_points_in_table(subset: Seq<(u32, Vec<(u32, Vec<u32>)>)>, n: int) -> bool {
    forall|i: int| 0 <= i < subset.len() ==> (#[trigger] subset[i]).0 < n
}

/// `rs` are the merged ranges of the locations of the points at which
/// local `l` must live.
pub open spec fn must_live_ranges(
    borrow_locals: Seq<(u32, Vec<u32>)>,
    origin_live: Seq<(u32, Vec<u32>)>,
    subset: Seq<(u32, Vec<(u32, Vec<u32>)>)>,
    contains: Seq<(u32, Vec<(u32, Vec<u32>)>)>,
    table: Seq<RichLocation>,
    bbs: Seq<MirBasicBlock>,
    l: u32,
    rs: Seq<Range>,
) -> bool {
    exists|pts: Seq<u32>|
        distinct_in_order(pts) && (forall|q: u32| #[trigger] pts.contains(q) <==> local_must(borrow_locals, origin_live, subset, contains, l, q))
            && #[trigger] merged_ranges_of(bbs, point_locations(pts, table), rs)
}

/// For each local that must live somewhere, the merged ranges of the points
/// at which it must (see `local_must`); each local once. `borrow_locals`
/// gives each local with its loans, `origin_live` each point with the
/// regions live there, `subset` each point with the regions that outlive
/// others there, `contains` each point with the loans each region holds.
pub fn get_must_live(
    borrow_locals: &Vec<(u32, Vec<u32>)>,
    origin_live: &Vec<(u32, Vec<u32>)>,
    subset: &Vec<(u32, Vec<(u32, Vec<u32>)>)>,
    contains: &Vec<(u32, Vec<(u32, Vec<u32>)>)>,
    table: &Vec<RichLocation>,
    basic_blocks: &[MirBasicBlock],
) -> (r: Vec<(u32, Vec<Range>)>)
    requires
        subset_points_in_table(subset@, table@.len() as int),
    ensures
        forall|i: int, j: int| 0 <= i < j < r@.len() ==> r@[i].0 != r@[j].0,
        forall|l: u32|
            (exists|i: int| 0 <= i < r@.len() && (#[trigger] r@[i]).0 == l) <==> #[trigger] must_live_somewhere(
                borrow_locals@,
                origin_live@,
                subset@,
                contains@,
                l,
            ),
        forall|i: int|
            0 <= i < r@.len() ==> #[trigger] must_live_ranges(
                borrow_locals@,
                origin_live@,
                subset@,
                contains@,
                table@,
                basic_blocks@,
                r@[i].0,
                r@[i].1@,
            ),
{
    let ghost bl = borrow_locals@;
    let ghost olo = origin_live@;
    let ghost sub = subset@;
    let ghost con = contains@;
    let mut seen: Vec<u32> = Vec::new();
    let mut out: Vec<(u32, Vec<Range>)> = Vec::new();
    let mut e: usize = 0;
    while e < borrow_locals.len()
        invariant
            e <= bl.len(),
            bl == borrow_locals@,
            olo == origin_live@,
            sub == subset@,
            con == contains@,
            subset_points_in_table(sub, table@.len() as int),
            forall|l: u32| seen@.contains(l) <==> exists|k: int| 0 <= k < e && (#[trigger] bl[k]).0 == l,
            forall|i: int, j: int| 0 <= i < j < out@.len() ==> out@[i].0 != out@[j].0,
            forall|i: int| 0 <= i < out@.len() ==> seen@.contains(#[trigger] out@[i].0),
            forall|l: u32|
                #[trigger] seen@.contains(l) ==> ((exists|i: int| 0 <= i < out@.len() && (#[trigger] out@[i]).0 == l)
                    <==> must_live_somewhere(bl, olo, sub, con, l)),
            forall|i: int|
                0 <= i < out@.len() ==> #[trigger] must_live_ranges(bl, olo, sub, con, table@, basic_blocks@, out@[i].0, out@[i].1@),
        decreases bl.len() - e,
    {
        let l = borrow_locals[e].0;
        let ghost seen0 = seen@;
        let ghost out0 = out@;
        let already = contains_u32(&seen, l);
        if !already {
            seen.push(l);
            let pts = must_points(borrow_locals, origin_live, subset, contains, l);
            if pts.len() > 0 {
                let mut locs: Vec<RichLocation> = Vec::new();
                let mut k: usize = 0;
                while k < pts.len()
                    invariant
                        k <= pts@.len(),
                        sub == subset@,
                        subset_points_in_table(sub, table@.len() as int),
                        forall|q: u32| pts@.contains(q) <==> local_must(bl, olo, sub, con, l, q),
                        locs@ == pts@.take(k as int).map_values(|q: u32| table@[q as int]),
                    decreases pts@.len() - k,
                {
                    let q = pts[k];
                    proof {
                        assert(pts@.contains(q));
                        lemma_must_point_in_subset(bl, olo, sub, con, l, q);
                    }
                    locs.push(table[q as usize]);
                    k = k + 1;
                    proof {
                        assert(locs@ =~= pts@.take(k as int).map_values(|q: u32| table@[q as int]));
                    }
                }
                proof {
                    assert(pts@.take(k as int) =~= pts@);
                }
                let r0 = rich_locations_to_ranges(basic_blocks, locs.as_slice());
                let rs = eliminated_ranges(r0);
                proof {
                    assert(merged_ranges_of(basic_blocks@, point_locations(pts@, table@), rs@));
                    assert(must_live_ranges(bl, olo, sub, con, table@, basic_blocks@, l, rs@));
                    assert(pts@.contains(pts@[0]));
                    assert(must_live_somewhere(bl, olo, sub, con, l));
                }
                out.push((l, rs));
                proof {
                    assert(out@ == out0.push((l, rs)));
                }
            } else {
                proof {
                    assert forall|q: u32| !local_must(bl, olo, sub, con, l, q) by {
                        if local_must(bl, olo, sub, con, l, q) {
                            assert(pts@.contains(q));
                        }
                    }
                    assert(!must_live_somewhere(bl, olo, sub, con, l));
                }
            }
            proof {
                assert(seen@ == seen0.push(l));
                assert(!seen0.contains(l));
                assert forall|i: int| 0 <= i < out0.len() implies out0[i].0 != l by {
                    assert(seen0.contains(out0[i].0));
                }
                assert forall|l2: u32| #[trigger] seen@.contains(l2) implies ((exists|i: int|
                    0 <= i < out@.len() && (#[trigger] out@[i]).0 == l2) <==> must_live_somewhere(bl, olo, sub, con, l2)) by {
                    if l2 == l {
                        if must_live_somewhere(bl, olo, sub, con, l) {
                            assert(out@[out@.len() - 1].0 == l);
                        } else {
                            assert(out@ == out0);
                        }
                    } else {
                        assert(seen0.contains(l2));
                        if exists|i: int| 0 <= i < out@.len() && (#[trigger] out@[i]).0 == l2 {
                            let i = choose|i: int| 0 <= i < out@.len() && (#[trigger] out@[i]).0 == l2;
                            assert(out0[i].0 == l2);
                        }
                        if exists|i: int| 0 <= i < out0.len() && (#[trigger] out0[i]).0 == l2 {
                            let i = choose|i: int| 0 <= i < out0.len() && (#[trigger] out0[i]).0 == l2;
                            assert(out@[i].0 == l2);
                        }
                    }
                }
                assert forall|i: int| 0 <= i < out@.len() implies seen@.contains(#[trigger] out@[i].0) by {
                    if i < out0.len() {
                        assert(out@[i] == out0[i]);
                        assert(seen0.contains(out0[i].0));
                        let t = choose|t: int| 0 <= t < seen0.len() && seen0[t] == out0[i].0;
                        assert(seen@[t] == out0[i].0);
                    } else {
                        assert(out@[i].0 == l);
                        assert(seen@[seen@.len() - 1] == l);
                    }
                }
                assert forall|i: int, j: int| 0 <= i < j < out@.len() implies out@[i].0 != out@[j].0 by {
                    if j >= out0.len() {
                        assert(out@[i] == out0[i]);
                    } else {
                        assert(out@[i] == out0[i] && out@[j] == out0[j]);
                    }
                }
                assert forall|i: int| 0 <= i < out@.len() implies #[trigger] must_live_ranges(bl, olo, sub, con, table@, basic_blocks@, out@[i].0, out@[i].1@) by {
                    if i < out0.len() {
                        assert(out@[i] == out0[i]);
                    }
                }
            }
        }
        proof {
            assert forall|l2: u32| seen@.contains(l2) <==> exists|k: int| 0 <= k < e + 1 && (#[trigger] bl[k]).0 == l2 by {
                if seen@.contains(l2) && !seen0.contains(l2) {
                    assert(bl[e as int].0 == l2);
                }
                if exists|k: int| 0 <= k < e + 1 && (#[trigger] bl[k]).0 == l2 {
                    let k = choose|k: int| 0 <= k < e + 1 && (#[trigger] bl[k]).0 == l2;
                    if k < e {
                        assert(seen0.contains(l2));
                    } else if !already {
                        assert(seen@[seen@.len() - 1] == l2);
                    }
                    if !already {
                        if seen0.contains(l2) {
                            let t = choose|t: int| 0 <= t < seen0.len() && seen0[t] == l2;
                            assert(seen@[t] == l2);
                        }
                    }
                    assert(seen@.contains(l2));
                }
            }
        }
        e = e + 1;
    }
    proof {
        assert forall|l: u32| #[trigger] must_live_somewhere(bl, olo, sub, con, l) implies seen@.contains(l) by {
            let q = choose|q: u32| #[trigger] local_must(bl, olo, sub, con, l, q);
            lemma_must_point_in_subset(bl, olo, sub, con, l, q);
        }
    }
    out
}

} // verus!
