use rustowl::liveness::{drop_range, get_accurate_live, get_borrow_live, get_must_live, get_range, LoanInfo};
use rustowl::models::{MirBasicBlock, MirStatement, Range};
use rustowl::transform::{Location, RichLocation};

fn span(from: u32, until: u32) -> Range {
    Range::new(from.into(), until.into()).expect("valid range")
}

fn bounds(ranges: &[Range]) -> Vec<(u32, u32)> {
    ranges.iter().map(|r| (u32::from(r.from()), u32::from(r.until()))).collect()
}

/// One block of two statements; points 0..4 are the start and middle of
/// each statement in turn.
fn body() -> (Vec<MirBasicBlock>, Vec<RichLocation>) {
    let basic_blocks = vec![MirBasicBlock {
        statements: vec![MirStatement::Other { range: span(10, 11) }, MirStatement::Other { range: span(20, 21) }],
        terminator: None,
    }];
    let table = vec![
        RichLocation::Start(Location { block: 0, statement_index: 0 }),
        RichLocation::Mid(Location { block: 0, statement_index: 0 }),
        RichLocation::Start(Location { block: 0, statement_index: 1 }),
        RichLocation::Mid(Location { block: 0, statement_index: 1 }),
    ];
    (basic_blocks, table)
}

fn live_on_entry() -> Vec<(u32, Vec<u32>)> {
    vec![(0, vec![5, 7]), (1, vec![5]), (2, vec![7]), (3, vec![7])]
}

#[test]
fn get_range_groups_points_by_local() {
    let (basic_blocks, table) = body();
    let r = get_range(&live_on_entry(), &table, &basic_blocks);
    assert_eq!(r.len(), 2);
    assert_eq!(r[0].0, 5);
    assert_eq!(bounds(&r[0].1), vec![(10, 11)]);
    assert_eq!(r[1].0, 7);
    assert_eq!(bounds(&r[1].1), vec![(10, 21)]);
}

#[test]
fn accurate_live_and_drop_range_read_their_own_facts() {
    let (basic_blocks, table) = body();
    let live = get_accurate_live(&live_on_entry(), &table, &basic_blocks);
    assert_eq!(live.len(), 2);
    assert_eq!(bounds(&live[1].1), vec![(10, 21)]);
    let drops = drop_range(&vec![(2, vec![9]), (3, vec![9])], &table, &basic_blocks);
    assert_eq!(drops.len(), 1);
    assert_eq!(drops[0].0, 9);
    assert_eq!(bounds(&drops[0].1), vec![(20, 21)]);
}

#[test]
fn get_range_of_nothing_is_empty() {
    let (basic_blocks, table) = body();
    assert!(get_range(&Vec::new(), &table, &basic_blocks).is_empty());
}

#[test]
fn get_borrow_live_splits_shared_and_mutable_loans() {
    let (basic_blocks, table) = body();
    let infos = vec![
        LoanInfo { loan: 1, mutable: false, borrowed: 5 },
        LoanInfo { loan: 2, mutable: true, borrowed: 7 },
    ];
    let loan_live_at = vec![(0, vec![1]), (1, vec![1, 3]), (2, vec![2]), (3, vec![2])];
    let (shared, mutable) = get_borrow_live(&loan_live_at, &infos, &table, &basic_blocks);
    assert_eq!(shared.len(), 1);
    assert_eq!(shared[0].0, 5);
    assert_eq!(bounds(&shared[0].1), vec![(10, 11)]);
    assert_eq!(mutable.len(), 1);
    assert_eq!(mutable[0].0, 7);
    assert_eq!(bounds(&mutable[0].1), vec![(20, 21)]);
}

#[test]
fn get_must_live_follows_live_regions_to_their_loans() {
    let (basic_blocks, table) = body();
    let borrow_locals = vec![(5, vec![1]), (7, vec![2])];
    let origin_live = vec![(0, vec![10]), (1, vec![10]), (2, vec![11])];
    let subset = vec![
        (0, vec![(10, vec![12])]),
        (1, vec![(10, Vec::new())]),
        (2, vec![(11, Vec::new())]),
        (3, vec![(13, vec![12])]),
    ];
    let contains = vec![(0, vec![(12, vec![1]), (10, vec![1])]), (1, vec![(11, vec![2])])];
    let r = get_must_live(&borrow_locals, &origin_live, &subset, &contains, &table, &basic_blocks);
    assert_eq!(r.len(), 2);
    assert_eq!(r[0].0, 5);
    assert_eq!(bounds(&r[0].1), vec![(10, 11)]);
    assert_eq!(r[1].0, 7);
    assert!(r[1].1.is_empty());
}

#[test]
fn get_must_live_skips_regions_that_are_not_live() {
    let (basic_blocks, table) = body();
    let borrow_locals = vec![(5, vec![1])];
    let subset = vec![(0, vec![(10, vec![12])])];
    let contains = vec![(0, vec![(12, vec![1])])];
    let r = get_must_live(&borrow_locals, &Vec::new(), &subset, &contains, &table, &basic_blocks);
    assert!(r.is_empty());
}
