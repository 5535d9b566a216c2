use rustowl::analysis::{
    check_args, on_cargo_message, progress_report, trim_line_end, AnalyzerEvent, CargoCheckMessage,
    CargoCheckMessageTarget, CheckProgress,
};
use rustowl::analyze::{erase_superset, range_from_span, rich_locations_to_ranges, sort_locs, statement_location_to_range};
use rustowl::backend::{cursor_status, decos, final_status, next_token_key, AnalysisStatus};
use rustowl::dataflow::{get_definitely_lives, get_maybe_initialized, walk_cfg, FlowBlock, LocalStateVariant, LocalStates, StateSet};
use rustowl::decoration::{CalcDecos, Deco, SelectLocal, SelectReason};
use rustowl::mir::{BasicBlockId, MirOperand, MirPlace, MirRval, MirStatement as FlowStatement};
use rustowl::mir::{MirStatementKind, MirTerminator as FlowTerminator, MirTerminatorKind};
use rustowl::models::{Crate, File, FnLocal, FoldIndexMap, Function, Loc, MirBasicBlock, MirDecl, MirStatement, MirTerminator, Range, Workspace};
use rustowl::transform::{Location, LocationRanges, RichLocation};
use rustowl::utils::{index_to_line_char, line_char_to_index, MirVisitor};
use rustowl::visualize::{deco_type, legend, DecoType, VisualizeError};

fn mk_range(from: u32, until: u32) -> Range {
    Range::new(from.into(), until.into()).expect("valid range")
}

fn user_decl(local: FnLocal, name: &str, lives: Vec<Range>, drop_range: Vec<Range>, span: Range) -> MirDecl {
    MirDecl::User {
        local,
        name: name.to_string(),
        span,
        ty: "i32".to_string(),
        lives,
        shared_borrow: Vec::new(),
        mutable_borrow: Vec::new(),
        drop: false,
        drop_range,
        must_live_at: Vec::new(),
    }
}

#[test]
fn sort_locs_sorts_by_block_then_statement_index() {
    let mut locs = vec![(2, 1), (1, 99), (1, 3), (0, 5), (2, 0)];
    sort_locs(&mut locs);
    assert_eq!(locs, vec![(0, 5), (1, 3), (1, 99), (2, 0), (2, 1)]);
}

#[test]
fn range_from_span_indexed_handles_offset_and_unicode() {
    let src = "aéb";
    let range = range_from_span(src, 1, 3, 0).expect("valid range");
    assert_eq!(u32::from(range.from()), 1);
    assert_eq!(u32::from(range.until()), 2);

    let range = range_from_span(src, 3, 4, 1).expect("valid range");
    assert_eq!(u32::from(range.from()), 1);
    assert_eq!(u32::from(range.until()), 2);
}

#[test]
fn rich_locations_to_ranges_pairs_start_and_mid() {
    let basic_blocks = vec![MirBasicBlock {
        statements: vec![MirStatement::Other { range: mk_range(10, 11) }, MirStatement::Other { range: mk_range(20, 21) }],
        terminator: None,
    }];
    let locations = vec![
        RichLocation::Start(Location { block: 0, statement_index: 0 }),
        RichLocation::Mid(Location { block: 0, statement_index: 1 }),
    ];
    let ranges = rich_locations_to_ranges(&basic_blocks, &locations);
    assert_eq!(ranges.len(), 1);
    assert_eq!(u32::from(ranges[0].from()), 10);
    assert_eq!(u32::from(ranges[0].until()), 21);
}

#[test]
fn rich_locations_to_ranges_truncates_mismatched_start_mid_counts() {
    let basic_blocks = vec![MirBasicBlock {
        statements: vec![MirStatement::Other { range: mk_range(1, 2) }, MirStatement::Other { range: mk_range(3, 4) }],
        terminator: None,
    }];
    let locations = vec![
        RichLocation::Start(Location { block: 0, statement_index: 0 }),
        RichLocation::Start(Location { block: 0, statement_index: 1 }),
        RichLocation::Mid(Location { block: 0, statement_index: 0 }),
    ];
    let ranges = rich_locations_to_ranges(&basic_blocks, &locations);
    assert_eq!(ranges.len(), 1);
    assert_eq!(u32::from(ranges[0].from()), 1);
    assert_eq!(u32::from(ranges[0].until()), 2);
}

#[test]
fn rich_locations_to_ranges_uses_terminator_range_when_statement_index_out_of_bounds() {
    let basic_blocks = vec![MirBasicBlock {
        statements: vec![MirStatement::Other { range: mk_range(10, 11) }],
        terminator: Some(MirTerminator::Other { range: mk_range(40, 50) }),
    }];
    let locations = vec![
        RichLocation::Start(Location { block: 0, statement_index: 999 }),
        RichLocation::Mid(Location { block: 0, statement_index: 999 }),
    ];
    let ranges = rich_locations_to_ranges(&basic_blocks, &locations);
    assert_eq!(ranges.len(), 1);
    assert_eq!(u32::from(ranges[0].from()), 40);
    assert_eq!(u32::from(ranges[0].until()), 50);
}

#[test]
fn statement_location_outside_the_body_has_no_range() {
    let basic_blocks = vec![MirBasicBlock { statements: vec![MirStatement::Other { range: mk_range(1, 2) }], terminator: None }];
    assert_eq!(statement_location_to_range(&basic_blocks, 0, 0), Some(mk_range(1, 2)));
    assert_eq!(statement_location_to_range(&basic_blocks, 0, 1), None);
    assert_eq!(statement_location_to_range(&basic_blocks, 1, 0), None);
}

#[test]
fn location_ranges_give_back_what_was_inserted() {
    let mut m = LocationRanges::new();
    let a = Location { block: 0, statement_index: 1 };
    let b = Location { block: 2, statement_index: 0 };
    m.insert(a, mk_range(1, 5));
    m.insert(b, mk_range(7, 9));
    m.insert(a, mk_range(2, 3));
    assert_eq!(m.get(&a), Some(mk_range(2, 3)));
    assert_eq!(m.get(&b), Some(mk_range(7, 9)));
    assert_eq!(m.get(&Location { block: 1, statement_index: 1 }), None);
    assert_eq!(a.successor(), Location { block: 0, statement_index: 2 });
}

#[test]
fn select_local_ignores_non_candidates() {
    let mut selector = SelectLocal::new(Loc(10));
    let local = FnLocal::new(1, 1);
    selector.select(SelectReason::Var, local, Range::new(Loc(0), Loc(20)).unwrap());
    assert!(selector.selected().is_none());
}

#[test]
fn test_async_variable_filtering() {
    let mut selector = SelectLocal::new(Loc(10));
    let decl = user_decl(FnLocal::new(1, 1), "_task_context", vec![mk_range(0, 20)], vec![mk_range(15, 25)], mk_range(5, 15));
    selector.visit_decl(&decl);
    assert!(selector.candidate_local_decls.is_empty());
}

#[test]
fn test_regular_variable_not_filtered() {
    let mut selector = SelectLocal::new(Loc(10));
    let decl = user_decl(FnLocal::new(1, 1), "my_var", vec![mk_range(0, 20)], vec![mk_range(15, 25)], mk_range(5, 15));
    selector.visit_decl(&decl);
    assert_eq!(selector.candidate_local_decls.len(), 1);
    assert_eq!(selector.candidate_local_decls[0], FnLocal::new(1, 1));
}

#[test]
fn test_call_selection_prefers_narrower_range() {
    let mut selector = SelectLocal::new(Loc(10));
    let local = FnLocal::new(1, 1);
    selector.candidate_local_decls.push(local);

    let wide_range = Range::new(Loc(5), Loc(20)).unwrap();
    selector.select(SelectReason::Call, local, wide_range);
    let narrow_range = Range::new(Loc(8), Loc(15)).unwrap();
    selector.select(SelectReason::Call, local, narrow_range);

    assert_eq!(selector.selected(), Some(local));
    if let Some((reason, _, range)) = selector.selected {
        assert_eq!(reason, SelectReason::Call);
        assert_eq!(range, narrow_range);
    }
}

#[test]
fn select_local_var_prefers_narrower_range() {
    let mut selector = SelectLocal::new(Loc(10));
    let local = FnLocal::new(1, 1);
    selector.candidate_local_decls.push(local);

    let wide = Range::new(Loc(0), Loc(20)).unwrap();
    let narrow = Range::new(Loc(8), Loc(11)).unwrap();
    selector.select(SelectReason::Var, local, wide);
    selector.select(SelectReason::Var, local, narrow);

    assert_eq!(selector.selected(), Some(local));
    let (reason, selected_local, selected_range) = selector.selected.unwrap();
    assert_eq!(reason, SelectReason::Var);
    assert_eq!(selected_local, local);
    assert_eq!(selected_range, narrow);
}

#[test]
fn select_local_var_wins_over_borrow_selection() {
    let mut selector = SelectLocal::new(Loc(10));
    let local = FnLocal::new(1, 1);
    selector.candidate_local_decls.push(local);

    let borrow_range = Range::new(Loc(9), Loc(12)).unwrap();
    selector.select(SelectReason::Borrow, local, borrow_range);
    let var_range = Range::new(Loc(9), Loc(11)).unwrap();
    selector.select(SelectReason::Var, local, var_range);

    assert_eq!(selector.selected(), Some(local));
    let (reason, _, range) = selector.selected.unwrap();
    assert_eq!(reason, SelectReason::Var);
    assert_eq!(range, var_range);
}

#[test]
fn calc_decos_dedupes_call_ranges() {
    let local = FnLocal::new(1, 1);
    let decl = user_decl(local, "x", Vec::new(), Vec::new(), mk_range(0, 1));
    let mut select = SelectLocal::new(Loc(5));
    select.visit_decl(&decl);
    assert!(select.selected().is_none());

    let mut calc = CalcDecos::new([local]);
    calc.visit_term(&MirTerminator::Call { destination_local: local, fn_span: mk_range(4, 6) });
    calc.visit_term(&MirTerminator::Call { destination_local: local, fn_span: mk_range(0, 10) });
    calc.visit_term(&MirTerminator::Call { destination_local: local, fn_span: mk_range(4, 5) });

    let decorations = calc.decorations();
    let call_count = decorations.iter().filter(|d| matches!(d, Deco::Call { .. })).count();
    assert_eq!(call_count, 1);
    let call_range = decorations.iter().find_map(|d| if let Deco::Call { range, .. } = d { Some(*range) } else { None });
    assert_eq!(call_range, Some(mk_range(4, 5)));
}

#[test]
fn calc_decos_sets_overlapped_on_intersection() {
    let local = FnLocal::new(1, 1);
    let mut calc = CalcDecos::new([local]);
    calc.decorations.push(Deco::ImmBorrow { local, range: mk_range(0, 10), hover_text: "immutable borrow".to_string(), overlapped: false });
    calc.decorations.push(Deco::Move { local, range: mk_range(5, 15), hover_text: "variable moved".to_string(), overlapped: false });
    calc.handle_overlapping();
    let overlapped = calc
        .decorations
        .iter()
        .filter(|d| match d {
            Deco::ImmBorrow { overlapped, .. } => *overlapped,
            Deco::Move { overlapped, .. } => *overlapped,
            _ => false,
        })
        .count();
    assert_eq!(overlapped, 2);
}

#[test]
fn calc_decos_does_not_mark_touching_ranges_as_overlapping() {
    let local = FnLocal::new(1, 1);
    let mut calc = CalcDecos::new([local]);
    calc.decorations.push(Deco::ImmBorrow { local, range: mk_range(0, 10), hover_text: "immutable borrow".to_string(), overlapped: false });
    calc.decorations.push(Deco::Move { local, range: mk_range(10, 20), hover_text: "variable moved".to_string(), overlapped: false });
    calc.handle_overlapping();
    let any_overlapped = calc.decorations.iter().any(|d| match d {
        Deco::ImmBorrow { overlapped, .. } => *overlapped,
        Deco::Move { overlapped, .. } => *overlapped,
        _ => false,
    });
    assert!(!any_overlapped);
}

#[test]
fn deco_order_follows_kind() {
    let local = FnLocal::new(0, 0);
    let d = Deco::Outlive { local, range: mk_range(1, 2), hover_text: String::new(), overlapped: false };
    assert_eq!(CalcDecos::get_deco_order(&d), 6);
    assert_eq!(deco_type(&d), DecoType::Outlive);
    assert_eq!(DecoType::ImmBorrow.label(), "immutable borrow");
    assert_eq!(legend().len(), 6);
}

#[test]
fn line_char_round_trip() {
    let s = "ab\ncd\r\nef";
    let (line, ch) = index_to_line_char(s, Loc(4));
    assert_eq!((line, ch), (1, 1));
    assert_eq!(line_char_to_index(s, line, ch), 4);
}

#[test]
fn cargo_messages_count_checked_units() {
    let msg = CargoCheckMessage::CompilerArtifact { target: CargoCheckMessageTarget { name: "foo".to_string() } };
    let (n, ev) = on_cargo_message(2, msg, 7);
    assert_eq!(n, 3);
    match ev {
        Some(AnalyzerEvent::CrateChecked { package, package_index, package_count }) => {
            assert_eq!(package, "foo");
            assert_eq!(package_index, 3);
            assert_eq!(package_count, 7);
        }
        _ => panic!("expected a checked crate"),
    }
    let (n, ev) = on_cargo_message(3, CargoCheckMessage::BuildFinished {}, 7);
    assert_eq!(n, 3);
    assert!(ev.is_none());
}

#[test]
fn check_arguments_and_progress() {
    assert_eq!(
        check_args(true, false),
        vec!["check", "--workspace", "--all-targets", "--keep-going", "--message-format=json"]
    );
    assert_eq!(progress_report("foo", 1, 4), ("Checking foo (2/4)".to_string(), 25));
    let mut line = b"{}\r\n".to_vec();
    trim_line_end(&mut line);
    assert_eq!(line, b"{}".to_vec());
}

#[test]
fn check_progress_collects_results() {
    let mut p = CheckProgress::new();
    assert!(!p.is_ok());
    p.on_event(AnalyzerEvent::CrateChecked { package: "a".to_string(), package_index: 1, package_count: 2 });
    assert_eq!((p.checked_targets, p.total_targets), (1, Some(2)));
    let mut krate = Crate(FoldIndexMap::default());
    krate.0.insert("lib.rs".to_string(), File::new());
    let mut ws = Workspace(FoldIndexMap::default());
    ws.0.insert("a".to_string(), krate);
    p.on_event(AnalyzerEvent::Analyzed(ws));
    assert!(p.is_ok());
}

#[test]
fn analysis_status_rules() {
    assert_eq!(final_status(AnalysisStatus::Analyzing, 0), AnalysisStatus::Error);
    assert_eq!(final_status(AnalysisStatus::Analyzing, 3), AnalysisStatus::Finished);
    assert_eq!(final_status(AnalysisStatus::Error, 3), AnalysisStatus::Error);
    assert_eq!(next_token_key(None), 1);
    assert_eq!(next_token_key(Some(4)), 5);
    assert_eq!(cursor_status(AnalysisStatus::Finished, Some(AnalysisStatus::Error)), AnalysisStatus::Error);
    assert_eq!(cursor_status(AnalysisStatus::Analyzing, Some(AnalysisStatus::Error)), AnalysisStatus::Analyzing);
}

#[test]
fn decorations_at_the_cursor() {
    assert_eq!(decos(None, "lib.rs", Loc(0)).err(), Some(AnalysisStatus::Error));

    let local = FnLocal::new(1, 7);
    let mut f = Function::new(7);
    f.decls.push(user_decl(local, "x", vec![mk_range(0, 20)], Vec::new(), mk_range(2, 3)));
    let mut file = File::new();
    file.items.push(f);
    let mut krate = Crate(FoldIndexMap::default());
    krate.0.insert("src/lib.rs".to_string(), file);
    assert_eq!(decos(Some(&krate), "src/main.rs", Loc(2)).err(), Some(AnalysisStatus::Error));
    let ds = decos(Some(&krate), "src/lib.rs", Loc(2)).unwrap();
    assert!(ds.iter().any(|d| matches!(d, Deco::Lifetime { range, .. } if *range == mk_range(0, 20))));
}

#[test]
fn visualize_error_messages() {
    assert!(VisualizeError::FileNotFound("a.rs".to_string()).message().contains("a.rs"));
}

fn place(id: u32) -> MirPlace {
    MirPlace { local: FnLocal::new(id, 0), projection: Vec::new() }
}

#[test]
fn dataflow_statements_and_terminators_update_states() {
    let mut s = LocalStates::init_from_locals(&vec![1, 2]);
    assert!(s.entries().iter().all(|(_, st)| *st == StateSet::empty()));

    // _1 = move _2
    s.visit_statement(&FlowStatement {
        kind: MirStatementKind::Assign { place: place(1), rval: MirRval::Use { operand: MirOperand::Move { place: place(2) } } },
        range: None,
    });
    assert!(s.entries()[0].1.is_definitely_live());
    assert!(s.entries()[1].1.moved && !s.entries()[1].1.initialized);

    // drop(_1)
    s.visit_terminator(&FlowTerminator { kind: MirTerminatorKind::Drop { place: place(1), target: BasicBlockId(1) }, range: None });
    assert!(s.entries()[0].1.dropped && !s.entries()[0].1.initialized);

    // joining with a state where _1 is live makes it maybe initialized only
    let mut other = LocalStates::init_from_locals(&vec![1]);
    other.reset(1, LocalStateVariant::Initialized);
    s.join(&other);
    assert!(s.entries()[0].1.is_maybe_initialized());
    assert!(!s.entries()[0].1.is_definitely_live());
    assert_eq!(s.entries()[1].1, StateSet { uninitialized: false, initialized: false, moved: true, dropped: false });
}

#[test]
fn walk_cfg_carries_states_along_the_flow() {
    let assign = FlowStatement {
        kind: MirStatementKind::Assign { place: place(1), rval: MirRval::Use { operand: MirOperand::Move { place: place(2) } } },
        range: None,
    };
    let blocks = vec![
        (
            BasicBlockId(0),
            FlowBlock {
                statements: vec![assign],
                terminator: Some(FlowTerminator { kind: MirTerminatorKind::Goto { target: BasicBlockId(1) }, range: None }),
            },
        ),
        (
            BasicBlockId(1),
            FlowBlock { statements: Vec::new(), terminator: Some(FlowTerminator { kind: MirTerminatorKind::Return, range: None }) },
        ),
    ];
    let locals = vec![1, 2];
    let (locs, states) = walk_cfg(&blocks, &locals);
    assert_eq!(locs, vec![(0, 0), (0, 1), (1, 0)]);
    let at_end = states[2].entries();
    assert_eq!(at_end[0].0, 1);
    assert!(at_end[0].1.is_definitely_live());
    assert!(at_end[1].1.moved && !at_end[1].1.initialized && !at_end[1].1.uninitialized);

    let mut ranges = LocationRanges::new();
    ranges.insert(Location { block: 0, statement_index: 0 }, mk_range(1, 5));
    ranges.insert(Location { block: 1, statement_index: 0 }, mk_range(10, 12));
    let lives = get_definitely_lives(&locs, &states, &ranges, &locals);
    assert_eq!(lives[0], (1, vec![mk_range(1, 5), mk_range(10, 12)]));
    assert_eq!(lives[1], (2, Vec::new()));
    let maybe = get_maybe_initialized(&locs, &states, &ranges, &locals);
    assert_eq!(maybe[0].1.len(), 2);
}

#[test]
fn walk_cfg_stops_on_a_loop() {
    let blocks = vec![(
        BasicBlockId(0),
        FlowBlock {
            statements: vec![FlowStatement { kind: MirStatementKind::StorageDead { local: FnLocal::new(1, 0) }, range: None }],
            terminator: Some(FlowTerminator { kind: MirTerminatorKind::Goto { target: BasicBlockId(0) }, range: None }),
        },
    )];
    let (locs, states) = walk_cfg(&blocks, &vec![1]);
    assert_eq!(locs.len(), 2);
    assert_eq!(states[0].entries()[0].1, StateSet { uninitialized: true, initialized: false, moved: false, dropped: false });
}

fn spans(rs: &[Range]) -> Vec<(u32, u32)> {
    rs.iter().map(|r| (u32::from(r.from()), u32::from(r.until()))).collect()
}

#[test]
fn erase_superset_drops_ranges_around_earlier_ones() {
    let ranges = vec![mk_range(5, 10), mk_range(4, 12), mk_range(5, 10), mk_range(6, 8), mk_range(0, 3)];
    assert_eq!(spans(&erase_superset(ranges.clone(), false)), vec![(5, 10), (5, 10), (6, 8), (0, 3)]);
    assert_eq!(spans(&erase_superset(ranges, true)), vec![(5, 10), (4, 12), (0, 3)]);
    assert!(erase_superset(Vec::new(), false).is_empty());
}

#[test]
fn handle_overlapping_cuts_the_earlier_decoration_and_places_the_rest_after_it() {
    let local = FnLocal::new(1, 1);
    let mut calc = CalcDecos::new([local]);
    calc.decorations.push(Deco::Move { local, range: mk_range(5, 15), hover_text: "variable moved".to_string(), overlapped: false });
    calc.decorations.push(Deco::ImmBorrow { local, range: mk_range(0, 10), hover_text: "immutable borrow".to_string(), overlapped: false });
    calc.handle_overlapping();
    assert_eq!(
        calc.decorations,
        vec![
            Deco::ImmBorrow { local, range: mk_range(5, 10), hover_text: "immutable borrow".to_string(), overlapped: true },
            Deco::ImmBorrow { local, range: mk_range(0, 5), hover_text: "immutable borrow".to_string(), overlapped: false },
            Deco::Move { local, range: mk_range(5, 15), hover_text: "variable moved".to_string(), overlapped: true },
        ]
    );
}

#[test]
fn joining_states_with_themselves_changes_nothing() {
    let mut s = LocalStates::init_from_locals(&vec![1, 2]);
    s.reset(1, LocalStateVariant::Moved);
    let copy = s.copy();
    s.join(&copy);
    assert_eq!(s.entries(), copy.entries());
}

#[test]
fn local_states_list_a_repeated_local_once_at_its_first_place() {
    let s = LocalStates::init_from_locals(&vec![3, 1, 3, 2, 1]);
    let keys: Vec<u32> = s.entries().iter().map(|(l, _)| *l).collect();
    assert_eq!(keys, vec![3, 1, 2]);
    assert!(s.entries().iter().all(|(_, st)| *st == StateSet::empty()));
    // joined with itself, nothing changes
    let mut t = s.clone();
    t.join(&s);
    assert_eq!(t.entries(), s.entries());
}
