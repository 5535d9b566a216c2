use rustowl::models::{
    Crate, File, FnLocal, FoldIndexMap, Function, Loc, MirBasicBlock, MirStatement, MirTerminator,
    MirVariable, MirVariables, Range, Workspace,
};
use rustowl::utils::{common_range, common_ranges, eliminated_ranges, exclude_ranges, intersect_ranges, union_ranges};
use std::collections::HashMap;

#[test]
fn test_loc_creation_with_unicode() {
    let source = "hello 🦀 world\r\ngoodbye 🌍 world";
    let _loc = Loc::new(source, 8, 0);

    let source_with_cr = "hello\r\n world";
    let loc_with_cr = Loc::new(source_with_cr, 7, 0);
    let loc_without_cr = Loc::new("hello\n world", 7, 0);
    assert_eq!(loc_with_cr.0, loc_without_cr.0);
}

#[test]
fn test_workspace_merge_operations() {
    let mut workspace1 = Workspace(FoldIndexMap::default());
    let mut workspace2 = Workspace(FoldIndexMap::default());

    let mut crate1 = Crate(FoldIndexMap::default());
    crate1.0.insert("lib.rs".to_string(), File::new());
    workspace1.0.insert("my_crate".to_string(), crate1);

    let mut crate2 = Crate(FoldIndexMap::default());
    crate2.0.insert("main.rs".to_string(), File::new());
    workspace2.0.insert("my_crate".to_string(), crate2);

    let crate3 = Crate(FoldIndexMap::default());
    workspace2.0.insert("other_crate".to_string(), crate3);

    workspace1.merge(workspace2);

    assert_eq!(workspace1.0.len(), 2);
    assert!(workspace1.0.contains_key("my_crate"));
    assert!(workspace1.0.contains_key("other_crate"));

    let merged_crate = &workspace1.0["my_crate"];
    assert_eq!(merged_crate.0.len(), 2);
    assert!(merged_crate.0.contains_key("lib.rs"));
    assert!(merged_crate.0.contains_key("main.rs"));
}

#[test]
fn test_crate_merge_with_duplicate_functions() {
    let mut crate1 = Crate(FoldIndexMap::default());
    let mut crate2 = Crate(FoldIndexMap::default());

    let mut file1 = File::new();
    file1.items.push(Function::new(1));
    file1.items.push(Function::new(2));

    let mut file2 = File::new();
    file2.items.push(Function::new(2));
    file2.items.push(Function::new(3));

    crate1.0.insert("test.rs".to_string(), file1);
    crate2.0.insert("test.rs".to_string(), file2);

    crate1.merge(crate2);

    let merged_file = &crate1.0["test.rs"];
    assert_eq!(merged_file.items.len(), 3);

    let mut ids: Vec<u32> = merged_file.items.iter().map(|f| f.fn_id).collect();
    ids.sort();
    assert_eq!(ids, vec![1, 2, 3]);
}

#[test]
fn test_mir_statement_range_extraction() {
    let range = Range::new(Loc(10), Loc(20)).unwrap();
    let fn_local = FnLocal::new(1, 42);

    let storage_live = MirStatement::StorageLive { target_local: fn_local, range };
    assert_eq!(storage_live.range(), range);

    let storage_dead = MirStatement::StorageDead { target_local: fn_local, range };
    assert_eq!(storage_dead.range(), range);

    let assign = MirStatement::Assign { target_local: fn_local, range, rval: None };
    assert_eq!(assign.range(), range);

    let other = MirStatement::Other { range };
    assert_eq!(other.range(), range);
}

#[test]
fn test_loc_arithmetic_memory_safety() {
    let loc = Loc::new("test string with unicode 🦀", 5, 0);
    let loc2 = loc + 2;
    let loc3 = loc2 - 1;
    assert_eq!(loc3.0, loc.0 + 1);

    let loc_zero = Loc(0);
    let loc_underflow = loc_zero - 10;
    assert_eq!(loc_underflow.0, 0);

    let loc_large = Loc(u32::MAX - 10);
    let loc_add = loc_large + 5;
    assert_eq!(loc_add.0, u32::MAX - 5);
}

#[test]
fn test_range_creation_and_validation() {
    let valid_range = Range::new(Loc(0), Loc(10)).unwrap();
    assert_eq!(valid_range.from().0, 0);
    assert_eq!(valid_range.until().0, 10);
    assert_eq!(valid_range.size(), 10);

    let invalid_range = Range::new(Loc(10), Loc(5));
    assert!(invalid_range.is_none());

    let same_pos_range = Range::new(Loc(5), Loc(5));
    assert!(same_pos_range.is_none());

    let large_range = Range::new(Loc(0), Loc(u32::MAX)).unwrap();
    assert_eq!(large_range.size(), u32::MAX);
}

#[test]
fn test_fn_local_operations() {
    let fn_local1 = FnLocal::new(42, 100);
    let fn_local2 = FnLocal::new(43, 100);
    let fn_local3 = FnLocal::new(42, 100);

    assert_eq!(fn_local1, fn_local3);
    assert_ne!(fn_local1, fn_local2);

    let mut map = HashMap::new();
    map.insert(fn_local1, "first");
    map.insert(fn_local2, "second");
    map.insert(fn_local3, "third");

    assert_eq!(map.len(), 2);
    assert_eq!(map.get(&fn_local1), Some(&"third"));
    assert_eq!(map.get(&fn_local2), Some(&"second"));
}

#[test]
fn test_file_model_operations() {
    let mut file = File::new();
    assert_eq!(file.items.len(), 0);
    assert!(file.items.is_empty());

    file.items.reserve(1000);
    assert!(file.items.capacity() >= 1000);

    let file_clone = file.clone();
    assert_eq!(file.items.len(), file_clone.items.len());
}

#[test]
fn test_workspace_operations() {
    let mut workspace = Workspace(FoldIndexMap::default());
    let mut crate1 = Crate(FoldIndexMap::default());
    let mut crate2 = Crate(FoldIndexMap::default());

    crate1.0.insert("lib.rs".to_string(), File::new());
    crate1.0.insert("main.rs".to_string(), File::new());
    crate2.0.insert("helper.rs".to_string(), File::new());

    workspace.0.insert("crate1".to_string(), crate1);
    workspace.0.insert("crate2".to_string(), crate2);

    assert_eq!(workspace.0.len(), 2);
    assert!(workspace.0.contains_key("crate1"));
    assert!(workspace.0.contains_key("crate2"));

    let mut other_workspace = Workspace(FoldIndexMap::default());
    let crate3 = Crate(FoldIndexMap::default());
    other_workspace.0.insert("crate3".to_string(), crate3);

    workspace.merge(other_workspace);
    assert_eq!(workspace.0.len(), 3);
    assert!(workspace.0.contains_key("crate3"));
}

#[test]
fn test_mir_variables_operations() {
    let mut mir_vars = MirVariables::new();

    let user_var = MirVariable::User {
        index: 1,
        live: Range::new(Loc(0), Loc(10)).unwrap(),
        dead: Range::new(Loc(10), Loc(20)).unwrap(),
    };
    let other_var = MirVariable::Other {
        index: 2,
        live: Range::new(Loc(5), Loc(15)).unwrap(),
        dead: Range::new(Loc(15), Loc(25)).unwrap(),
    };

    mir_vars.push(user_var);
    mir_vars.push(other_var);

    let vars_vec = mir_vars.clone().to_vec();
    assert_eq!(vars_vec.len(), 2);

    let has_user_var = vars_vec.iter().any(|v| matches!(v, MirVariable::User { index: 1, .. }));
    let has_other_var = vars_vec.iter().any(|v| matches!(v, MirVariable::Other { index: 2, .. }));
    assert!(has_user_var);
    assert!(has_other_var);

    mir_vars.push(user_var);
    let final_vec = mir_vars.to_vec();
    assert_eq!(final_vec.len(), 2);
}

#[test]
fn test_function_model_complex_operations() {
    let function = Function::new(42);
    let function_clone = function.clone();
    assert_eq!(function.fn_id, function_clone.fn_id);
    assert_eq!(function.basic_blocks.len(), function_clone.basic_blocks.len());
    assert_eq!(function.decls.len(), function_clone.decls.len());

    let function_size = std::mem::size_of::<Function>();
    assert!(function_size > 0);

    let mut functions = Vec::new();
    for i in 0..100 {
        functions.push(Function::new(i));
    }
    assert_eq!(functions.len(), 100);
    assert_eq!(functions[50].fn_id, 50);

    let large_function = Function::with_capacity(999, 1000, 500);
    assert!(large_function.basic_blocks.capacity() >= 1000);
    assert!(large_function.decls.capacity() >= 500);
}

#[test]
fn test_serialization_structures() {
    let range = Range::new(Loc(10), Loc(20)).unwrap();
    let fn_local = FnLocal::new(1, 2);

    let range_clone = range;
    let fn_local_clone = fn_local;

    assert_eq!(range, range_clone);
    assert_eq!(fn_local, fn_local_clone);

    let debug_string = format!("{range:?}");
    assert!(debug_string.contains("Range"));

    let debug_fn_local = format!("{fn_local:?}");
    assert!(debug_fn_local.contains("FnLocal"));
}

#[test]
fn test_complex_nested_structures() {
    let mut workspace = Workspace(FoldIndexMap::default());
    for crate_idx in 0..10 {
        let mut crate_data = Crate(FoldIndexMap::default());
        for file_idx in 0..5 {
            let mut file = File::new();
            for func_idx in 0..3 {
                let mut function = Function::new(func_idx + file_idx * 3 + crate_idx * 15);
                for bb_idx in 0..4 {
                    let mut basic_block = MirBasicBlock::new();
                    for stmt_idx in 0..6 {
                        let range = Range::new(Loc(stmt_idx * 10), Loc(stmt_idx * 10 + 5)).unwrap();
                        basic_block.statements.push(MirStatement::Other { range });
                    }
                    if bb_idx % 2 == 0 {
                        basic_block.terminator = Some(MirTerminator::Other {
                            range: Range::new(Loc(60), Loc(65)).unwrap(),
                        });
                    }
                    function.basic_blocks.push(basic_block);
                }
                file.items.push(function);
            }
            crate_data.0.insert(format!("file_{file_idx}.rs"), file);
        }
        workspace.0.insert(format!("crate_{crate_idx}"), crate_data);
    }

    assert_eq!(workspace.0.len(), 10);
    for (crate_name, crate_data) in &workspace.0 {
        assert!(crate_name.starts_with("crate_"));
        assert_eq!(crate_data.0.len(), 5);
        for (file_name, file_data) in &crate_data.0 {
            assert!(file_name.starts_with("file_"));
            assert_eq!(file_data.items.len(), 3);
            for function in &file_data.items {
                assert_eq!(function.basic_blocks.len(), 4);
                for (bb_idx, basic_block) in function.basic_blocks.iter().enumerate() {
                    assert_eq!(basic_block.statements.len(), 6);
                    if bb_idx % 2 == 0 {
                        assert!(basic_block.terminator.is_some());
                    } else {
                        assert!(basic_block.terminator.is_none());
                    }
                }
            }
        }
    }
}

#[test]
fn test_memory_intensive_range_operations() {
    let mut ranges = Vec::with_capacity(1000);
    for i in 0..500 {
        let start = i * 2;
        let end = start + 10;
        if let Some(range) = Range::new(Loc(start), Loc(end)) {
            ranges.push(range);
        }
    }

    let eliminated = eliminated_ranges(ranges.clone());
    assert!(eliminated.len() < ranges.len());
    assert!(eliminated.windows(2).all(|w| common_range(w[0], w[1]).is_none()));

    let excludes = vec![
        Range::new(Loc(50), Loc(100)).unwrap(),
        Range::new(Loc(200), Loc(250)).unwrap(),
    ];
    let excluded = exclude_ranges(ranges, excludes.clone());
    assert!(!excluded.is_empty());
    for range in &excluded {
        for exclude in &excludes {
            assert!(common_range(*range, *exclude).is_none());
        }
    }
}

#[test]
fn test_mir_variable_enum_exhaustive() {
    let user_vars = (0..20)
        .map(|i| MirVariable::User {
            index: i,
            live: Range::new(Loc(i * 10), Loc(i * 10 + 5)).unwrap(),
            dead: Range::new(Loc(i * 10 + 5), Loc(i * 10 + 10)).unwrap(),
        })
        .collect::<Vec<_>>();
    let other_vars = (0..20)
        .map(|i| MirVariable::Other {
            index: i + 100,
            live: Range::new(Loc(i * 15), Loc(i * 15 + 7)).unwrap(),
            dead: Range::new(Loc(i * 15 + 7), Loc(i * 15 + 14)).unwrap(),
        })
        .collect::<Vec<_>>();

    for var in &user_vars {
        match var {
            MirVariable::User { index, live, dead } => {
                assert!(*index < 20);
                assert!(live.size() == 5);
                assert!(dead.size() == 5);
                assert_eq!(live.until(), dead.from());
            }
            _ => panic!("Expected User variant"),
        }
    }
    for var in &other_vars {
        match var {
            MirVariable::Other { index, live, dead } => {
                assert!(*index >= 100);
                assert!(live.size() == 7);
                assert!(dead.size() == 7);
                assert_eq!(live.until(), dead.from());
            }
            _ => panic!("Expected Other variant"),
        }
    }

    let mut all_vars = MirVariables::with_capacity(40);
    for var in user_vars.into_iter().chain(other_vars.into_iter()) {
        all_vars.push(var);
    }
    let final_vars = all_vars.to_vec();
    assert_eq!(final_vars.len(), 40);
}

#[test]
fn test_advanced_arithmetic_safety() {
    let max_loc = Loc(u32::MAX);
    let min_loc = Loc(0);

    let result = max_loc + 1;
    assert_eq!(result.0, max_loc.0);
    let result = max_loc + (-1);
    assert_eq!(result.0, u32::MAX - 1);

    let result = min_loc - 1;
    assert_eq!(result.0, 0);

    let result = min_loc + (-10);
    assert_eq!(result.0, 0);

    let mid_loc = Loc(u32::MAX / 2);
    let result = mid_loc + (u32::MAX / 2) as i32;
    assert_eq!(result.0, u32::MAX - 1);
    let result = mid_loc - (u32::MAX / 2) as i32;
    assert_eq!(result.0, 0);
}

#[test]
fn loc_new_counts_characters_not_bytes() {
    // "aé" is three bytes: byte 3 ends the second character.
    assert_eq!(Loc::new("aéb", 3, 0).0, 2);
    // A byte inside a character counts the characters ended before it.
    assert_eq!(Loc::new("aéb", 2, 0).0, 1);
    // The offset is taken off first, saturating at zero.
    assert_eq!(Loc::new("aéb", 1, 5).0, 0);
}

#[test]
fn range_size_is_until_minus_from() {
    let r = Range::new(Loc(3), Loc(17)).unwrap();
    assert_eq!(r.size(), 14);
    assert_eq!(u32::from(r.from()), 3);
    assert_eq!(Loc::from(7u32), Loc(7));
}

#[test]
fn crate_merge_keeps_existing_file_order_and_appends_new_files() {
    let mut a = Crate(FoldIndexMap::default());
    a.0.insert("a.rs".to_string(), File::new());
    a.0.insert("b.rs".to_string(), File::new());
    let mut b = Crate(FoldIndexMap::default());
    b.0.insert("c.rs".to_string(), File::new());
    b.0.insert("a.rs".to_string(), File::new());
    a.merge(b);
    let names: Vec<&str> = a.0.keys().map(|k| k.as_str()).collect();
    assert_eq!(names, vec!["a.rs", "b.rs", "c.rs"]);
}

fn covered(ranges: &[Range]) -> Vec<u32> {
    let mut xs: Vec<u32> = ranges.iter().flat_map(|r| u32::from(r.from())..u32::from(r.until())).collect();
    xs.sort();
    xs.dedup();
    xs
}

#[test]
fn exclude_ranges_cuts_exactly_the_excluded_positions() {
    let span = |a: u32, b: u32| Range::new(Loc(a), Loc(b)).unwrap();
    // Ranges are half-open: a range that only touches the excluded one is left whole.
    assert_eq!(covered(&exclude_ranges(vec![span(0, 10)], vec![span(10, 12)])), (0..10).collect::<Vec<u32>>());
    assert_eq!(covered(&exclude_ranges(vec![span(0, 10)], vec![span(5, 10)])), vec![0, 1, 2, 3, 4]);
    assert_eq!(covered(&exclude_ranges(vec![span(0, 10)], vec![span(3, 4), span(2, 3)])), vec![0, 1, 4, 5, 6, 7, 8, 9]);
    assert_eq!(covered(&exclude_ranges(vec![span(0, 10), span(20, 30)], vec![span(8, 22)])), vec![0, 1, 2, 3, 4, 5, 6, 7, 22, 23, 24, 25, 26, 27, 28, 29]);
}

#[test]
fn eliminated_ranges_keeps_a_separated_list_as_it_is() {
    let span = |a: u32, b: u32| Range::new(Loc(a), Loc(b)).unwrap();
    let once = eliminated_ranges(vec![span(20, 25), span(0, 5), span(4, 8), span(30, 31)]);
    let twice = eliminated_ranges(once.clone());
    assert_eq!(once, twice);
    let separated = vec![span(9, 10), span(0, 3), span(5, 7)];
    assert_eq!(eliminated_ranges(separated.clone()), separated);
}

#[test]
fn loc_offsets_saturate_for_every_offset() {
    assert_eq!(Loc(5) + i32::MIN, Loc(0));
    assert_eq!(Loc(5) - i32::MIN, Loc(5 + (1u32 << 31)));
    assert_eq!(Loc(u32::MAX) + 1, Loc(u32::MAX));
    assert_eq!(Loc(3) + (-5), Loc(0));
}

#[test]
fn range_results_come_in_the_order_the_merging_pass_leaves_them() {
    let span = |a: u32, b: u32| Range::new(Loc(a), Loc(b)).unwrap();
    // The first range touches nothing and stays first; the second takes in the third.
    assert_eq!(eliminated_ranges(vec![span(10, 12), span(0, 2), span(1, 5)]), vec![span(10, 12), span(0, 5)]);
    assert_eq!(
        eliminated_ranges(vec![span(0, 2), span(5, 6), span(1, 3), span(6, 8)]),
        vec![span(0, 3), span(5, 8)]
    );
    assert_eq!(union_ranges(vec![span(8, 9)], vec![span(0, 2), span(2, 4)]), vec![span(8, 9), span(0, 4)]);
    assert_eq!(
        intersect_ranges(vec![span(20, 30), span(0, 10)], vec![span(5, 7), span(25, 27)]),
        vec![span(25, 27), span(5, 7)]
    );
    assert_eq!(
        common_ranges(&[span(10, 20), span(0, 5), span(15, 25), span(3, 8)]),
        vec![span(15, 20), span(3, 5)]
    );
    assert_eq!(common_ranges(&[span(0, 5), span(3, 8), span(4, 6)]), vec![span(3, 6)]);
    // The pieces of a cut range go to the end of the list.
    assert_eq!(
        exclude_ranges(vec![span(0, 10), span(20, 30)], vec![span(5, 6)]),
        vec![span(20, 30), span(0, 5), span(6, 10)]
    );
}
