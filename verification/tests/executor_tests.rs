use rename_rules::executor::{
    apply_file_renaming_rules, direct_pass, execute, BatchError, ExecutionError,
};
use rename_rules::fs_model::FsModel;
use rename_rules::rules::Rename;
use rename_rules::validate::ValidationError;

fn model(entries: &[(&str, u64)]) -> FsModel {
    let mut fs = FsModel::empty();
    for (path, id) in entries {
        fs.insert(path, *id);
    }
    fs
}

fn temps(names: &[&str]) -> Vec<String> {
    names.iter().map(|n| n.to_string()).collect()
}

#[test]
fn direct_pass_applies_free_rules() {
    let fs = model(&[("a", 1)]);
    let rules = vec![Rename::new("a", "b")];
    let plan = direct_pass(&rules, &fs).unwrap();
    assert_eq!(plan.moves.len(), 1);
    assert_eq!(plan.moves[0].source, "a");
    assert_eq!(plan.moves[0].dest, "b");
    assert_eq!(plan.pending.len(), 0);
    assert_eq!(plan.fs.get_id("b"), Some(1));
    assert_eq!(plan.fs.get_id("a"), None);
}

#[test]
fn direct_pass_defers_occupied_dest() {
    let fs = model(&[("a", 1), ("b", 2)]);
    let rules = vec![Rename::new("a", "b")];
    let plan = direct_pass(&rules, &fs).unwrap();
    assert_eq!(plan.moves.len(), 0);
    assert_eq!(plan.pending.len(), 1);
    assert_eq!(plan.pending[0].source, "a");
}

#[test]
fn direct_pass_missing_source_is_io_error() {
    let fs = model(&[]);
    let rules = vec![Rename::new("a", "b")];
    match direct_pass(&rules, &fs) {
        Err(ExecutionError::Io { source, dest }) => {
            assert_eq!(source, "a");
            assert_eq!(dest, "b");
        },
        _ => panic!("expected an io error"),
    }
}

#[test]
fn swap_scenario_succeeds() {
    let fs = model(&[("a", 1), ("b", 2)]);
    let rules = vec![Rename::new("a", "b"), Rename::new("b", "a")];
    let report = execute(&rules, &temps(&["t1", "t2"]), &fs).unwrap();
    // the file that was at `a` is now at `b`, and vice versa
    assert_eq!(report.fs.get_id("b"), Some(1));
    assert_eq!(report.fs.get_id("a"), Some(2));
    // no staging path is left behind
    assert!(!report.fs.contains_path("t1"));
    assert!(!report.fs.contains_path("t2"));
    // two staged moves per rule
    assert_eq!(report.moves.len(), 4);
    assert_eq!(report.moves[0].source, "a");
    assert_eq!(report.moves[0].dest, "t1");
    assert_eq!(report.moves[1].source, "b");
    assert_eq!(report.moves[1].dest, "t2");
    assert_eq!(report.moves[2].source, "t1");
    assert_eq!(report.moves[2].dest, "b");
    assert_eq!(report.moves[3].source, "t2");
    assert_eq!(report.moves[3].dest, "a");
}

#[test]
fn rerun_of_applied_batch_fails_cleanly() {
    // the batch [a -> b] was already applied: `a` is gone, `b` exists
    let fs = model(&[("b", 1)]);
    let rules = vec![Rename::new("a", "b")];
    match execute(&rules, &temps(&["t1"]), &fs) {
        Err(ExecutionError::Io { source, .. }) => assert_eq!(source, "a"),
        _ => panic!("expected a per-rule failure, not a silent pass"),
    }
}

#[test]
fn conflict_without_cycle_is_fatal_and_overwrites_nothing() {
    // `c` exists and no rule vacates it
    let fs = model(&[("a", 1), ("c", 2)]);
    let rules = vec![Rename::new("a", "c")];
    match execute(&rules, &temps(&["t1"]), &fs) {
        Err(ExecutionError::ConflictUnresolved { source, dest }) => {
            assert_eq!(source, "a");
            assert_eq!(dest, "c");
        },
        _ => panic!("expected an unresolved conflict"),
    }
}

#[test]
fn missing_staging_paths_are_reported() {
    let fs = model(&[("a", 1), ("b", 2)]);
    let rules = vec![Rename::new("a", "b"), Rename::new("b", "a")];
    match execute(&rules, &temps(&[]), &fs) {
        Err(ExecutionError::TempAllocation) => (),
        _ => panic!("expected a staging allocation failure"),
    }
}

#[test]
fn staging_path_colliding_with_batch_is_refused() {
    let fs = model(&[("a", 1), ("b", 2)]);
    let rules = vec![Rename::new("a", "b"), Rename::new("b", "a")];
    match execute(&rules, &temps(&["a", "t2"]), &fs) {
        Err(ExecutionError::TempAllocation) => (),
        _ => panic!("expected a staging allocation failure"),
    }
}

#[test]
fn chain_applies_directly_in_order() {
    // b -> c frees nothing needed, then a -> b reuses the vacated name
    let fs = model(&[("a", 1), ("b", 2)]);
    let rules = vec![Rename::new("b", "c"), Rename::new("a", "b")];
    let report = execute(&rules, &temps(&[]), &fs).unwrap();
    assert_eq!(report.moves.len(), 2);
    assert_eq!(report.fs.get_id("c"), Some(2));
    assert_eq!(report.fs.get_id("b"), Some(1));
    assert_eq!(report.fs.get_id("a"), None);
}

#[test]
fn apply_rejects_duplicate_sources() {
    let fs = model(&[("a", 1)]);
    let rules = vec![Rename::new("a", "x"), Rename::new("a", "y")];
    match apply_file_renaming_rules(&rules, &temps(&[]), &fs) {
        Err(BatchError::Validation(ValidationError::DuplicateSource { path })) => {
            assert_eq!(path, "a")
        },
        _ => panic!("expected a duplicate source"),
    }
}

#[test]
fn apply_runs_consistent_batch() {
    let fs = model(&[("a", 1), ("b", 2)]);
    let rules = vec![Rename::new("a", "b"), Rename::new("b", "a")];
    let report = apply_file_renaming_rules(&rules, &temps(&["t1", "t2"]), &fs).unwrap();
    assert_eq!(report.fs.get_id("b"), Some(1));
    assert_eq!(report.fs.get_id("a"), Some(2));
}

#[test]
fn model_insert_and_lookup() {
    let mut fs = FsModel::empty();
    assert!(!fs.contains_path("a"));
    fs.insert("a", 7);
    assert!(fs.contains_path("a"));
    assert_eq!(fs.get_id("a"), Some(7));
    fs.insert("a", 9);
    assert_eq!(fs.get_id("a"), Some(9));
}

#[test]
fn untouched_files_keep_their_place() {
    let fs = model(&[("a", 1), ("b", 2), ("keep", 3)]);
    let rules = vec![Rename::new("a", "b"), Rename::new("b", "a")];
    let report = execute(&rules, &temps(&["t1", "t2"]), &fs).unwrap();
    assert_eq!(report.fs.get_id("keep"), Some(3));
}
