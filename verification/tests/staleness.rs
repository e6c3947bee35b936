//! The staleness store: the predicate, loading, the recompile decision,
//! erasure, the dirty flag, and write-back.

use quikc::buildtable::{
    dependency_is_stale, file_modified_since_last_build, new_old_table, BuildTable, DepObservation,
    FileObservation, SourceObservation, TableEntry,
};

fn entry(path: &str, at: u64, exists: bool) -> TableEntry {
    TableEntry { path: path.to_string(), modified_at: at, exists }
}

fn header(path: &str, at: u64) -> FileObservation {
    FileObservation { path: path.to_string(), modified_at: at }
}

fn source(path: &str, at: u64, artifact_exists: bool) -> SourceObservation {
    SourceObservation { path: path.to_string(), modified_at: at, artifact_exists }
}

fn dep(path: &str, exists: bool, at: u64) -> DepObservation {
    DepObservation { path: path.to_string(), exists, modified_at: at }
}

#[test]
fn predicate_first_time_is_stale() {
    let mut ot = new_old_table();
    let _ = BuildTable::new(&mut ot, &vec![], &vec![]);
    assert!(file_modified_since_last_build("./src/a.c", false, 10, true, &ot));
}

#[test]
fn predicate_changed_time_is_stale() {
    let mut ot = new_old_table();
    let _ = BuildTable::new(&mut ot, &vec![entry("./src/a.c", 10, true)], &vec![]);
    assert!(file_modified_since_last_build("./src/a.c", false, 11, true, &ot));
}

#[test]
fn predicate_header_with_same_time_is_fresh() {
    let mut ot = new_old_table();
    let _ = BuildTable::new(&mut ot, &vec![entry("include/a.h", 10, true)], &vec![]);
    assert!(!file_modified_since_last_build("include/a.h", true, 10, false, &ot));
}

#[test]
fn predicate_source_needs_its_artifact() {
    let mut ot = new_old_table();
    let _ = BuildTable::new(&mut ot, &vec![entry("./src/a.c", 10, true)], &vec![]);
    assert!(!file_modified_since_last_build("./src/a.c", false, 10, true, &ot));
    assert!(file_modified_since_last_build("./src/a.c", false, 10, false, &ot));
}

#[test]
fn continuation_token_is_never_stale() {
    let ot = new_old_table();
    assert!(!dependency_is_stale(&dep("\\", false, 0), &ot));
    assert!(dependency_is_stale(&dep("include/a.h", false, 0), &ot));
}

#[test]
fn loading_tracks_only_surviving_records() {
    let mut ot = new_old_table();
    let bt = BuildTable::new(
        &mut ot,
        &vec![entry("./src/a.c", 10, true), entry("./src/gone.c", 11, false)],
        &vec![],
    );
    assert!(bt.contains("./src/a.c"));
    assert!(!bt.contains("./src/gone.c"));
    assert_eq!(bt.get("./src/a.c"), Some(10));
    // a vanished non-header record does not mark the run dirty
    assert!(!bt.any_dependencies_changed());
}

#[test]
fn vanished_header_record_marks_run_dirty() {
    let mut ot = new_old_table();
    let bt = BuildTable::new(
        &mut ot,
        &vec![entry("./src/a.c", 10, true), entry("include/gone.h", 5, false)],
        &vec![],
    );
    assert!(bt.any_dependencies_changed());
}

#[test]
fn touched_header_marks_run_dirty_and_is_rerecorded() {
    let mut ot = new_old_table();
    let bt = BuildTable::new(
        &mut ot,
        &vec![entry("include/common.h", 100, true)],
        &vec![header("./include/common.h", 200)],
    );
    assert!(bt.any_dependencies_changed());
    assert_eq!(bt.get("include/common.h"), Some(200));
}

#[test]
fn untouched_header_leaves_run_clean() {
    let mut ot = new_old_table();
    let bt = BuildTable::new(
        &mut ot,
        &vec![entry("include/common.h", 100, true)],
        &vec![header("./include/common.h", 100)],
    );
    assert!(!bt.any_dependencies_changed());
}

#[test]
fn first_build_records_every_header_and_is_dirty() {
    let mut ot = new_old_table();
    let bt = BuildTable::new(
        &mut ot,
        &vec![],
        &vec![header("./include/a.h", 1), header("./include/notes.txt", 2)],
    );
    assert!(bt.any_dependencies_changed());
    assert!(bt.contains("include/a.h"));
    assert!(!bt.contains("include/notes.txt"));
}

#[test]
fn recompile_decision_records_new_time() {
    let mut ot = new_old_table();
    let mut bt = BuildTable::new(&mut ot, &vec![entry("./src/a.c", 10, true)], &vec![]);
    assert!(bt.needs_to_be_recompiled(&source("./src/a.c", 99, true), &vec![], &ot));
    assert_eq!(bt.get("./src/a.c"), Some(99));
}

#[test]
fn recompile_decision_skips_dependencies_when_clean() {
    let mut ot = new_old_table();
    let mut bt = BuildTable::new(&mut ot, &vec![entry("./src/a.c", 10, true)], &vec![]);
    assert!(!bt.any_dependencies_changed());
    // a stale dependency is ignored while the run is clean
    let stale = vec![dep("include/gone.h", false, 0)];
    assert!(!bt.needs_to_be_recompiled(&source("./src/a.c", 10, true), &stale, &ot));
}

#[test]
fn recompile_decision_consults_dependencies_when_dirty() {
    let mut ot = new_old_table();
    let mut bt = BuildTable::new(
        &mut ot,
        &vec![entry("./src/a.c", 10, true), entry("include/h.h", 50, true)],
        &vec![header("./include/h.h", 60)],
    );
    assert!(bt.any_dependencies_changed());
    let stale = vec![dep("include/h.h", true, 60)];
    assert!(bt.needs_to_be_recompiled(&source("./src/a.c", 10, true), &stale, &ot));
    let fresh = vec![dep("include/h.h", true, 50)];
    assert!(!bt.needs_to_be_recompiled(&source("./src/a.c", 10, true), &fresh, &ot));
}

#[test]
fn recompile_decision_on_vanished_dependency() {
    let mut ot = new_old_table();
    let mut bt = BuildTable::new(
        &mut ot,
        &vec![entry("./src/a.c", 10, true), entry("include/gone.h", 5, false)],
        &vec![],
    );
    assert!(bt.any_dependencies_changed());
    let deps = vec![dep("include/gone.h", false, 0)];
    assert!(bt.needs_to_be_recompiled(&source("./src/a.c", 10, true), &deps, &ot));
}

#[test]
fn large_dependency_sets_answer_the_same() {
    let mut ot = new_old_table();
    let mut entries = vec![entry("./src/a.c", 10, true), entry("include/h0.h", 1, true)];
    for i in 0..80 {
        entries.push(entry(&format!("include/k{}.h", i), 7, true));
    }
    let mut bt = BuildTable::new(&mut ot, &entries, &vec![header("./include/h0.h", 2)]);
    assert!(bt.any_dependencies_changed());
    // eighty fresh dependencies, checked in parallel: nothing stale
    let mut fresh = Vec::new();
    for i in 0..80 {
        fresh.push(dep(&format!("include/k{}.h", i), true, 7));
    }
    assert!(!bt.needs_to_be_recompiled(&source("./src/a.c", 10, true), &fresh, &ot));
    // the same set with one stale member selects the file
    let mut one_stale = fresh.clone();
    one_stale[53] = dep("include/k53.h", true, 8);
    assert!(bt.needs_to_be_recompiled(&source("./src/a.c", 10, true), &one_stale, &ot));
}

#[test]
fn erase_forgets_one_path_only() {
    let mut ot = new_old_table();
    let mut bt = BuildTable::new(
        &mut ot,
        &vec![entry("./src/a.c", 10, true), entry("./src/b.c", 11, true)],
        &vec![],
    );
    bt.erase("./src/a.c");
    assert!(!bt.contains("./src/a.c"));
    assert!(bt.contains("./src/b.c"));
    bt.erase("./src/never-there.c");
    assert!(bt.contains("./src/b.c"));
}

#[test]
fn dirty_flag_setting_and_toggling() {
    let mut ot = new_old_table();
    let mut bt = BuildTable::new(&mut ot, &vec![entry("./src/a.c", 10, true)], &vec![]);
    assert!(!bt.any_dependencies_changed());
    bt.set_any_dependencies_changed(true);
    assert!(bt.any_dependencies_changed());
    bt.set_any_dependencies_changed(false);
    assert!(!bt.any_dependencies_changed());
    bt.set_any_dependencies_changed(false);
    assert!(bt.any_dependencies_changed());
}

#[test]
fn write_back_happens_only_when_dirty() {
    let mut ot = new_old_table();
    let bt = BuildTable::new(&mut ot, &vec![entry("./src/a.c", 10, true)], &vec![]);
    assert_eq!(bt.finalize(), None);
    let mut ot2 = new_old_table();
    let mut bt2 = BuildTable::new(&mut ot2, &vec![], &vec![header("./include/a.h", 3)]);
    assert!(bt2.needs_to_be_recompiled(&source("./src/a.c", 10, false), &vec![], &ot2));
    let written = bt2.finalize().expect("a dirty store must be written back");
    assert_eq!(written, "include/a.h=3\n./src/a.c=10\n");
}

#[test]
fn insert_updates_in_place_and_appends_new_keys() {
    let mut ot = new_old_table();
    let mut bt = BuildTable::new(
        &mut ot,
        &vec![entry("./src/a.c", 10, true), entry("./src/b.c", 11, true)],
        &vec![],
    );
    bt.insert("./src/a.c".to_string(), 99);
    bt.insert("./src/c.c".to_string(), 12);
    assert_eq!(bt.get("./src/a.c"), Some(99));
    assert_eq!(
        bt.to_table_string(),
        "./src/a.c=99\n./src/b.c=11\n./src/c.c=12\n"
    );
}

#[test]
fn serialization_parses_back_to_the_same_records() {
    let mut ot = new_old_table();
    let bt = BuildTable::new(
        &mut ot,
        &vec![
            entry("./src/a.c", 10, true),
            entry("include/h.h", 20, true),
            entry("./src/b.c", 30, true),
        ],
        &vec![],
    );
    let text = bt.to_table_string();
    assert_eq!(
        quikc::tablefile::parse_table(&text),
        vec![
            ("./src/a.c".to_string(), 10),
            ("include/h.h".to_string(), 20),
            ("./src/b.c".to_string(), 30),
        ]
    );
}

#[test]
fn reset_forgets_everything_and_forces_write_back() {
    let mut ot = new_old_table();
    let mut bt = BuildTable::new(
        &mut ot,
        &vec![entry("./src/a.c", 10, true), entry("include/h.h", 5, true)],
        &vec![],
    );
    bt.reset();
    assert!(!bt.contains("./src/a.c"));
    assert!(!bt.contains("include/h.h"));
    assert!(bt.any_dependencies_changed());
    assert_eq!(bt.finalize(), Some(String::new()));
}
