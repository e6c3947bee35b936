//! The walker, the command shapes, the link decision, the assembler
//! variant, and the whole engine run on a small project.

use quikc::assembler::{default_assembly_worklist, use_default_assembler_configuration};
use quikc::buildtable::{
    new_old_table, BuildTable, DepObservation, FileObservation, SourceObservation, TableEntry,
};
use quikc::compiler::{
    all_compilations_succeeded, assembly_output_args, dependency_generation_args, is_c_source_file,
    is_cpp_source_file, is_gcc_or_clang, is_header_file, object_compile_args,
    select_default_compiler, to_output_file, use_default_compiler_configuration, CompilerConfig,
};
use quikc::example::{get_field_parent, FieldType};
use quikc::linker::{link_arguments, should_link, use_default_linker_configuration, LinkerConfig};
use quikc::tablefile::parse_table;
use quikc::walker::{retrieve_source_files, source_dependency_missing, SourceScanItem};
use quikc::{BuildError, QuikcFlags};

fn entry(path: &str, at: u64, exists: bool) -> TableEntry {
    TableEntry { path: path.to_string(), modified_at: at, exists }
}

fn header(path: &str, at: u64) -> FileObservation {
    FileObservation { path: path.to_string(), modified_at: at }
}

fn item(path: &str, at: u64, artifact: bool, deps: Vec<DepObservation>) -> SourceScanItem {
    SourceScanItem {
        source: SourceObservation {
            path: path.to_string(),
            modified_at: at,
            artifact_exists: artifact,
        },
        deps,
    }
}

fn dep(path: &str, exists: bool, at: u64) -> DepObservation {
    DepObservation { path: path.to_string(), exists, modified_at: at }
}

fn strings(v: &[&str]) -> Vec<String> {
    v.iter().map(|s| s.to_string()).collect()
}

#[test]
fn file_kinds_by_extension() {
    assert!(is_header_file("a.h"));
    assert!(is_header_file("a.hpp"));
    assert!(is_header_file("a.hxx"));
    assert!(is_header_file("a.hh"));
    assert!(!is_header_file("a.c"));
    assert!(is_c_source_file("a.c"));
    assert!(!is_c_source_file("a.cc"));
    assert!(is_cpp_source_file("a.cpp"));
    assert!(is_cpp_source_file("a.cxx"));
    assert!(is_cpp_source_file("a.cc"));
    assert!(!is_cpp_source_file("a.h"));
}

#[test]
fn artifact_paths_are_derived_from_stems() {
    assert_eq!(
        to_output_file("./src/main.c", "./buildinfo/obj", "o"),
        "./buildinfo/obj/main.o"
    );
    assert_eq!(
        to_output_file("./src/dev.cpp", "./buildinfo/asm", "s"),
        "./buildinfo/asm/dev.s"
    );
    assert_eq!(
        to_output_file("./src/dev.cpp", "./buildinfo/deps", "d"),
        "./buildinfo/deps/dev.d"
    );
}

#[test]
fn known_compiler_families() {
    assert!(is_gcc_or_clang("gcc"));
    assert!(is_gcc_or_clang("g++"));
    assert!(is_gcc_or_clang("clang"));
    assert!(is_gcc_or_clang("clang++"));
    assert!(!is_gcc_or_clang("msvc"));
    assert!(!is_gcc_or_clang(""));
}

#[test]
fn default_compiler_is_first_usable() {
    assert_eq!(select_default_compiler(true, true, true, true), Some("gcc".to_string()));
    assert_eq!(select_default_compiler(false, true, true, true), Some("clang".to_string()));
    assert_eq!(select_default_compiler(false, false, true, true), Some("g++".to_string()));
    assert_eq!(select_default_compiler(false, false, false, true), Some("clang++".to_string()));
    assert_eq!(select_default_compiler(false, false, false, false), None);
}

#[test]
fn command_argument_shapes() {
    assert_eq!(
        dependency_generation_args("./src/a.c", "./buildinfo/deps/a.d"),
        strings(&["-I./include", "./src/a.c", "-MM", "-o", "./buildinfo/deps/a.d"])
    );
    assert_eq!(
        object_compile_args("./src/a.c", "./buildinfo/obj/a.o"),
        strings(&["-I./include", "./src/a.c", "-c", "-o", "./buildinfo/obj/a.o"])
    );
    assert_eq!(
        assembly_output_args("./src/a.c", "./buildinfo/asm/a.s"),
        strings(&["-I./include", "./src/a.c", "-S", "-o", "./buildinfo/asm/a.s"])
    );
    assert_eq!(
        link_arguments(&strings(&["./buildinfo/obj/a.o", "./buildinfo/obj/b.o"]), "prog"),
        strings(&["./buildinfo/obj/a.o", "./buildinfo/obj/b.o", "-o", "prog"])
    );
}

#[test]
fn wave_success_is_conjunction() {
    assert!(all_compilations_succeeded(&vec![]));
    assert!(all_compilations_succeeded(&vec![true, true, true]));
    assert!(!all_compilations_succeeded(&vec![true, false, true]));
}

#[test]
fn configuration_defaults() {
    let c = CompilerConfig {
        compiler: "gcc".to_string(),
        args: None,
        cstd: None,
        cppstd: None,
    };
    assert!(use_default_compiler_configuration(&c));
    let c2 = CompilerConfig { args: Some(strings(&["-O3"])), ..c };
    assert!(!use_default_compiler_configuration(&c2));
    let l = LinkerConfig { args: None, libraries: Some(strings(&["-lm"])) };
    assert!(use_default_linker_configuration(&l));
    let l2 = LinkerConfig { args: Some(vec![]), libraries: None };
    assert!(!use_default_linker_configuration(&l2));
    assert!(use_default_assembler_configuration(&None));
    assert!(use_default_assembler_configuration(&Some(vec![])));
    assert!(!use_default_assembler_configuration(&Some(strings(&["-g"]))));
}

#[test]
fn link_decision() {
    let plain = QuikcFlags::none();
    assert!(should_link(true, true, &plain));
    assert!(should_link(false, false, &plain));
    assert!(!should_link(false, true, &plain));
    let no_link = QuikcFlags { do_not_link: true, ..QuikcFlags::none() };
    assert!(!should_link(true, false, &no_link));
}

#[test]
fn field_parents() {
    assert_eq!(get_field_parent(FieldType::CompilerArgs), "[compiler]");
    assert_eq!(get_field_parent(FieldType::LinkerArgs), "[linker]");
}

#[test]
fn assembly_worklist_defaults_to_all_sources() {
    let files = strings(&["./src/a.c", "./src/b.cpp", "./src/notes.txt", "./src/c.cc"]);
    assert_eq!(
        default_assembly_worklist(&files),
        strings(&["./src/a.c", "./src/b.cpp", "./src/c.cc"])
    );
}

#[test]
fn orphan_reconciliation_removes_all_orphans() {
    let mut ot = new_old_table();
    let mut bt = BuildTable::new(
        &mut ot,
        &vec![
            entry("./src/d.c", 10, true),
            entry("./src/keep.c", 11, true),
        ],
        &vec![],
    );
    let artifacts = strings(&[
        "./buildinfo/obj/d.o",
        "./buildinfo/obj/keep.o",
        "./buildinfo/obj/gone.o",
    ]);
    let dir_files = strings(&["./src/keep.c"]);
    let (found, orphans) = source_dependency_missing("./src", &artifacts, &dir_files, &mut bt);
    assert!(found);
    assert_eq!(orphans, strings(&["./buildinfo/obj/d.o", "./buildinfo/obj/gone.o"]));
    // the deleted source's record is gone, unrelated records stay
    assert!(!bt.contains("./src/d.c"));
    assert!(bt.contains("./src/keep.c"));
}

#[test]
fn no_orphans_touch_nothing() {
    let mut ot = new_old_table();
    let mut bt = BuildTable::new(&mut ot, &vec![entry("./src/a.c", 10, true)], &vec![]);
    let artifacts = strings(&["./buildinfo/obj/a.o"]);
    let dir_files = strings(&["./src/a.c"]);
    let (found, orphans) = source_dependency_missing("./src", &artifacts, &dir_files, &mut bt);
    assert!(!found);
    assert_eq!(orphans, Vec::<String>::new());
    assert!(bt.contains("./src/a.c"));
}

#[test]
fn empty_source_directory_is_an_error() {
    let mut ot = new_old_table();
    let mut bt = BuildTable::new(&mut ot, &vec![], &vec![]);
    let items = vec![item("./src/readme.md", 1, false, vec![])];
    let r = retrieve_source_files(&items, false, &mut bt, &ot);
    assert_eq!(r, Err(BuildError::NoSourceFiles));
}

#[test]
fn an_orphan_forces_everything_onto_the_worklist() {
    let mut ot = new_old_table();
    let mut bt = BuildTable::new(
        &mut ot,
        &vec![entry("./src/a.c", 10, true), entry("./src/b.c", 11, true)],
        &vec![],
    );
    let items = vec![
        item("./src/a.c", 10, true, vec![]),
        item("./src/b.c", 11, true, vec![]),
    ];
    let wl = retrieve_source_files(&items, true, &mut bt, &ot).unwrap();
    assert_eq!(wl, strings(&["./src/a.c", "./src/b.c"]));
    assert!(bt.any_dependencies_changed());
}

#[test]
fn failed_compilation_is_retried_alone() {
    // the failed file left no artifact behind; nothing else changed
    let mut ot = new_old_table();
    let mut bt = BuildTable::new(
        &mut ot,
        &vec![
            entry("./src/a.c", 10, true),
            entry("./src/bad.c", 11, true),
            entry("./src/c.c", 12, true),
        ],
        &vec![],
    );
    let items = vec![
        item("./src/a.c", 10, true, vec![]),
        item("./src/bad.c", 11, false, vec![]),
        item("./src/c.c", 12, true, vec![]),
    ];
    let wl = retrieve_source_files(&items, false, &mut bt, &ot).unwrap();
    assert_eq!(wl, strings(&["./src/bad.c"]));
}

#[test]
fn store_reset_forces_full_recompilation() {
    let mut ot = new_old_table();
    let mut bt = BuildTable::new(
        &mut ot,
        &vec![entry("./src/a.c", 10, true), entry("./src/b.c", 11, true)],
        &vec![],
    );
    bt.reset();
    let fresh_ot = new_old_table();
    let items = vec![
        item("./src/a.c", 10, true, vec![]),
        item("./src/b.c", 11, true, vec![]),
    ];
    let wl = retrieve_source_files(&items, false, &mut bt, &fresh_ot).unwrap();
    assert_eq!(wl, strings(&["./src/a.c", "./src/b.c"]));
}

#[test]
fn three_sources_and_a_common_header() {
    // first build: an empty persisted store, one header, three sources
    let mut ot = new_old_table();
    let headers = vec![header("./include/common.h", 100)];
    let mut bt = BuildTable::new(&mut ot, &vec![], &headers);
    let common = || vec![dep("include/common.h", true, 100)];
    let items = vec![
        item("./src/a.c", 10, false, vec![]),
        item("./src/b.c", 11, false, common()),
        item("./src/c.c", 12, false, common()),
    ];
    let wl = retrieve_source_files(&items, false, &mut bt, &ot).unwrap();
    assert_eq!(wl.len(), 3);
    let mut artifacts = 0;
    artifacts += wl.len(); // compilation succeeds for all three
    assert_eq!(artifacts, 3);
    let persisted = bt.finalize().expect("first build must write the store back");

    // the header is touched; the second run reloads the store
    let mut ot2 = new_old_table();
    let entries2: Vec<TableEntry> = parse_table(&persisted)
        .into_iter()
        .map(|(path, modified_at)| TableEntry { path, modified_at, exists: true })
        .collect();
    let headers2 = vec![header("./include/common.h", 200)];
    let mut bt2 = BuildTable::new(&mut ot2, &entries2, &headers2);
    let common2 = || vec![dep("include/common.h", true, 200)];
    let items2 = vec![
        item("./src/a.c", 10, true, vec![]),
        item("./src/b.c", 11, true, common2()),
        item("./src/c.c", 12, true, common2()),
    ];
    let wl2 = retrieve_source_files(&items2, false, &mut bt2, &ot2).unwrap();
    assert_eq!(wl2, strings(&["./src/b.c", "./src/c.c"]));
    // the untouched a.o is retained: only b and c are rebuilt
    assert_eq!(artifacts, 3);
    let persisted2 = bt2.finalize().expect("the second build changed the store");

    // a third run with nothing touched selects nothing and skips write-back
    let mut ot3 = new_old_table();
    let entries3: Vec<TableEntry> = parse_table(&persisted2)
        .into_iter()
        .map(|(path, modified_at)| TableEntry { path, modified_at, exists: true })
        .collect();
    let headers3 = vec![header("./include/common.h", 200)];
    let mut bt3 = BuildTable::new(&mut ot3, &entries3, &headers3);
    let items3 = vec![
        item("./src/a.c", 10, true, vec![]),
        item("./src/b.c", 11, true, common2()),
        item("./src/c.c", 12, true, common2()),
    ];
    let wl3 = retrieve_source_files(&items3, false, &mut bt3, &ot3).unwrap();
    assert_eq!(wl3, Vec::<String>::new());
    assert_eq!(bt3.finalize(), None);
}
