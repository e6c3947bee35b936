//! The tree walker: reconciles the artifact directory with the sources
//! that actually exist, and selects the compile worklist.
//!
//! The walker decides over observations only.  The caller enumerates
//! directories, deletes the artifacts the walker condemns, and hands
//! every staleness input in as plain values.

use vstd::hash_map::StringHashMap;
use vstd::prelude::*;
use vstd::string::*;

use crate::buildtable::{
    modified_since_last_build, needs_recompile, view_after_erase, view_after_insert, BuildTable,
    BuildTableView, DepObservation, SourceObservation,
};
use crate::compiler::{
    is_c_source_file, is_cpp_source_file, is_source_path, output_file_spec, to_output_file,
};
use crate::strutil::str_eq;
use crate::tablefile::line_safe;
use crate::BuildError;

verus! {

/// An artifact is orphaned when no source file with its stem and any
/// recognized extension still stands in the source directory.
pub open spec fn orphan_artifact(
    dir: Seq<char>,
    artifact: Seq<char>,
    dir_files: Seq<Seq<char>>,
) -> bool {
    &&& !dir_files.contains(output_file_spec(artifact, dir, "c"@))
    &&& !dir_files.contains(output_file_spec(artifact, dir, "cpp"@))
    &&& !dir_files.contains(output_file_spec(artifact, dir, "cc"@))
    &&& !dir_files.contains(output_file_spec(artifact, dir, "cxx"@))
}

/// Reconciling one artifact: an orphan has every candidate source path
/// of its stem dropped from the store; anything else is left alone.
pub open spec fn orphan_step(
    v: BuildTableView,
    dir: Seq<char>,
    artifact: Seq<char>,
    dir_files: Seq<Seq<char>>,
) -> BuildTableView {
    if orphan_artifact(dir, artifact, dir_files) {
        view_after_erase(
            view_after_erase(
                view_after_erase(
                    view_after_erase(v, output_file_spec(artifact, dir, "c"@)),
                    output_file_spec(artifact, dir, "cpp"@),
                ),
                output_file_spec(artifact, dir, "cc"@),
            ),
            output_file_spec(artifact, dir, "cxx"@),
        )
    } else {
        v
    }
}

/// The store after reconciling every artifact, first to last.
pub open spec fn view_after_reconcile(
    v: BuildTableView,
    dir: Seq<char>,
    artifacts: Seq<Seq<char>>,
    dir_files: Seq<Seq<char>>,
) -> BuildTableView
    decreases artifacts.len(),
{
    if artifacts.len() == 0 {
        v
    } else {
        view_after_reconcile(
            orphan_step(v, dir, artifacts[0], dir_files),
            dir,
            artifacts.drop_first(),
            dir_files,
        )
    }
}

/// The orphaned artifacts among `artifacts`, in order.
pub open spec fn orphans_of(
    dir: Seq<char>,
    artifacts: Seq<Seq<char>>,
    dir_files: Seq<Seq<char>>,
) -> Seq<Seq<char>>
    decreases artifacts.len(),
{
    if artifacts.len() == 0 {
        Seq::empty()
    } else {
        (if orphan_artifact(dir, artifacts[0], dir_files) {
            seq![artifacts[0]]
        } else {
            Seq::empty()
        }) + orphans_of(dir, artifacts.drop_first(), dir_files)
    }
}

/// Whether `files` holds a path equal to `p`.
fn contains_file(files: &Vec<String>, p: &str) -> (r: bool)
    ensures
        r == files.deep_view().contains(p@),
{
    let n = files.len();
    let mut i: usize = 0;
    while i < n
        invariant
            0 <= i <= n,
            n == files.deep_view().len(),
            forall|j: int| 0 <= j < i ==> files.deep_view()[j] != p@,
        decreases n - i,
    {
        if str_eq(files[i].as_str(), p) {
            assert(files.deep_view()[i as int] == p@);
            return true;
        }
        i += 1;
    }
    proof {
        if files.deep_view().contains(p@) {
            let j = choose|j: int| 0 <= j < n && files.deep_view()[j] == p@;
        }
    }
    false
}

/// Reconciles the artifact directory against the source directory:
/// every artifact whose stem matches no surviving source file, under
/// any recognized extension, is condemned, and every candidate source
/// path of its stem is erased from the store.  Returns whether any
/// orphan was found, and the orphaned artifacts for the caller to
/// delete.  All orphans are reconciled in one pass.
pub fn source_dependency_missing(
    dir: &str,
    artifacts: &Vec<String>,
    dir_files: &Vec<String>,
    build_table: &mut BuildTable,
) -> (r: (bool, Vec<String>))
    requires
        old(build_table).well_formed(),
    ensures
        final(build_table).well_formed(),
        final(build_table)@ == view_after_reconcile(
            old(build_table)@,
            dir@,
            artifacts.deep_view(),
            dir_files.deep_view(),
        ),
        r.1.deep_view() == orphans_of(dir@, artifacts.deep_view(), dir_files.deep_view()),
        r.0 == (r.1.deep_view().len() > 0),
{
    let ghost arts = artifacts.deep_view();
    let ghost files = dir_files.deep_view();
    let mut orphans: Vec<String> = Vec::new();
    let n = artifacts.len();
    let mut i: usize = 0;
    proof {
        assert(arts.skip(0) =~= arts);
        assert(orphans.deep_view() + orphans_of(dir@, arts, files) =~= orphans_of(
            dir@,
            arts,
            files,
        ));
    }
    while i < n
        invariant
            0 <= i <= n,
            n == arts.len(),
            arts == artifacts.deep_view(),
            files == dir_files.deep_view(),
            build_table.well_formed(),
            view_after_reconcile(old(build_table)@, dir@, arts, files) == view_after_reconcile(
                build_table@,
                dir@,
                arts.skip(i as int),
                files,
            ),
            orphans.deep_view() + orphans_of(dir@, arts.skip(i as int), files) == orphans_of(
                dir@,
                arts,
                files,
            ),
        decreases n - i,
    {
        let ghost pre = build_table@;
        let a = &artifacts[i];
        let c1 = to_output_file(a.as_str(), dir, "c");
        let c2 = to_output_file(a.as_str(), dir, "cpp");
        let c3 = to_output_file(a.as_str(), dir, "cc");
        let c4 = to_output_file(a.as_str(), dir, "cxx");
        let exists = contains_file(dir_files, c1.as_str()) || contains_file(dir_files, c2.as_str())
            || contains_file(dir_files, c3.as_str()) || contains_file(dir_files, c4.as_str());
        if !exists {
            build_table.erase(c1.as_str());
            build_table.erase(c2.as_str());
            build_table.erase(c3.as_str());
            build_table.erase(c4.as_str());
            orphans.push(a.clone());
            proof {
                assert(orphans.deep_view() =~= orphans.deep_view().drop_last().push(arts[i as int]));
            }
        }
        i += 1;
        proof {
            assert(build_table@ =~= orphan_step(pre, dir@, arts[i as int - 1], files));
            assert(arts.skip(i as int - 1)[0] == arts[i as int - 1]);
            assert(arts.skip(i as int - 1).drop_first() =~= arts.skip(i as int));
            if orphan_artifact(dir@, arts[i as int - 1], files) {
                assert(orphans.deep_view() + orphans_of(dir@, arts.skip(i as int), files)
                    =~= orphans_of(dir@, arts, files));
            }
        }
    }
    proof {
        assert(arts.skip(n as int) =~= Seq::<Seq<char>>::empty());
        assert(orphans.deep_view() + Seq::<Seq<char>>::empty() =~= orphans.deep_view());
    }
    let any = orphans.len() > 0;
    (any, orphans)
}

/// One source-directory entry, with every observation the recompile
/// decision for it needs.
pub struct SourceScanItem {
    /// The file itself as observed.
    pub source: SourceObservation,
    /// Its cached dependencies as observed; empty when no dependency
    /// record exists.
    pub deps: Vec<DepObservation>,
}

/// Whether the entry joins the worklist: it must be a recognized
/// translation unit, and either an orphan made this run structural or
/// the file itself needs recompilation.
pub open spec fn item_selected(
    item: SourceScanItem,
    orphan: bool,
    old: Map<Seq<char>, u64>,
    dirty: bool,
) -> bool {
    is_source_path(item.source.path@) && (orphan || needs_recompile(
        item.source,
        item.deps@,
        old,
        dirty,
    ))
}

/// The worklist: the paths of the selected entries, in scan order.
pub open spec fn worklist_spec(
    items: Seq<SourceScanItem>,
    orphan: bool,
    old: Map<Seq<char>, u64>,
    dirty: bool,
) -> Seq<Seq<char>>
    decreases items.len(),
{
    if items.len() == 0 {
        Seq::empty()
    } else {
        (if item_selected(items[0], orphan, old, dirty) {
            seq![items[0].source.path@]
        } else {
            Seq::empty()
        }) + worklist_spec(items.drop_first(), orphan, old, dirty)
    }
}

/// Some entry is a recognized translation unit.
pub open spec fn has_source_item(items: Seq<SourceScanItem>) -> bool {
    exists|i: int| 0 <= i < items.len() && is_source_path(#[trigger] items[i].source.path@)
}

/// Scanning one entry: a stale source file has its new time recorded.
pub open spec fn scan_step_view(
    v: BuildTableView,
    item: SourceScanItem,
    old: Map<Seq<char>, u64>,
) -> BuildTableView {
    if is_source_path(item.source.path@) && modified_since_last_build(
        item.source.path@,
        false,
        item.source.modified_at,
        item.source.artifact_exists,
        old,
    ) {
        view_after_insert(v, item.source.path@, item.source.modified_at)
    } else {
        v
    }
}

/// The store after the whole scan, first to last.
pub open spec fn view_after_scan(
    v: BuildTableView,
    items: Seq<SourceScanItem>,
    old: Map<Seq<char>, u64>,
) -> BuildTableView
    decreases items.len(),
{
    if items.len() == 0 {
        v
    } else {
        view_after_scan(scan_step_view(v, items[0], old), items.drop_first(), old)
    }
}

proof fn lemma_worklist_empty_when_no_sources(
    items: Seq<SourceScanItem>,
    orphan: bool,
    old: Map<Seq<char>, u64>,
    dirty: bool,
)
    requires
        forall|i: int| 0 <= i < items.len() ==> !is_source_path(#[trigger] items[i].source.path@),
    ensures
        worklist_spec(items, orphan, old, dirty) == Seq::<Seq<char>>::empty(),
    decreases items.len(),
{
    if items.len() > 0 {
        lemma_worklist_empty_when_no_sources(items.drop_first(), orphan, old, dirty);
        assert(worklist_spec(items, orphan, old, dirty) =~= Seq::<Seq<char>>::empty());
    }
}

/// Selects the source files that must be compiled this run.  When an
/// orphan was reconciled, everything is selected; otherwise each file's
/// own staleness and cached dependencies decide.  A non-empty worklist
/// raises the store's dirty flag.  When the directory holds no
/// recognized translation unit at all there is nothing to build, and
/// that is an error.
pub fn retrieve_source_files(
    items: &Vec<SourceScanItem>,
    orphan_found: bool,
    build_table: &mut BuildTable,
    old_table: &StringHashMap<u64>,
) -> (r: Result<Vec<String>, BuildError>)
    requires
        old(build_table).well_formed(),
        forall|i: int| 0 <= i < items@.len() ==> line_safe(#[trigger] items@[i].source.path@),
    ensures
        final(build_table).well_formed(),
        ({
            let wl = worklist_spec(
                items@,
                orphan_found,
                old_table@,
                old(build_table)@.any_dependencies_changed,
            );
            let scanned = if orphan_found {
                old(build_table)@
            } else {
                view_after_scan(old(build_table)@, items@, old_table@)
            };
            &&& final(build_table)@ == (if wl.len() > 0 {
                BuildTableView { any_dependencies_changed: true, ..scanned }
            } else {
                scanned
            })
            &&& (match r {
                Ok(w) => has_source_item(items@) && w.deep_view() == wl,
                Err(e) => !has_source_item(items@) && e == BuildError::NoSourceFiles,
            })
        }),
{
    let ghost dirty0 = build_table@.any_dependencies_changed;
    let mut source_files: Vec<String> = Vec::new();
    let mut has_source_file = false;
    let n = items.len();
    let mut i: usize = 0;
    proof {
        assert(items@.skip(0) =~= items@);
        assert(source_files.deep_view() + worklist_spec(items@, orphan_found, old_table@, dirty0)
            =~= worklist_spec(items@, orphan_found, old_table@, dirty0));
    }
    while i < n
        invariant
            0 <= i <= n,
            n == items@.len(),
            forall|t: int| 0 <= t < n ==> line_safe(#[trigger] items@[t].source.path@),
            build_table.well_formed(),
            build_table@.any_dependencies_changed == dirty0,
            dirty0 == old(build_table)@.any_dependencies_changed,
            source_files.deep_view() + worklist_spec(
                items@.skip(i as int),
                orphan_found,
                old_table@,
                dirty0,
            ) == worklist_spec(items@, orphan_found, old_table@, dirty0),
            orphan_found ==> build_table@ == old(build_table)@,
            !orphan_found ==> view_after_scan(old(build_table)@, items@, old_table@)
                == view_after_scan(build_table@, items@.skip(i as int), old_table@),
            has_source_file == exists|j: int|
                0 <= j < i && is_source_path(#[trigger] items@[j].source.path@),
        decreases n - i,
    {
        let ghost pre = build_table@;
        let item = &items[i];
        let path_is_source = is_cpp_source_file(item.source.path.as_str()) || is_c_source_file(
            item.source.path.as_str(),
        );
        if path_is_source {
            has_source_file = true;
            let selected = if orphan_found {
                true
            } else {
                build_table.needs_to_be_recompiled(&item.source, &item.deps, old_table)
            };
            if selected {
                source_files.push(item.source.path.clone());
                proof {
                    assert(source_files.deep_view() =~= source_files.deep_view().drop_last().push(
                        items@[i as int].source.path@,
                    ));
                }
            }
        }
        i += 1;
        proof {
            assert(items@.skip(i as int - 1)[0] == items@[i as int - 1]);
            assert(items@.skip(i as int - 1).drop_first() =~= items@.skip(i as int));
            if !orphan_found {
                assert(build_table@ =~= scan_step_view(pre, items@[i as int - 1], old_table@));
            }
            assert(source_files.deep_view() + worklist_spec(
                items@.skip(i as int),
                orphan_found,
                old_table@,
                dirty0,
            ) =~= worklist_spec(items@, orphan_found, old_table@, dirty0));
        }
    }
    proof {
        assert(items@.skip(n as int) =~= Seq::<SourceScanItem>::empty());
        assert(source_files.deep_view() + Seq::<Seq<char>>::empty() =~= source_files.deep_view());
    }
    let source_file_needs_to_be_recompiled = source_files.len() > 0;
    if source_file_needs_to_be_recompiled {
        build_table.set_any_dependencies_changed(true);
    }
    proof {
        if !has_source_file {
            assert forall|j: int| 0 <= j < items@.len() implies !is_source_path(
                #[trigger] items@[j].source.path@,
            ) by {}
            lemma_worklist_empty_when_no_sources(items@, orphan_found, old_table@, dirty0);
        }
    }
    if !has_source_file {
        return Err(BuildError::NoSourceFiles);
    }
    Ok(source_files)
}

} // verus!
