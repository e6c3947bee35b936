//! The engine's guarantees, each stated over the specification
//! functions that the executable contracts use, and proved once for
//! all inputs.

use vstd::prelude::*;

use crate::buildtable::{
    dependency_stale, entry_step, header_step, modified_since_last_build, old_after_entries,
    old_entry_step, some_dependency_stale, table_well_formed, view_after_entries,
    view_after_header_scan, BuildTableView, FileObservation, TableEntry,
};
use crate::compiler::{is_header_path, is_source_path, output_file_spec};
use crate::strutil::strip_dot_slash_spec;
use crate::tablefile::{lemma_store_round_trip, parse_table_spec, serialize_keyed};
use crate::walker::{
    item_selected, orphan_artifact, orphan_step, view_after_reconcile, worklist_spec,
    SourceScanItem,
};

verus! {

/// Law: a source tree in which nothing changed selects nothing.  With
/// no orphan, a clean dirty flag, and every scanned file recorded in
/// the snapshot at its observed time with its artifact present, the
/// worklist of the next run is empty.
pub proof fn lemma_idempotent_rebuild(items: Seq<SourceScanItem>, old: Map<Seq<char>, u64>)
    requires
        forall|i: int| 0 <= i < items.len() ==> old.contains_key(#[trigger] items[i].source.path@),
        forall|i: int|
            0 <= i < items.len() ==> old[#[trigger] items[i].source.path@]
                == items[i].source.modified_at,
        forall|i: int| 0 <= i < items.len() ==> (#[trigger] items[i].source).artifact_exists,
    ensures
        worklist_spec(items, false, old, false) == Seq::<Seq<char>>::empty(),
    decreases items.len(),
{
    if items.len() > 0 {
        assert(!item_selected(items[0], false, old, false));
        assert forall|i: int| 0 <= i < items.drop_first().len() implies old.contains_key(
            #[trigger] items.drop_first()[i].source.path@,
        ) && old[items.drop_first()[i].source.path@] == items.drop_first()[i].source.modified_at
            && items.drop_first()[i].source.artifact_exists by {
            assert(items.drop_first()[i] == items[i + 1]);
        }
        lemma_idempotent_rebuild(items.drop_first(), old);
        assert(worklist_spec(items, false, old, false) =~= Seq::<Seq<char>>::empty());
    }
}

/// The item lists `h` among its observed dependencies.
pub open spec fn item_depends_on(item: SourceScanItem, h: Seq<char>) -> bool {
    exists|j: int| 0 <= j < item.deps@.len() && (#[trigger] item.deps@[j]).path@ == h
}

/// The paths of the translation units that list `h` among their
/// dependencies, in scan order.
pub open spec fn dependents_of(items: Seq<SourceScanItem>, h: Seq<char>) -> Seq<Seq<char>>
    decreases items.len(),
{
    if items.len() == 0 {
        Seq::empty()
    } else {
        (if is_source_path(items[0].source.path@) && item_depends_on(items[0], h) {
            seq![items[0].source.path@]
        } else {
            Seq::empty()
        }) + dependents_of(items.drop_first(), h)
    }
}

/// Law: touching one header fans out to exactly its dependents.  When
/// the run is dirty, no scanned file changed of itself, and a
/// dependency observation is stale precisely when it names the touched
/// header `h`, the worklist holds exactly the translation units that
/// list `h`.
pub proof fn lemma_header_fanout(items: Seq<SourceScanItem>, h: Seq<char>, old: Map<Seq<char>, u64>)
    requires
        forall|i: int|
            0 <= i < items.len() ==> !modified_since_last_build(
                (#[trigger] items[i]).source.path@,
                false,
                items[i].source.modified_at,
                items[i].source.artifact_exists,
                old,
            ),
        forall|i: int, j: int|
            0 <= i < items.len() && 0 <= j < items[i].deps@.len() ==> (dependency_stale(
                #[trigger] items[i].deps@[j],
                old,
            ) <==> items[i].deps@[j].path@ == h),
    ensures
        worklist_spec(items, false, old, true) == dependents_of(items, h),
    decreases items.len(),
{
    if items.len() > 0 {
        assert(some_dependency_stale(items[0].deps@, old) <==> item_depends_on(items[0], h)) by {
            if some_dependency_stale(items[0].deps@, old) {
                let j = choose|j: int|
                    0 <= j < items[0].deps@.len() && dependency_stale(
                        #[trigger] items[0].deps@[j],
                        old,
                    );
                assert(items[0].deps@[j].path@ == h);
            }
            if item_depends_on(items[0], h) {
                let j = choose|j: int|
                    0 <= j < items[0].deps@.len() && (#[trigger] items[0].deps@[j]).path@ == h;
                assert(dependency_stale(items[0].deps@[j], old));
            }
        }
        assert forall|i: int, j: int|
            0 <= i < items.drop_first().len() && 0 <= j
                < items.drop_first()[i].deps@.len() implies (dependency_stale(
            #[trigger] items.drop_first()[i].deps@[j],
            old,
        ) <==> items.drop_first()[i].deps@[j].path@ == h) by {
            assert(items.drop_first()[i] == items[i + 1]);
        }
        assert forall|i: int| 0 <= i < items.drop_first().len() implies !modified_since_last_build(
            (#[trigger] items.drop_first()[i]).source.path@,
            false,
            items.drop_first()[i].source.modified_at,
            items.drop_first()[i].source.artifact_exists,
            old,
        ) by {
            assert(items.drop_first()[i] == items[i + 1]);
        }
        lemma_header_fanout(items.drop_first(), h, old);
        assert(worklist_spec(items, false, old, true) =~= dependents_of(items, h));
    }
}

/// Reconciliation only ever drops keys from the store.
pub proof fn lemma_reconcile_no_new_keys(
    v: BuildTableView,
    dir: Seq<char>,
    artifacts: Seq<Seq<char>>,
    dir_files: Seq<Seq<char>>,
    k: Seq<char>,
)
    ensures
        view_after_reconcile(v, dir, artifacts, dir_files).entries.contains_key(k)
            ==> v.entries.contains_key(k),
    decreases artifacts.len(),
{
    if artifacts.len() > 0 {
        lemma_reconcile_no_new_keys(
            orphan_step(v, dir, artifacts[0], dir_files),
            dir,
            artifacts.drop_first(),
            dir_files,
            k,
        );
    }
}

/// Law (orphan cleanup, removal half): an orphaned artifact has every
/// candidate source path of its stem out of the store once the walk
/// reconciled it.
pub proof fn lemma_orphan_cleanup_removes(
    v: BuildTableView,
    dir: Seq<char>,
    artifacts: Seq<Seq<char>>,
    dir_files: Seq<Seq<char>>,
    i: int,
    c: Seq<char>,
)
    requires
        0 <= i < artifacts.len(),
        orphan_artifact(dir, artifacts[i], dir_files),
        c == output_file_spec(artifacts[i], dir, "c"@) || c == output_file_spec(
            artifacts[i],
            dir,
            "cpp"@,
        ) || c == output_file_spec(artifacts[i], dir, "cc"@) || c == output_file_spec(
            artifacts[i],
            dir,
            "cxx"@,
        ),
    ensures
        !view_after_reconcile(v, dir, artifacts, dir_files).entries.contains_key(c),
    decreases artifacts.len(),
{
    if i == 0 {
        let v1 = orphan_step(v, dir, artifacts[0], dir_files);
        assert(!v1.entries.contains_key(c));
        lemma_reconcile_no_new_keys(v1, dir, artifacts.drop_first(), dir_files, c);
    } else {
        lemma_orphan_cleanup_removes(
            orphan_step(v, dir, artifacts[0], dir_files),
            dir,
            artifacts.drop_first(),
            dir_files,
            i - 1,
            c,
        );
        assert(artifacts.drop_first()[i - 1] == artifacts[i]);
    }
}

/// Law (orphan cleanup, preservation half): a tracked path that is no
/// candidate source path of any artifact keeps its recorded time
/// through reconciliation.
pub proof fn lemma_orphan_cleanup_preserves_unrelated(
    v: BuildTableView,
    dir: Seq<char>,
    artifacts: Seq<Seq<char>>,
    dir_files: Seq<Seq<char>>,
    k: Seq<char>,
)
    requires
        forall|i: int|
            0 <= i < artifacts.len() ==> k != output_file_spec(#[trigger] artifacts[i], dir, "c"@)
                && k != output_file_spec(artifacts[i], dir, "cpp"@) && k != output_file_spec(
                artifacts[i],
                dir,
                "cc"@,
            ) && k != output_file_spec(artifacts[i], dir, "cxx"@),
    ensures
        view_after_reconcile(v, dir, artifacts, dir_files).entries.contains_key(k)
            == v.entries.contains_key(k),
        v.entries.contains_key(k) ==> view_after_reconcile(v, dir, artifacts, dir_files).entries[k]
            == v.entries[k],
    decreases artifacts.len(),
{
    if artifacts.len() > 0 {
        let v1 = orphan_step(v, dir, artifacts[0], dir_files);
        assert(v1.entries.contains_key(k) == v.entries.contains_key(k));
        assert(v.entries.contains_key(k) ==> v1.entries[k] == v.entries[k]);
        assert forall|i: int| 0 <= i < artifacts.drop_first().len() implies k != output_file_spec(
            #[trigger] artifacts.drop_first()[i],
            dir,
            "c"@,
        ) && k != output_file_spec(artifacts.drop_first()[i], dir, "cpp"@) && k
            != output_file_spec(artifacts.drop_first()[i], dir, "cc"@) && k != output_file_spec(
            artifacts.drop_first()[i],
            dir,
            "cxx"@,
        ) by {
            assert(artifacts.drop_first()[i] == artifacts[i + 1]);
        }
        lemma_orphan_cleanup_preserves_unrelated(v1, dir, artifacts.drop_first(), dir_files, k);
    }
}

/// The dirty flag never falls while persisted records load.
pub proof fn lemma_entries_keep_dirty(v: BuildTableView, entries: Seq<TableEntry>)
    requires
        v.any_dependencies_changed,
    ensures
        view_after_entries(v, entries).any_dependencies_changed,
    decreases entries.len(),
{
    if entries.len() > 0 {
        lemma_entries_keep_dirty(entry_step(v, entries[0]), entries.drop_first());
    }
}

/// Law (dependency relocation, load half): a tracked header that no
/// longer exists on disk marks the run dirty while the store loads, so
/// dependency checks run even though no source file was touched.
pub proof fn lemma_missing_header_sets_dirty(
    v: BuildTableView,
    entries: Seq<TableEntry>,
    i: int,
)
    requires
        0 <= i < entries.len(),
        !entries[i].exists,
        is_header_path(entries[i].path@),
    ensures
        view_after_entries(v, entries).any_dependencies_changed,
    decreases entries.len(),
{
    if i == 0 {
        let v1 = entry_step(v, entries[0]);
        assert(v1.any_dependencies_changed);
        lemma_entries_keep_dirty(v1, entries.drop_first());
    } else {
        lemma_missing_header_sets_dirty(entry_step(v, entries[0]), entries.drop_first(), i - 1);
        assert(entries.drop_first()[i - 1] == entries[i]);
    }
}

/// The dirty flag never falls while the include tree is scanned.
pub proof fn lemma_header_scan_keeps_dirty(
    v: BuildTableView,
    files: Seq<FileObservation>,
    old: Map<Seq<char>, u64>,
)
    requires
        v.any_dependencies_changed,
    ensures
        view_after_header_scan(v, files, old).any_dependencies_changed,
    decreases files.len(),
{
    if files.len() > 0 {
        lemma_header_scan_keeps_dirty(header_step(v, files[0], old), files.drop_first(), old);
    }
}

/// Law (header fan-out, load half): a header whose live modification
/// time no longer matches the snapshot marks the run dirty during the
/// include-tree scan, so the per-file dependency checks run at all.
pub proof fn lemma_touched_header_sets_dirty(
    v: BuildTableView,
    files: Seq<FileObservation>,
    old: Map<Seq<char>, u64>,
    i: int,
)
    requires
        0 <= i < files.len(),
        is_header_path(files[i].path@),
        modified_since_last_build(
            strip_dot_slash_spec(files[i].path@),
            true,
            files[i].modified_at,
            true,
            old,
        ),
    ensures
        view_after_header_scan(v, files, old).any_dependencies_changed,
    decreases files.len(),
{
    if i == 0 {
        let v1 = header_step(v, files[0], old);
        assert(v1.any_dependencies_changed);
        lemma_header_scan_keeps_dirty(v1, files.drop_first(), old);
    } else {
        lemma_touched_header_sets_dirty(header_step(v, files[0], old), files.drop_first(), old, i - 1);
        assert(files.drop_first()[i - 1] == files[i]);
    }
}

/// Law (dependency relocation, scan half): once the run is dirty, a
/// translation unit one of whose recorded dependencies vanished is
/// selected, though the unit itself is untouched.
pub proof fn lemma_missing_dependency_selects(
    item: SourceScanItem,
    old: Map<Seq<char>, u64>,
    j: int,
)
    requires
        is_source_path(item.source.path@),
        0 <= j < item.deps@.len(),
        !item.deps@[j].exists,
        item.deps@[j].path@ != seq!['\\'],
    ensures
        item_selected(item, false, old, true),
{
    assert(dependency_stale(item.deps@[j], old));
    assert(some_dependency_stale(item.deps@, old));
}

/// No entry selected, empty worklist.
pub proof fn lemma_worklist_empty_when_none_selected(
    items: Seq<SourceScanItem>,
    orphan: bool,
    old: Map<Seq<char>, u64>,
    dirty: bool,
)
    requires
        forall|i: int| 0 <= i < items.len() ==> !item_selected(#[trigger] items[i], orphan, old, dirty),
    ensures
        worklist_spec(items, orphan, old, dirty) == Seq::<Seq<char>>::empty(),
    decreases items.len(),
{
    if items.len() > 0 {
        assert forall|i: int| 0 <= i < items.drop_first().len() implies !item_selected(
            #[trigger] items.drop_first()[i],
            orphan,
            old,
            dirty,
        ) by {
            assert(items.drop_first()[i] == items[i + 1]);
        }
        lemma_worklist_empty_when_none_selected(items.drop_first(), orphan, old, dirty);
        assert(worklist_spec(items, orphan, old, dirty) =~= Seq::<Seq<char>>::empty());
    }
}

/// Law: failure recovery.  A file whose compilation failed left no
/// artifact behind; on the next run, with nothing else changed (every
/// other file recorded at its observed time, artifact present, and no
/// dependency of any other file stale), the worklist is exactly that
/// one file, whatever the dirty flag says.
pub proof fn lemma_failure_recovery(
    items: Seq<SourceScanItem>,
    f: int,
    old: Map<Seq<char>, u64>,
    dirty: bool,
)
    requires
        0 <= f < items.len(),
        is_source_path(items[f].source.path@),
        !items[f].source.artifact_exists,
        forall|i: int|
            0 <= i < items.len() && i != f ==> old.contains_key(
                #[trigger] items[i].source.path@,
            ) && old[items[i].source.path@] == items[i].source.modified_at
                && items[i].source.artifact_exists,
        forall|i: int, j: int|
            0 <= i < items.len() && i != f && 0 <= j < items[i].deps@.len()
                ==> !dependency_stale(#[trigger] items[i].deps@[j], old),
    ensures
        worklist_spec(items, false, old, dirty) == seq![items[f].source.path@],
    decreases items.len(),
{
    if f == 0 {
        assert(item_selected(items[0], false, old, dirty));
        assert forall|i: int| 0 <= i < items.drop_first().len() implies !item_selected(
            #[trigger] items.drop_first()[i],
            false,
            old,
            dirty,
        ) by {
            assert(items.drop_first()[i] == items[i + 1]);
            assert(!modified_since_last_build(
                items[i + 1].source.path@,
                false,
                items[i + 1].source.modified_at,
                items[i + 1].source.artifact_exists,
                old,
            ));
            if some_dependency_stale(items[i + 1].deps@, old) {
                let j = choose|j: int|
                    0 <= j < items[i + 1].deps@.len() && dependency_stale(
                        #[trigger] items[i + 1].deps@[j],
                        old,
                    );
            }
        }
        lemma_worklist_empty_when_none_selected(items.drop_first(), false, old, dirty);
        assert(worklist_spec(items, false, old, dirty) =~= seq![items[f].source.path@]);
    } else {
        assert(!item_selected(items[0], false, old, dirty)) by {
            assert(!modified_since_last_build(
                items[0].source.path@,
                false,
                items[0].source.modified_at,
                items[0].source.artifact_exists,
                old,
            ));
            if some_dependency_stale(items[0].deps@, old) {
                let j = choose|j: int|
                    0 <= j < items[0].deps@.len() && dependency_stale(
                        #[trigger] items[0].deps@[j],
                        old,
                    );
            }
        }
        assert forall|i: int|
            0 <= i < items.drop_first().len() && i != f - 1 implies old.contains_key(
            #[trigger] items.drop_first()[i].source.path@,
        ) && old[items.drop_first()[i].source.path@] == items.drop_first()[i].source.modified_at
            && items.drop_first()[i].source.artifact_exists by {
            assert(items.drop_first()[i] == items[i + 1]);
        }
        assert forall|i: int, j: int|
            0 <= i < items.drop_first().len() && i != f - 1 && 0 <= j
                < items.drop_first()[i].deps@.len() implies !dependency_stale(
            #[trigger] items.drop_first()[i].deps@[j],
            old,
        ) by {
            assert(items.drop_first()[i] == items[i + 1]);
        }
        assert(items.drop_first()[f - 1] == items[f]);
        lemma_failure_recovery(items.drop_first(), f - 1, old, dirty);
        assert(worklist_spec(items, false, old, dirty) =~= seq![items[f].source.path@]);
    }
}

/// Law: write-back round trip.  What a well-formed store's write-back
/// serializes, the next run's load parses back: exactly the tracked
/// paths in their recorded order, each at its recorded time.  An
/// unchanged tree therefore faces the same snapshot the run before
/// left behind.
pub proof fn lemma_write_back_round_trip(v: BuildTableView)
    requires
        table_well_formed(v),
    ensures
        parse_table_spec(serialize_keyed(v.key_order, v.entries)) == Seq::new(
            v.key_order.len(),
            |i: int| (v.key_order[i], v.entries[v.key_order[i]]),
        ),
{
    assert forall|i: int| 0 <= i < v.key_order.len() implies v.entries.contains_key(
        #[trigger] v.key_order[i],
    ) by {
        assert(v.key_order.contains(v.key_order[i]));
        assert(v.key_order.to_set().contains(v.key_order[i]));
    }
    lemma_store_round_trip(v.key_order, v.entries);
}

proof fn lemma_load_untouched(acc: Map<Seq<char>, u64>, entries: Seq<TableEntry>, k: Seq<char>)
    requires
        forall|i: int| 0 <= i < entries.len() ==> (#[trigger] entries[i]).path@ != k,
    ensures
        old_after_entries(acc, entries).contains_key(k) == acc.contains_key(k),
        acc.contains_key(k) ==> old_after_entries(acc, entries)[k] == acc[k],
    decreases entries.len(),
{
    if entries.len() > 0 {
        assert forall|i: int| 0 <= i < entries.drop_first().len() implies (#[trigger] entries.drop_first()[i]).path@
            != k by {
            assert(entries.drop_first()[i] == entries[i + 1]);
        }
        lemma_load_untouched(old_entry_step(acc, entries[0]), entries.drop_first(), k);
    }
}

proof fn lemma_load_records(acc: Map<Seq<char>, u64>, entries: Seq<TableEntry>, i: int)
    requires
        0 <= i < entries.len(),
        entries[i].exists,
        forall|x: int, y: int|
            0 <= x < y < entries.len() ==> (#[trigger] entries[x]).path@ != (#[trigger] entries[y]).path@,
    ensures
        old_after_entries(acc, entries).contains_key(entries[i].path@),
        old_after_entries(acc, entries)[entries[i].path@] == entries[i].modified_at,
    decreases entries.len(),
{
    let acc1 = old_entry_step(acc, entries[0]);
    if i == 0 {
        assert forall|j: int| 0 <= j < entries.drop_first().len() implies (#[trigger] entries.drop_first()[j]).path@
            != entries[0].path@ by {
            assert(entries.drop_first()[j] == entries[j + 1]);
        }
        lemma_load_untouched(acc1, entries.drop_first(), entries[0].path@);
    } else {
        assert forall|x: int, y: int|
            0 <= x < y < entries.drop_first().len() implies (#[trigger] entries.drop_first()[x]).path@
            != (#[trigger] entries.drop_first()[y]).path@ by {
            assert(entries.drop_first()[x] == entries[x + 1]);
            assert(entries.drop_first()[y] == entries[y + 1]);
        }
        assert(entries.drop_first()[i - 1] == entries[i]);
        lemma_load_records(acc1, entries.drop_first(), i - 1);
    }
}

proof fn lemma_load_dom(acc: Map<Seq<char>, u64>, entries: Seq<TableEntry>, k: Seq<char>)
    requires
        old_after_entries(acc, entries).contains_key(k),
    ensures
        acc.contains_key(k) || exists|i: int| 0 <= i < entries.len() && (#[trigger] entries[i]).path@ == k,
    decreases entries.len(),
{
    if entries.len() > 0 {
        lemma_load_dom(old_entry_step(acc, entries[0]), entries.drop_first(), k);
        if !old_entry_step(acc, entries[0]).contains_key(k) {
            let i = choose|i: int|
                0 <= i < entries.drop_first().len() && (#[trigger] entries.drop_first()[i]).path@ == k;
            assert(entries[i + 1].path@ == k);
        } else if !acc.contains_key(k) {
            assert(entries[0].path@ == k);
        }
    }
}

/// Law: across persistence, the next run starts from the mapping this
/// run wrote.  Loading records whose paths, times and order are exactly
/// the store's written pairs, every one still on disk, rebuilds the
/// written mapping as the new snapshot, precisely.
pub proof fn lemma_snapshot_restores_written_store(v: BuildTableView, entries: Seq<TableEntry>)
    requires
        table_well_formed(v),
        entries.len() == v.key_order.len(),
        forall|i: int| 0 <= i < entries.len() ==> (#[trigger] entries[i]).path@ == v.key_order[i],
        forall|i: int|
            0 <= i < entries.len() ==> (#[trigger] entries[i]).modified_at
                == v.entries[v.key_order[i]],
        forall|i: int| 0 <= i < entries.len() ==> (#[trigger] entries[i]).exists,
    ensures
        old_after_entries(Map::empty(), entries) == v.entries,
{
    let loaded = old_after_entries(Map::<Seq<char>, u64>::empty(), entries);
    assert forall|x: int, y: int|
        0 <= x < y < entries.len() implies (#[trigger] entries[x]).path@
        != (#[trigger] entries[y]).path@ by {
        assert(entries[x].path@ == v.key_order[x]);
        assert(entries[y].path@ == v.key_order[y]);
    }
    assert forall|k: Seq<char>| loaded.contains_key(k) == v.entries.contains_key(k) by {
        if loaded.contains_key(k) {
            lemma_load_dom(Map::empty(), entries, k);
            let i = choose|i: int| 0 <= i < entries.len() && (#[trigger] entries[i]).path@ == k;
            assert(v.key_order.contains(k));
            assert(v.key_order.to_set().contains(k));
        }
        if v.entries.contains_key(k) {
            assert(v.key_order.to_set().contains(k));
            let i = choose|i: int| 0 <= i < v.key_order.len() && v.key_order[i] == k;
            assert(entries[i].path@ == k);
            lemma_load_records(Map::empty(), entries, i);
        }
    }
    assert forall|k: Seq<char>| #[trigger] loaded.contains_key(k) implies loaded[k]
        == v.entries[k] by {
        lemma_load_dom(Map::empty(), entries, k);
        let i = choose|i: int| 0 <= i < entries.len() && (#[trigger] entries[i]).path@ == k;
        lemma_load_records(Map::empty(), entries, i);
        assert(loaded[k] == entries[i].modified_at);
        assert(entries[i].modified_at == v.entries[v.key_order[i]]);
    }
    assert(loaded =~= v.entries);
}

/// The paths of every recognized translation unit among the scanned
/// entries, in scan order.
pub open spec fn source_paths(items: Seq<SourceScanItem>) -> Seq<Seq<char>>
    decreases items.len(),
{
    if items.len() == 0 {
        Seq::empty()
    } else {
        (if is_source_path(items[0].source.path@) {
            seq![items[0].source.path@]
        } else {
            Seq::empty()
        }) + source_paths(items.drop_first())
    }
}

/// Law: config invalidation.  Against an empty snapshot — the state a
/// staleness-store reset leaves behind — every translation unit is
/// first-time stale, so the worklist is all of them, whatever the
/// dependency observations and the flags say.
pub proof fn lemma_reset_selects_everything(
    items: Seq<SourceScanItem>,
    orphan: bool,
    dirty: bool,
)
    ensures
        worklist_spec(items, orphan, Map::empty(), dirty) == source_paths(items),
    decreases items.len(),
{
    if items.len() > 0 {
        assert(!Map::<Seq<char>, u64>::empty().contains_key(items[0].source.path@));
        lemma_reset_selects_everything(items.drop_first(), orphan, dirty);
        assert(worklist_spec(items, orphan, Map::empty(), dirty) =~= source_paths(items));
    }
}

} // verus!
