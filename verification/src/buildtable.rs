//! The staleness store: the current run's path-to-timestamp mapping, the
//! immutable snapshot of the previous run, and the dirty flag that gates
//! both dependency re-validation and write-back.
//!
//! The store decides; the caller observes.  Every filesystem fact the
//! decisions rest on (a file's modification time, whether an artifact or
//! a dependency still exists) comes in as a plain value.

use vstd::hash_map::StringHashMap;
use vstd::prelude::*;
use vstd::string::*;

use rayon::iter::IntoParallelRefIterator;
use rayon::iter::ParallelIterator;

use crate::compiler::is_header_path;
use crate::strutil::str_eq;
use crate::strutil::strip_dot_slash_spec;
use crate::strutil::u64_to_string;
use crate::tablefile::line_safe;
use crate::tablefile::serialize_keyed;

verus! {

/// Dependency sets at least this large are checked with data
/// parallelism; smaller ones sequentially with early exit.
pub const LARGE_NUMBER_OF_FILES: usize = 50;

/// One record read back from the persisted store file, together with
/// whether the recorded path still exists on disk.
pub struct TableEntry {
    /// The recorded path.
    pub path: String,
    /// The recorded modification time, milliseconds since the epoch.
    pub modified_at: u64,
    /// Whether a file by that path still exists.
    pub exists: bool,
}

/// A file seen during the header-directory scan: its path as
/// enumerated, and its live modification time.
pub struct FileObservation {
    /// The path as the directory walk produced it.
    pub path: String,
    /// Its modification time, milliseconds since the epoch.
    pub modified_at: u64,
}

/// One dependency of a source file, as observed on disk right now.
#[derive(Clone)]
pub struct DepObservation {
    /// The dependency's path as the cache listed it.
    pub path: String,
    /// Whether the dependency still exists.
    pub exists: bool,
    /// Its modification time when it exists; meaningless otherwise.
    pub modified_at: u64,
}

/// A source file as observed on disk right now.
#[derive(Clone)]
pub struct SourceObservation {
    /// The source file's path.
    pub path: String,
    /// Its modification time, milliseconds since the epoch.
    pub modified_at: u64,
    /// Whether its derived artifact (object file, or assembly listing in
    /// assemble mode) exists.
    pub artifact_exists: bool,
}

/// An empty previous-run snapshot, ready to be filled once at load.
pub fn new_old_table() -> (r: StringHashMap<u64>)
    ensures
        r@ == Map::<Seq<char>, u64>::empty(),
{
    StringHashMap::new()
}

/// The staleness predicate.  A file is stale when the snapshot has never
/// seen it, or saw it with a different time; a source file with an
/// unchanged time is still stale when its artifact is missing, because a
/// missing artifact means the last compilation never finished.
pub open spec fn modified_since_last_build(
    name: Seq<char>,
    is_header: bool,
    time: u64,
    artifact_exists: bool,
    old: Map<Seq<char>, u64>,
) -> bool {
    if !old.contains_key(name) {
        true
    } else if old[name] != time {
        true
    } else if is_header {
        false
    } else {
        !artifact_exists
    }
}

/// Whether the named file counts as modified since the last build.
/// `artifact_exists` reports the artifact the current mode derives from
/// a source file; it is ignored for headers.
pub fn file_modified_since_last_build(
    source_file_name: &str,
    is_header_file: bool,
    time: u64,
    artifact_exists: bool,
    old_table: &StringHashMap<u64>,
) -> (r: bool)
    ensures
        r == modified_since_last_build(
            source_file_name@,
            is_header_file,
            time,
            artifact_exists,
            old_table@,
        ),
{
    match old_table.get(source_file_name) {
        Some(old_value) => {
            if *old_value != time {
                true
            } else if is_header_file {
                false
            } else {
                !artifact_exists
            }
        },
        None => true,
    }
}

/// A dependency forces recompilation when it is not the line-break token
/// the compiler emits, and it either no longer exists or is stale.
pub open spec fn dependency_stale(d: DepObservation, old: Map<Seq<char>, u64>) -> bool {
    d.path@ != seq!['\\'] && (!d.exists || modified_since_last_build(
        d.path@,
        true,
        d.modified_at,
        true,
        old,
    ))
}

/// Whether one observed dependency forces recompilation.
pub fn dependency_is_stale(d: &DepObservation, old_table: &StringHashMap<u64>) -> (r: bool)
    ensures
        r == dependency_stale(*d, old_table@),
{
    proof {
        reveal_strlit("\\");
    }
    if str_eq(d.path.as_str(), "\\") {
        proof {
            assert(d.path@ =~= seq!['\\']);
        }
        return false;
    }
    proof {
        assert(seq!['\\'] =~= "\\"@);
    }
    if !d.exists {
        return true;
    }
    file_modified_since_last_build(d.path.as_str(), true, d.modified_at, true, old_table)
}

/// Some dependency in the set forces recompilation.
pub open spec fn some_dependency_stale(deps: Seq<DepObservation>, old: Map<Seq<char>, u64>) -> bool {
    exists|i: int| 0 <= i < deps.len() && dependency_stale(#[trigger] deps[i], old)
}

/// Relies on rayon's `ParallelIterator::any`: over a pure predicate it
/// returns exactly whether some element satisfies it; here each element
/// is tested with the verified `dependency_is_stale`.
#[verifier::external_body]
fn any_dependency_stale_parallel(
    deps: &Vec<DepObservation>,
    old_table: &StringHashMap<u64>,
) -> (r: bool)
    ensures
        r == some_dependency_stale(deps@, old_table@),
{
    deps.par_iter().any(|d| dependency_is_stale(d, old_table))
}

fn any_dependency_stale_sequential(
    deps: &Vec<DepObservation>,
    old_table: &StringHashMap<u64>,
) -> (r: bool)
    ensures
        r == some_dependency_stale(deps@, old_table@),
{
    let mut i: usize = 0;
    while i < deps.len()
        invariant
            0 <= i <= deps@.len(),
            forall|j: int| 0 <= j < i ==> !dependency_stale(#[trigger] deps@[j], old_table@),
        decreases deps@.len() - i,
    {
        if dependency_is_stale(&deps[i], old_table) {
            return true;
        }
        i += 1;
    }
    false
}

/// The store's abstract state: the current mapping, the order its keys
/// were first recorded in, and the dirty flag.
#[verifier::ext_equal]
pub struct BuildTableView {
    /// The current path-to-timestamp mapping.
    pub entries: Map<Seq<char>, u64>,
    /// The keys of `entries`, each exactly once, in first-recorded order.
    pub key_order: Seq<Seq<char>>,
    /// Whether anything changed this run.
    pub any_dependencies_changed: bool,
}

/// The store state a fresh run starts from.
pub open spec fn empty_table_view() -> BuildTableView {
    BuildTableView {
        entries: Map::empty(),
        key_order: Seq::empty(),
        any_dependencies_changed: false,
    }
}

/// The state after recording `k` at time `t`: the mapping is updated,
/// and a first-time key joins the key order at the end.
pub open spec fn view_after_insert(v: BuildTableView, k: Seq<char>, t: u64) -> BuildTableView {
    BuildTableView {
        entries: v.entries.insert(k, t),
        key_order: if v.entries.contains_key(k) {
            v.key_order
        } else {
            v.key_order.push(k)
        },
        any_dependencies_changed: v.any_dependencies_changed,
    }
}

/// The state after dropping `k`: the mapping loses the key and the key
/// order its one occurrence; nothing else moves.
pub open spec fn view_after_erase(v: BuildTableView, k: Seq<char>) -> BuildTableView {
    BuildTableView {
        entries: v.entries.remove(k),
        key_order: v.key_order.remove_value(k),
        any_dependencies_changed: v.any_dependencies_changed,
    }
}

/// The recompile decision for one source file: its own staleness
/// decides first and cheapest; only when the run is already dirty are
/// its cached dependencies consulted, a missing or stale one forcing
/// recompilation.
pub open spec fn needs_recompile(
    source: SourceObservation,
    deps: Seq<DepObservation>,
    old: Map<Seq<char>, u64>,
    any_dependencies_changed: bool,
) -> bool {
    modified_since_last_build(
        source.path@,
        false,
        source.modified_at,
        source.artifact_exists,
        old,
    ) || (any_dependencies_changed && some_dependency_stale(deps, old))
}

/// Loading one persisted record: a record whose file still exists is
/// tracked again; a vanished header raises the dirty flag, since a
/// dependency left the tree since the last build.
pub open spec fn entry_step(v: BuildTableView, e: TableEntry) -> BuildTableView {
    if e.exists {
        view_after_insert(v, e.path@, e.modified_at)
    } else if is_header_path(e.path@) {
        BuildTableView { any_dependencies_changed: true, ..v }
    } else {
        v
    }
}

/// Loading the persisted records, first to last.
pub open spec fn view_after_entries(v: BuildTableView, entries: Seq<TableEntry>) -> BuildTableView
    decreases entries.len(),
{
    if entries.len() == 0 {
        v
    } else {
        view_after_entries(entry_step(v, entries[0]), entries.drop_first())
    }
}

/// The previous-run snapshot after loading: every record whose file
/// still exists, at its recorded time.
pub open spec fn old_entry_step(m: Map<Seq<char>, u64>, e: TableEntry) -> Map<Seq<char>, u64> {
    if e.exists {
        m.insert(e.path@, e.modified_at)
    } else {
        m
    }
}

/// The snapshot after loading all persisted records, first to last.
pub open spec fn old_after_entries(m: Map<Seq<char>, u64>, entries: Seq<TableEntry>) -> Map<
    Seq<char>,
    u64,
>
    decreases entries.len(),
{
    if entries.len() == 0 {
        m
    } else {
        old_after_entries(old_entry_step(m, entries[0]), entries.drop_first())
    }
}

/// The header scan, one file: a header whose live time differs from the
/// snapshot (keyed without a leading `./`) is re-recorded and raises
/// the dirty flag.
pub open spec fn header_step(
    v: BuildTableView,
    f: FileObservation,
    old: Map<Seq<char>, u64>,
) -> BuildTableView {
    if is_header_path(f.path@) && modified_since_last_build(
        strip_dot_slash_spec(f.path@),
        true,
        f.modified_at,
        true,
        old,
    ) {
        BuildTableView {
            any_dependencies_changed: true,
            ..view_after_insert(v, strip_dot_slash_spec(f.path@), f.modified_at)
        }
    } else {
        v
    }
}

/// The header scan over the whole include tree, first to last.
pub open spec fn view_after_header_scan(
    v: BuildTableView,
    files: Seq<FileObservation>,
    old: Map<Seq<char>, u64>,
) -> BuildTableView
    decreases files.len(),
{
    if files.len() == 0 {
        v
    } else {
        view_after_header_scan(header_step(v, files[0], old), files.drop_first(), old)
    }
}

/// First build, one file: with nothing to compare against, every header
/// is recorded and the dirty flag raised.
pub open spec fn fresh_header_step(v: BuildTableView, f: FileObservation) -> BuildTableView {
    if is_header_path(f.path@) {
        BuildTableView {
            any_dependencies_changed: true,
            ..view_after_insert(v, strip_dot_slash_spec(f.path@), f.modified_at)
        }
    } else {
        v
    }
}

/// First build: all headers recorded, first to last.
pub open spec fn view_after_fresh_headers(
    v: BuildTableView,
    files: Seq<FileObservation>,
) -> BuildTableView
    decreases files.len(),
{
    if files.len() == 0 {
        v
    } else {
        view_after_fresh_headers(fresh_header_step(v, files[0]), files.drop_first())
    }
}

/// The key order carries each key of the mapping exactly once, and only
/// keys that can stand on one line of the store file.
pub open spec fn table_well_formed(v: BuildTableView) -> bool {
    &&& v.key_order.no_duplicates()
    &&& forall|i: int| 0 <= i < v.key_order.len() ==> line_safe(#[trigger] v.key_order[i])
    &&& v.key_order.to_set() == v.entries.dom()
}

/// The staleness store.
pub struct BuildTable {
    table: StringHashMap<u64>,
    key_order: Vec<String>,
    any_dependencies_changed: bool,
}

impl View for BuildTable {
    type V = BuildTableView;

    closed spec fn view(&self) -> BuildTableView {
        BuildTableView {
            entries: self.table@,
            key_order: self.key_order.deep_view(),
            any_dependencies_changed: self.any_dependencies_changed,
        }
    }
}

/// Index of the first element of `keys` equal to `path_str`, if any.
fn find_key_index(keys: &Vec<String>, path_str: &str) -> (r: Option<usize>)
    ensures
        match r {
            Some(i) => i < keys.deep_view().len() && keys.deep_view()[i as int] == path_str@
                && forall|j: int| 0 <= j < i ==> keys.deep_view()[j] != path_str@,
            None => forall|j: int| 0 <= j < keys.deep_view().len() ==> keys.deep_view()[j] != path_str@,
        },
{
    let n = keys.len();
    let mut i: usize = 0;
    while i < n
        invariant
            0 <= i <= n,
            n == keys.deep_view().len(),
            forall|j: int| 0 <= j < i ==> keys.deep_view()[j] != path_str@,
        decreases n - i,
    {
        if str_eq(keys[i].as_str(), path_str) {
            return Some(i);
        }
        i += 1;
    }
    None
}

impl BuildTable {
    /// The store's internal consistency.
    pub open spec fn well_formed(&self) -> bool {
        table_well_formed(self@)
    }

    /// Builds the store from what the caller read and observed: the
    /// persisted records, each with whether its file still exists, and
    /// every file under the include tree with its live time.  The
    /// previous-run snapshot `old_table` receives every record whose
    /// file still exists and is never written again this run.  When the
    /// persisted store held no records, the snapshot stays empty and
    /// every header is recorded fresh.
    pub fn new(
        old_table: &mut StringHashMap<u64>,
        entries: &Vec<TableEntry>,
        include_files: &Vec<FileObservation>,
    ) -> (r: BuildTable)
        requires
            forall|i: int| 0 <= i < entries@.len() ==> line_safe(#[trigger] entries@[i].path@),
            forall|i: int|
                0 <= i < include_files@.len() ==> line_safe(
                    strip_dot_slash_spec(#[trigger] include_files@[i].path@),
                ),
        ensures
            r.well_formed(),
            entries@.len() > 0 ==> final(old_table)@ == old_after_entries(
                old(old_table)@,
                entries@,
            ),
            entries@.len() > 0 ==> r@ == view_after_header_scan(
                view_after_entries(empty_table_view(), entries@),
                include_files@,
                old_after_entries(old(old_table)@, entries@),
            ),
            entries@.len() == 0 ==> final(old_table)@ == old(old_table)@,
            entries@.len() == 0 ==> r@ == view_after_fresh_headers(
                empty_table_view(),
                include_files@,
            ),
    {
        let mut table = BuildTable {
            table: StringHashMap::new(),
            key_order: Vec::new(),
            any_dependencies_changed: false,
        };
        proof {
            assert(table@ =~= empty_table_view());
            assert(table@.key_order.to_set() =~= table@.entries.dom());
        }
        if entries.len() > 0 {
            let n = entries.len();
            let mut i: usize = 0;
            proof {
                assert(entries@.skip(0) =~= entries@);
            }
            while i < n
                invariant
                    0 <= i <= n,
                    n == entries@.len(),
                    table.well_formed(),
                    forall|t: int| 0 <= t < n ==> line_safe(#[trigger] entries@[t].path@),
                    view_after_entries(empty_table_view(), entries@) == view_after_entries(
                        table@,
                        entries@.skip(i as int),
                    ),
                    old_after_entries(old(old_table)@, entries@) == old_after_entries(
                        old_table@,
                        entries@.skip(i as int),
                    ),
                decreases n - i,
            {
                let ghost pre = table@;
                let ghost prem = old_table@;
                let e = &entries[i];
                if e.exists {
                    table.insert(e.path.clone(), e.modified_at);
                    old_table.insert(e.path.clone(), e.modified_at);
                } else if crate::compiler::is_header_file(e.path.as_str()) {
                    table.any_dependencies_changed = true;
                }
                i += 1;
                proof {
                    assert(table@ =~= entry_step(pre, entries@[i as int - 1]));
                    assert(old_table@ =~= old_entry_step(prem, entries@[i as int - 1]));
                    assert(entries@.skip(i as int - 1)[0] == entries@[i as int - 1]);
                    assert(entries@.skip(i as int - 1).drop_first() =~= entries@.skip(i as int));
                }
            }
            proof {
                assert(entries@.skip(n as int) =~= Seq::<TableEntry>::empty());
            }
            let ghost om = old_table@;
            let m = include_files.len();
            let mut j: usize = 0;
            proof {
                assert(include_files@.skip(0) =~= include_files@);
            }
            while j < m
                invariant
                    0 <= j <= m,
                    m == include_files@.len(),
                    table.well_formed(),
                    old_table@ == om,
                    forall|t: int|
                        0 <= t < m ==> line_safe(
                            strip_dot_slash_spec(#[trigger] include_files@[t].path@),
                        ),
                    view_after_header_scan(
                        view_after_entries(empty_table_view(), entries@),
                        include_files@,
                        om,
                    ) == view_after_header_scan(table@, include_files@.skip(j as int), om),
                decreases m - j,
            {
                let ghost pre = table@;
                let f = &include_files[j];
                if crate::compiler::is_header_file(f.path.as_str()) {
                    let key = crate::strutil::strip_dot_slash(f.path.as_str());
                    if file_modified_since_last_build(key, true, f.modified_at, true, old_table) {
                        table.insert(String::from_str(key), f.modified_at);
                        table.any_dependencies_changed = true;
                    }
                }
                j += 1;
                proof {
                    assert(table@ =~= header_step(pre, include_files@[j as int - 1], om));
                    assert(include_files@.skip(j as int - 1)[0] == include_files@[j as int - 1]);
                    assert(include_files@.skip(j as int - 1).drop_first() =~= include_files@.skip(
                        j as int,
                    ));
                }
            }
            proof {
                assert(include_files@.skip(m as int) =~= Seq::<FileObservation>::empty());
            }
            table
        } else {
            let m = include_files.len();
            let mut j: usize = 0;
            proof {
                assert(include_files@.skip(0) =~= include_files@);
            }
            while j < m
                invariant
                    0 <= j <= m,
                    m == include_files@.len(),
                    table.well_formed(),
                    forall|t: int|
                        0 <= t < m ==> line_safe(
                            strip_dot_slash_spec(#[trigger] include_files@[t].path@),
                        ),
                    view_after_fresh_headers(empty_table_view(), include_files@)
                        == view_after_fresh_headers(table@, include_files@.skip(j as int)),
                decreases m - j,
            {
                let ghost pre = table@;
                let f = &include_files[j];
                if crate::compiler::is_header_file(f.path.as_str()) {
                    let key = crate::strutil::strip_dot_slash(f.path.as_str());
                    table.insert(String::from_str(key), f.modified_at);
                    table.any_dependencies_changed = true;
                }
                j += 1;
                proof {
                    assert(table@ =~= fresh_header_step(pre, include_files@[j as int - 1]));
                    assert(include_files@.skip(j as int - 1)[0] == include_files@[j as int - 1]);
                    assert(include_files@.skip(j as int - 1).drop_first() =~= include_files@.skip(
                        j as int,
                    ));
                }
            }
            proof {
                assert(include_files@.skip(m as int) =~= Seq::<FileObservation>::empty());
            }
            table
        }
    }

    /// Records `path` at time `modified_at` in the current mapping.
    pub fn insert(&mut self, path: String, modified_at: u64)
        requires
            old(self).well_formed(),
            line_safe(path@),
        ensures
            final(self).well_formed(),
            final(self)@ == view_after_insert(old(self)@, path@, modified_at),
    {
        let ghost k = path@;
        if !self.table.contains_key(path.as_str()) {
            proof {
                assert(!old(self)@.key_order.contains(k)) by {
                    if old(self)@.key_order.contains(k) {
                        assert(old(self)@.key_order.to_set().contains(k));
                    }
                }
            }
            self.key_order.push(path.clone());
            self.table.insert(path, modified_at);
            proof {
                let kv = old(self)@.key_order;
                assert(self@.key_order =~= kv.push(k));
                kv.lemma_push_to_set_commute(k);
                assert(self@.key_order.to_set() =~= self@.entries.dom());
                assert forall|i: int, j: int|
                    0 <= i < j < self@.key_order.len() implies self@.key_order[i]
                    != self@.key_order[j] by {
                    if j < kv.len() {
                    } else {
                        assert(self@.key_order[j] == k);
                        assert(kv[i] == self@.key_order[i]);
                        assert(kv.contains(kv[i]) == false || true);
                        if self@.key_order[i] == k {
                            assert(kv.contains(k));
                        }
                    }
                }
                assert(self@ =~= view_after_insert(old(self)@, k, modified_at));
            }
        } else {
            self.table.insert(path, modified_at);
            proof {
                assert(self@.key_order =~= old(self)@.key_order);
                assert(self@.key_order.to_set() =~= self@.entries.dom());
                assert(self@ =~= view_after_insert(old(self)@, k, modified_at));
            }
        }
    }

    /// Whether the current mapping tracks `path_str`.
    pub fn contains(&self, path_str: &str) -> (r: bool)
        ensures
            r == self@.entries.contains_key(path_str@),
    {
        self.table.contains_key(path_str)
    }

    /// The recorded time for `path_str`, when tracked.
    pub fn get(&self, path_str: &str) -> (r: Option<u64>)
        ensures
            match r {
                Some(t) => self@.entries.contains_key(path_str@) && t == self@.entries[path_str@],
                None => !self@.entries.contains_key(path_str@),
            },
    {
        match self.table.get(path_str) {
            Some(t) => Some(*t),
            None => None,
        }
    }

    /// The dirty flag: whether anything changed this run.
    pub fn any_dependencies_changed(&self) -> (r: bool)
        ensures
            r == self@.any_dependencies_changed,
    {
        self.any_dependencies_changed
    }

    /// Removes `path_str` from the current mapping.  Tracking of other
    /// paths is untouched.
    pub fn erase(&mut self, path_str: &str)
        requires
            old(self).well_formed(),
        ensures
            final(self).well_formed(),
            final(self)@ == view_after_erase(old(self)@, path_str@),
    {
        let ghost k = path_str@;
        let ghost kv = old(self)@.key_order;
        let found = find_key_index(&self.key_order, path_str);
        match found {
            Some(idx) => {
                proof {
                    kv.index_of_first_ensures(k);
                    assert(kv.index_of_first(k) == Some(idx as int)) by {
                        match kv.index_of_first(k) {
                            Some(fi) => {
                                if fi < idx {
                                    assert(kv[fi] != k);
                                } else if fi > idx {
                                    assert(kv[idx as int] != k);
                                }
                            },
                            None => {
                                assert(!kv.contains(k));
                                assert(kv[idx as int] == k);
                            },
                        }
                    }
                }
                self.key_order.remove(idx);
                self.table.remove(path_str);
                proof {
                    assert(self@.key_order =~= kv.remove(idx as int));
                    kv.remove_ensures(idx as int);
                    assert(self@.key_order =~= kv.remove_value(k));
                    assert forall|a: Seq<char>| self@.key_order.to_set().contains(a)
                        <==> self@.entries.dom().contains(a) by {
                        if self@.key_order.contains(a) {
                            let j = choose|j: int|
                                0 <= j < self@.key_order.len() && self@.key_order[j] == a;
                            let oj = if j < idx { j } else { j + 1 };
                            assert(kv[oj] == a);
                            assert(kv.contains(a));
                            assert(a != k) by {
                                if a == k {
                                    assert(kv[oj] == kv[idx as int]);
                                }
                            }
                        }
                        if self@.entries.dom().contains(a) {
                            assert(old(self)@.entries.dom().contains(a) && a != k);
                            assert(kv.to_set().contains(a));
                            let j = choose|j: int| 0 <= j < kv.len() && kv[j] == a;
                            assert(j != idx);
                            let nj = if j < idx { j } else { j - 1 };
                            assert(self@.key_order[nj] == a);
                            assert(self@.key_order.contains(a));
                        }
                    }
                    assert(self@.key_order.to_set() =~= self@.entries.dom());
                    assert forall|x: int, y: int|
                        0 <= x < y < self@.key_order.len() implies self@.key_order[x]
                        != self@.key_order[y] by {
                        let ox = if x < idx { x } else { x + 1 };
                        let oy = if y < idx { y } else { y + 1 };
                        assert(self@.key_order[x] == kv[ox]);
                        assert(self@.key_order[y] == kv[oy]);
                    }
                    assert(self@ =~= view_after_erase(old(self)@, k));
                }
            },
            None => {
                self.table.remove(path_str);
                proof {
                    assert(!kv.contains(k));
                    assert(!kv.to_set().contains(k));
                    kv.index_of_first_ensures(k);
                    assert(self@.key_order =~= kv.remove_value(k));
                    assert(!old(self)@.entries.dom().contains(k));
                    assert(self@.entries =~= old(self)@.entries.remove(k));
                    assert(self@.key_order.to_set() =~= self@.entries.dom());
                    assert(self@ =~= view_after_erase(old(self)@, k));
                }
            },
        }
    }

    /// Sets the dirty flag when source files changed; toggles it
    /// otherwise.
    pub fn set_any_dependencies_changed(&mut self, source_files_changed: bool)
        ensures
            final(self)@.entries == old(self)@.entries,
            final(self)@.key_order == old(self)@.key_order,
            final(self)@.any_dependencies_changed == (source_files_changed || !old(
                self,
            )@.any_dependencies_changed),
    {
        if source_files_changed {
            self.any_dependencies_changed = true;
        } else {
            self.any_dependencies_changed = !self.any_dependencies_changed;
        }
    }

    /// Empties the current mapping and raises the dirty flag: the
    /// store-level model of a build-configuration change, which must
    /// invalidate every cached decision.
    pub fn reset(&mut self)
        ensures
            final(self).well_formed(),
            final(self)@.entries == Map::<Seq<char>, u64>::empty(),
            final(self)@.key_order == Seq::<Seq<char>>::empty(),
            final(self)@.any_dependencies_changed,
    {
        self.table.clear();
        self.key_order.clear();
        self.any_dependencies_changed = true;
        proof {
            assert(self@.key_order =~= Seq::<Seq<char>>::empty());
            assert(self@.key_order.to_set() =~= self@.entries.dom());
        }
    }

    /// Whether the observed source file must be recompiled.  A stale
    /// source decides at once, and its new time is recorded; otherwise
    /// its dependencies are consulted, but only when something already
    /// changed this run.  At least `LARGE_NUMBER_OF_FILES` dependencies
    /// are checked in parallel, fewer sequentially; the answer is the
    /// same either way.
    pub fn needs_to_be_recompiled(
        &mut self,
        source: &SourceObservation,
        deps: &Vec<DepObservation>,
        old_table: &StringHashMap<u64>,
    ) -> (r: bool)
        requires
            old(self).well_formed(),
            line_safe(source.path@),
        ensures
            final(self).well_formed(),
            r == needs_recompile(*source, deps@, old_table@, old(self)@.any_dependencies_changed),
            final(self)@ == (if modified_since_last_build(
                source.path@,
                false,
                source.modified_at,
                source.artifact_exists,
                old_table@,
            ) {
                view_after_insert(old(self)@, source.path@, source.modified_at)
            } else {
                old(self)@
            }),
    {
        if file_modified_since_last_build(
            source.path.as_str(),
            false,
            source.modified_at,
            source.artifact_exists,
            old_table,
        ) {
            self.insert(source.path.clone(), source.modified_at);
            return true;
        }
        if self.any_dependencies_changed {
            if deps.len() >= LARGE_NUMBER_OF_FILES {
                any_dependency_stale_parallel(deps, old_table)
            } else {
                any_dependency_stale_sequential(deps, old_table)
            }
        } else {
            false
        }
    }

    /// Serializes the current mapping, one `path=timestamp` line per
    /// tracked path, in first-recorded order.
    pub fn to_table_string(&self) -> (r: String)
        requires
            self.well_formed(),
        ensures
            r@ == serialize_keyed(self@.key_order, self@.entries),
    {
        let ghost keys = self@.key_order;
        let mut out = String::new();
        let n = self.key_order.len();
        let mut i: usize = 0;
        proof {
            assert(out@ =~= serialize_keyed(keys.take(0), self@.entries));
        }
        while i < n
            invariant
                0 <= i <= n,
                n == keys.len(),
                keys == self@.key_order,
                self.well_formed(),
                out@ == serialize_keyed(keys.take(i as int), self@.entries),
            decreases n - i,
        {
            let key = &self.key_order[i];
            proof {
                assert(keys.to_set().contains(keys[i as int]));
            }
            let t: u64 = match self.table.get(key.as_str()) {
                Some(t) => *t,
                None => {
                    proof {
                        assert(false);
                    }
                    0
                },
            };
            out.append(key.as_str());
            out.append("=");
            let ts = u64_to_string(t);
            out.append(ts.as_str());
            out.append("\n");
            i += 1;
            proof {
                reveal_strlit("=");
                reveal_strlit("\n");
                assert(keys.take(i as int).drop_last() =~= keys.take(i as int - 1));
                assert(out@ =~= serialize_keyed(keys.take(i as int), self@.entries));
            }
        }
        proof {
            assert(keys.take(n as int) =~= keys);
        }
        out
    }

    /// The explicit end-of-run persistence step: the serialized current
    /// mapping when the dirty flag is set, nothing otherwise.  Skipping
    /// the write on a clean run keeps no-op builds free of disk traffic.
    pub fn finalize(&self) -> (r: Option<String>)
        requires
            self.well_formed(),
        ensures
            match r {
                Some(s) => self@.any_dependencies_changed && s@ == serialize_keyed(
                    self@.key_order,
                    self@.entries,
                ),
                None => !self@.any_dependencies_changed,
            },
    {
        if self.any_dependencies_changed {
            Some(self.to_table_string())
        } else {
            None
        }
    }
}

} // verus!
