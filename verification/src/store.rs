//! The symbol store: the record table with its per-file and per-name
//! indices, and the indexing of a workspace's files into it.

use vstd::prelude::*;
use vstd::hash_map::StringHashMap;
use crate::path::{admitted_below, first_tested, is_denied_name, SourcePath};
use crate::recognize::{keyword_table, visibility_chars};
use crate::scan::{
    is_container_record, lemma_scanned, line_views, names_lowered, records_wf, scan_lines,
    scanned_file, views, RecordView, SymbolRecord,
};

verus! {

/// The directories that are indexed: the workspace folder, and the source
/// of the toolchain's library where it was found.
#[derive(Debug)]
pub struct Workspace {
    pub root: SourcePath,
    pub library_root: Option<SourcePath>,
}

/// The mathematical content of a `Workspace`.
pub ghost struct WorkspaceView {
    pub root: Seq<Seq<char>>,
    pub library_root: Option<Seq<Seq<char>>>,
}

impl View for Workspace {
    type V = WorkspaceView;

    open spec fn view(&self) -> WorkspaceView {
        WorkspaceView {
            root: self.root@,
            library_root: match self.library_root {
                Some(r) => Some(r@),
                None => None,
            },
        }
    }
}

impl WorkspaceView {
    /// Whether the file `path` is found by the walk from one of the roots.
    pub open spec fn admits(self, path: Seq<Seq<char>>) -> bool {
        admitted_below(self.root, path) || (self.library_root is Some && admitted_below(
            self.library_root->0,
            path,
        ))
    }
}

impl Workspace {
    /// Whether the file `path` is found by the walk from one of the roots.
    pub fn admits(&self, path: &SourcePath) -> (ok: bool)
        ensures
            ok == self@.admits(path@),
    {
        if path.is_admitted_below(&self.root) {
            return true;
        }
        match &self.library_root {
            Some(root) => path.is_admitted_below(root),
            None => false,
        }
    }
}

/// A file handed over for indexing: its path and its lines, in order.
#[derive(Debug)]
pub struct SourceFile {
    pub path: SourcePath,
    pub lines: Vec<String>,
}

/// The mathematical content of a `SourceFile`.
pub ghost struct SourceFileView {
    pub path: Seq<Seq<char>>,
    pub lines: Seq<Seq<char>>,
}

impl View for SourceFile {
    type V = SourceFileView;

    open spec fn view(&self) -> SourceFileView {
        SourceFileView { path: self.path@, lines: line_views(self.lines@) }
    }
}

/// The contents of the files `files`, in order.
pub open spec fn file_views(files: Seq<SourceFile>) -> Seq<SourceFileView> {
    Seq::new(files.len(), |i: int| files[i]@)
}

/// Whether one of the first `upto` files has the path `path`.
pub open spec fn listed_before(files: Seq<SourceFileView>, upto: int, path: Seq<Seq<char>>) -> bool {
    exists|k: int| 0 <= k < upto && k < files.len() && (#[trigger] files[k]).path == path
}

/// Whether the file at position `k` adds its records to the table: the
/// workspace admits its path, and no earlier file of the list has that path.
pub open spec fn contributes(ws: WorkspaceView, files: Seq<SourceFileView>, k: int) -> bool {
    ws.admits(files[k].path) && !listed_before(files, k, files[k].path)
}

/// The record table after the first `upto` files: the records of each
/// contributing file, file after file in the order of the list.
pub open spec fn indexed(ws: WorkspaceView, files: Seq<SourceFileView>, upto: int) -> Seq<
    RecordView,
>
    decreases upto,
{
    if upto <= 0 {
        Seq::empty()
    } else if contributes(ws, files, upto - 1) {
        indexed(ws, files, upto - 1) + scanned_file(files[upto - 1].path, files[upto - 1].lines)
    } else {
        indexed(ws, files, upto - 1)
    }
}

/// The records of one file in the per-file index: the ids of its records.
#[derive(Debug)]
pub struct FileSymbols {
    pub path: SourcePath,
    pub ids: Vec<usize>,
}

/// The records declared in the file `path`.
pub open spec fn in_file(path: Seq<Seq<char>>) -> spec_fn(RecordView) -> bool {
    |r: RecordView| r.file == path
}

/// The records with the name `name`.
pub open spec fn named(name: Seq<char>) -> spec_fn(RecordView) -> bool {
    |r: RecordView| r.name == name
}

/// Whether `ids` lists, in ascending order and each once, the ids of
/// exactly those records that `chosen` holds of.
pub open spec fn is_listing(
    ids: Seq<usize>,
    records: Seq<RecordView>,
    chosen: spec_fn(RecordView) -> bool,
) -> bool {
    &&& forall|k: int| 0 <= k < ids.len() ==> (#[trigger] ids[k]) < records.len() && chosen(records[ids[k] as int])
    &&& forall|k: int, m: int| 0 <= k < m < ids.len() ==> (#[trigger] ids[k]) < (#[trigger] ids[m])
    &&& forall|i: int|
        0 <= i < records.len() && chosen(#[trigger] records[i]) ==> exists|k: int|
            0 <= k < ids.len() && #[trigger] ids[k] == i
}

/// Whether the per-file index has an entry for `path`.
pub open spec fn has_entry(lookup: Seq<FileSymbols>, path: Seq<Seq<char>>) -> bool {
    exists|e: int| 0 <= e < lookup.len() && (#[trigger] lookup[e]).path@ == path
}

/// Whether `lookup` is the per-file index of `records`: one entry to a
/// file, each listing the file's records, and an entry for the file of
/// every record.
pub open spec fn file_index_wf(lookup: Seq<FileSymbols>, records: Seq<RecordView>) -> bool {
    &&& forall|a: int, b: int|
        0 <= a < b < lookup.len() ==> (#[trigger] lookup[a]).path@ != (#[trigger] lookup[b]).path@
    &&& forall|e: int|
        0 <= e < lookup.len() ==> is_listing(
            (#[trigger] lookup[e]).ids@,
            records,
            in_file(lookup[e].path@),
        )
    &&& forall|i: int| 0 <= i < records.len() ==> has_entry(lookup, (#[trigger] records[i]).file)
}

/// Whether `index` is the per-name index of `records`: an entry for each
/// name that occurs, listing the records of that name.
pub open spec fn name_index_wf(index: Map<Seq<char>, Vec<usize>>, records: Seq<RecordView>) -> bool {
    &&& forall|name: Seq<char>| #[trigger]
        index.contains_key(name) ==> index[name]@.len() > 0 && is_listing(
            index[name]@,
            records,
            named(name),
        )
    &&& forall|i: int| 0 <= i < records.len() ==> index.contains_key((#[trigger] records[i]).name)
}

/// The ids from `from` up to, not including, `to`, in ascending order.
pub(crate) fn id_range(from: usize, to: usize) -> (ids: Vec<usize>)
    requires
        from <= to,
    ensures
        ids@.len() == to - from,
        forall|k: int| 0 <= k < ids@.len() ==> ids@[k] == from + k,
{
    let mut ids: Vec<usize> = Vec::new();
    let mut i: usize = from;
    while i < to
        invariant
            from <= i <= to,
            ids@.len() == i - from,
            forall|k: int| 0 <= k < ids@.len() ==> ids@[k] == from + k,
        decreases to - i,
    {
        ids.push(i);
        i += 1;
    }
    ids
}

/// A copy of `ids` with `id` added at its end.
fn with_id(ids: &Vec<usize>, id: usize) -> (longer: Vec<usize>)
    ensures
        longer@ == ids@.push(id),
{
    let mut longer: Vec<usize> = Vec::new();
    let mut i: usize = 0;
    while i < ids.len()
        invariant
            i <= ids.len(),
            longer@ == ids@.take(i as int),
        decreases ids.len() - i,
    {
        longer.push(ids[i]);
        i += 1;
    }
    longer.push(id);
    longer
}

/// Adding the scan of a file that has no entry yet keeps the table and the
/// per-file index sound.
proof fn lemma_append_scan(
    records: Seq<RecordView>,
    lookup: Seq<FileSymbols>,
    entry: FileSymbols,
    lines: Seq<Seq<char>>,
)
    requires
        records_wf(records),
        file_index_wf(lookup, records),
        !has_entry(lookup, entry.path@),
        entry.ids@.len() == scanned_file(entry.path@, lines).len(),
        forall|k: int| 0 <= k < entry.ids@.len() ==> entry.ids@[k] == records.len() + k,
    ensures
        records_wf(records + scanned_file(entry.path@, lines)),
        file_index_wf(lookup.push(entry), records + scanned_file(entry.path@, lines)),
{
    let path = entry.path@;
    let fresh = scanned_file(path, lines);
    let all = records + fresh;
    let n = records.len() as int;
    lemma_scanned(path, lines, lines.len() as int);
    assert forall|i: int| 0 <= i < n implies (#[trigger] records[i]).file != path by {
        if records[i].file == path {
            assert(has_entry(lookup, records[i].file));
        }
    }
    assert forall|i: int| 0 <= i < all.len() && (#[trigger] all[i]).container is Some implies exists|
        j: int,
    | j < i && is_container_record(all, j, all[i].file, all[i].container->0) by {
        if i < n {
            let j = choose|j: int|
                j < i && is_container_record(records, j, records[i].file, records[i].container->0);
            assert(is_container_record(all, j, all[i].file, all[i].container->0));
        } else {
            let m = i - n;
            assert(all[i] == fresh[m]);
            let j = choose|j: int|
                j < m && #[trigger] is_container_record(fresh, j, fresh[m].file, fresh[m].container->0);
            assert(is_container_record(all, j + n, all[i].file, all[i].container->0));
        }
    }
    assert forall|i: int, j: int|
        0 <= i < j < all.len() && (#[trigger] all[i]).file == (#[trigger] all[j]).file implies all[i].line
        < all[j].line by {
        if j < n {
        } else if i >= n {
            assert(fresh[i - n].line < fresh[j - n].line);
        } else {
            assert(all[j] == fresh[j - n]);
        }
    }
    assert(records_wf(all));
    let longer = lookup.push(entry);
    assert forall|e: int| 0 <= e < longer.len() implies is_listing(
        (#[trigger] longer[e]).ids@,
        all,
        in_file(longer[e].path@),
    ) by {
        let ids = longer[e].ids@;
        let chosen = in_file(longer[e].path@);
        if e < lookup.len() {
            assert(is_listing(lookup[e].ids@, records, in_file(lookup[e].path@)));
            assert forall|i: int| 0 <= i < all.len() && chosen(#[trigger] all[i]) implies exists|
                k: int,
            | 0 <= k < ids.len() && #[trigger] ids[k] == i by {
                if i >= n {
                    assert(all[i] == fresh[i - n]);
                    assert(lookup[e].path@ == path);
                } else {
                    assert(chosen(records[i]));
                }
            }
            assert forall|k: int| 0 <= k < ids.len() implies (#[trigger] ids[k]) < all.len()
                && chosen(all[ids[k] as int]) by {
                assert(chosen(records[ids[k] as int]));
            }
        } else {
            assert forall|i: int| 0 <= i < all.len() && chosen(#[trigger] all[i]) implies exists|
                k: int,
            | 0 <= k < ids.len() && #[trigger] ids[k] == i by {
                if i < n {
                    assert(records[i].file != path);
                } else {
                    assert(ids[i - n] == i);
                }
            }
            assert forall|k: int| 0 <= k < ids.len() implies (#[trigger] ids[k]) < all.len()
                && chosen(all[ids[k] as int]) by {
                assert(all[n + k] == fresh[k]);
            }
        }
    }
    assert forall|i: int| 0 <= i < all.len() implies has_entry(longer, (#[trigger] all[i]).file) by {
        if i < n {
            let e = choose|e: int| 0 <= e < lookup.len() && (#[trigger] lookup[e]).path@ == records[i].file;
            assert(longer[e].path@ == all[i].file);
        } else {
            assert(all[i] == fresh[i - n]);
            assert(longer[lookup.len() as int].path@ == path);
        }
    }
    assert forall|a: int, b: int| 0 <= a < b < longer.len() implies (#[trigger] longer[a]).path@ != (
    #[trigger] longer[b]).path@ by {
        if b == lookup.len() {
            assert(lookup[a].path@ != path);
        }
    }
}

/// A listing stays one when a record that is not chosen is added.
proof fn lemma_listing_skips(
    ids: Seq<usize>,
    records: Seq<RecordView>,
    record: RecordView,
    chosen: spec_fn(RecordView) -> bool,
)
    requires
        is_listing(ids, records, chosen),
        !chosen(record),
    ensures
        is_listing(ids, records.push(record), chosen),
{
    let longer = records.push(record);
    assert forall|k: int| 0 <= k < ids.len() implies (#[trigger] ids[k]) < longer.len() && chosen(
        longer[ids[k] as int],
    ) by {
        assert(longer[ids[k] as int] == records[ids[k] as int]);
    }
    assert forall|i: int| 0 <= i < longer.len() && chosen(#[trigger] longer[i]) implies exists|k: int|
        0 <= k < ids.len() && #[trigger] ids[k] == i by {
        assert(longer[i] == records[i]);
    }
}

/// A listing with the id of a chosen record added at its end lists the
/// records with that record added.
proof fn lemma_listing_grows(
    ids: Seq<usize>,
    records: Seq<RecordView>,
    record: RecordView,
    chosen: spec_fn(RecordView) -> bool,
)
    requires
        is_listing(ids, records, chosen),
        chosen(record),
        records.len() <= usize::MAX,
    ensures
        is_listing(ids.push(records.len() as usize), records.push(record), chosen),
{
    let longer = records.push(record);
    let more = ids.push(records.len() as usize);
    assert forall|k: int| 0 <= k < more.len() implies (#[trigger] more[k]) < longer.len() && chosen(
        longer[more[k] as int],
    ) by {
        if k < ids.len() {
            assert(longer[ids[k] as int] == records[ids[k] as int]);
        }
    }
    assert forall|i: int| 0 <= i < longer.len() && chosen(#[trigger] longer[i]) implies exists|k: int|
        0 <= k < more.len() && #[trigger] more[k] == i by {
        if i < records.len() {
            assert(longer[i] == records[i]);
            let k = choose|k: int| 0 <= k < ids.len() && #[trigger] ids[k] == i;
            assert(more[k] == i);
        } else {
            assert(more[ids.len() as int] == i);
        }
    }
    assert forall|k: int, m: int| 0 <= k < m < more.len() implies (#[trigger] more[k]) < (
    #[trigger] more[m]) by {
        if m == ids.len() {
            assert(ids[k] < records.len());
        }
    }
}

/// Whether the workspace admits the file of every entry of `lookup`.
pub open spec fn entries_admitted(lookup: Seq<FileSymbols>, ws: WorkspaceView) -> bool {
    forall|e: int| 0 <= e < lookup.len() ==> ws.admits((#[trigger] lookup[e]).path@)
}

/// Whether the files with an entry in `lookup` are those of the first `upto`
/// files of the list that the workspace admits.
pub open spec fn entries_match(
    lookup: Seq<FileSymbols>,
    ws: WorkspaceView,
    files: Seq<SourceFileView>,
    upto: int,
) -> bool {
    forall|path: Seq<Seq<char>>| #[trigger]
        has_entry(lookup, path) <==> ws.admits(path) && listed_before(files, upto, path)
}

/// The symbol store of one workspace.
pub struct State {
    /// The directories that the store was made for.
    pub init: Workspace,
    /// The record table. A record's id is its position here.
    pub symbols: Vec<SymbolRecord>,
    /// The per-file index, one entry to an indexed file.
    pub symbol_lookup: Vec<FileSymbols>,
    /// The per-name index, from a name to the ids of the records with it.
    pub reverse: StringHashMap<Vec<usize>>,
}

impl State {
    /// The contents of the record table, in the order of the ids.
    pub open spec fn records(&self) -> Seq<RecordView> {
        views(self.symbols@)
    }

    /// Whether the file `path` was indexed.
    pub open spec fn has_file(&self, path: Seq<Seq<char>>) -> bool {
        has_entry(self.symbol_lookup@, path)
    }

    /// Whether the record table and the per-file index are sound: the
    /// records are such as scans leave them, the index agrees with them, and
    /// the workspace admits every indexed file.
    pub open spec fn files_wf(&self) -> bool {
        &&& records_wf(self.records())
        &&& file_index_wf(self.symbol_lookup@, self.records())
        &&& entries_admitted(self.symbol_lookup@, self.init@)
    }

    /// Whether the store is sound: the record table is such as scans leave
    /// it, and both indices agree with it.
    pub open spec fn wf(&self) -> bool {
        &&& self.files_wf()
        &&& name_index_wf(self.reverse@, self.records())
    }

    /// An empty store for the given directories.
    pub fn new(init: Workspace) -> (state: State)
        ensures
            state.wf(),
            state.init == init,
            state.records() == Seq::<RecordView>::empty(),
            forall|path: Seq<Seq<char>>| !state.has_file(path),
    {
        let state = State {
            init,
            symbols: Vec::new(),
            symbol_lookup: Vec::new(),
            reverse: StringHashMap::new(),
        };
        assert(state.records() =~= Seq::<RecordView>::empty());
        state
    }

    /// The position in the per-file index of the entry for `path`.
    pub fn find_file(&self, path: &SourcePath) -> (found: Option<usize>)
        ensures
            found is Some <==> self.has_file(path@),
            found is Some ==> found->0 < self.symbol_lookup@.len() && self.symbol_lookup@[found->0 as int].path@
                == path@,
    {
        let mut e: usize = 0;
        while e < self.symbol_lookup.len()
            invariant
                e <= self.symbol_lookup.len(),
                forall|k: int| 0 <= k < e ==> (#[trigger] self.symbol_lookup@[k]).path@ != path@,
            decreases self.symbol_lookup.len() - e,
        {
            if self.symbol_lookup[e].path.same_as(path) {
                return Some(e);
            }
            e += 1;
        }
        None
    }

    /// Scans one file into the store, unless the workspace does not admit
    /// its path or the file was indexed before. Says whether it was scanned.
    /// The per-name index is left as it was.
    pub fn index_file(&mut self, file: &SourceFile) -> (added: bool)
        requires
            old(self).files_wf(),
        ensures
            final(self).files_wf(),
            final(self).init == old(self).init,
            final(self).reverse == old(self).reverse,
            added == (old(self).init@.admits(file.path@) && !old(self).has_file(file.path@)),
            added ==> final(self).records() == old(self).records() + scanned_file(
                file.path@,
                line_views(file.lines@),
            ),
            !added ==> final(self).records() == old(self).records(),
            forall|path: Seq<Seq<char>>|
                final(self).has_file(path) <==> old(self).has_file(path) || (added && path
                    == file.path@),
    {
        if !self.init.admits(&file.path) || self.find_file(&file.path).is_some() {
            return false;
        }
        let table = keyword_table();
        let visibility = visibility_chars();
        let start = self.symbols.len();
        scan_lines(&table, &visibility, &file.path, &file.lines, &mut self.symbols);
        let entry = FileSymbols {
            path: file.path.clone(),
            ids: id_range(start, self.symbols.len()),
        };
        proof {
            let fresh = scanned_file(file.path@, line_views(file.lines@));
            assert(self.records().len() == old(self).records().len() + fresh.len());
            lemma_append_scan(
                old(self).records(),
                old(self).symbol_lookup@,
                entry,
                line_views(file.lines@),
            );
        }
        self.symbol_lookup.push(entry);
        proof {
            let longer = self.symbol_lookup@;
            let shorter = old(self).symbol_lookup@;
            assert forall|e: int| 0 <= e < longer.len() implies self.init@.admits(
                (#[trigger] longer[e]).path@,
            ) by {
                if e < shorter.len() {
                    assert(longer[e] == shorter[e]);
                }
            }
            assert forall|path: Seq<Seq<char>>|
                self.has_file(path) <==> old(self).has_file(path) || path == file.path@ by {
                if old(self).has_file(path) {
                    let e = choose|e: int| 0 <= e < shorter.len() && (#[trigger] shorter[e]).path@ == path;
                    assert(longer[e].path@ == path);
                }
                if path == file.path@ {
                    assert(longer[shorter.len() as int].path@ == path);
                }
                if self.has_file(path) {
                    let e = choose|e: int| 0 <= e < longer.len() && (#[trigger] longer[e]).path@ == path;
                    if e < shorter.len() {
                        assert(shorter[e].path@ == path);
                    }
                }
            }
        }
        true
    }

    /// Builds the per-name index anew from the record table, in one pass in
    /// the order of the ids.
    pub fn rebuild_name_index(&mut self)
        requires
            old(self).files_wf(),
        ensures
            final(self).wf(),
            final(self).init == old(self).init,
            final(self).symbols == old(self).symbols,
            final(self).symbol_lookup == old(self).symbol_lookup,
    {
        let mut index: StringHashMap<Vec<usize>> = StringHashMap::new();
        let ghost records = self.records();
        let mut i: usize = 0;
        while i < self.symbols.len()
            invariant
                i <= self.symbols.len(),
                records == self.records(),
                *self == *old(self),
                name_index_wf(index@, records.take(i as int)),
            decreases self.symbols.len() - i,
        {
            let name = &self.symbols[i].name;
            let ghost before = index@;
            let ghost seen = records.take(i as int);
            let ids = match index.get(name.as_str()) {
                Some(ids) => with_id(ids, i),
                None => {
                    let mut ids: Vec<usize> = Vec::new();
                    ids.push(i);
                    ids
                },
            };
            index.insert(name.clone(), ids);
            proof {
                let record = records[i as int];
                let longer = records.take(i as int + 1);
                assert(longer =~= seen.push(record));
                assert(record.name == name@);
                assert forall|other: Seq<char>| #[trigger] index@.contains_key(other) implies index@[other]@.len()
                    > 0 && is_listing(index@[other]@, longer, named(other)) by {
                    if other == name@ {
                        if before.contains_key(name@) {
                            lemma_listing_grows(before[name@]@, seen, record, named(name@));
                        } else {
                            let none = Seq::<usize>::empty();
                            assert forall|k: int| 0 <= k < seen.len() implies !named(name@)(
                                #[trigger] seen[k],
                            ) by {
                                assert(before.contains_key(seen[k].name));
                            }
                            assert(is_listing(none, seen, named(name@)));
                            lemma_listing_grows(none, seen, record, named(name@));
                            assert(index@[other]@ =~= none.push(i));
                        }
                    } else {
                        assert(before.contains_key(other));
                        lemma_listing_skips(before[other]@, seen, record, named(other));
                    }
                }
                assert forall|k: int| 0 <= k < longer.len() implies index@.contains_key(
                    (#[trigger] longer[k]).name,
                ) by {
                    if k < i {
                        assert(before.contains_key(seen[k].name));
                    }
                }
            }
            i += 1;
        }
        assert(records.take(i as int) =~= records);
        self.reverse = index;
    }
}

/// Indexes a workspace afresh: whatever the store held is dropped, the files
/// are scanned in the order given, and both indices are built. A file whose
/// path the workspace does not admit, or that stands in the list a second
/// time, adds nothing.
pub fn state_initialize(state: &mut State, files: &Vec<SourceFile>)
    ensures
        final(state).wf(),
        final(state).init == old(state).init,
        final(state).records() == indexed(
            old(state).init@,
            file_views(files@),
            files@.len() as int,
        ),
        entries_match(
            final(state).symbol_lookup@,
            old(state).init@,
            file_views(files@),
            files@.len() as int,
        ),
        names_lowered(final(state).records()),
{
    state.symbols = Vec::new();
    state.symbol_lookup = Vec::new();
    let ghost ws = state.init@;
    let ghost listed = file_views(files@);
    assert(state.records() =~= Seq::<RecordView>::empty());
    let mut i: usize = 0;
    while i < files.len()
        invariant
            i <= files.len(),
            state.files_wf(),
            state.init == old(state).init,
            ws == state.init@,
            listed == file_views(files@),
            state.records() == indexed(ws, listed, i as int),
            entries_match(state.symbol_lookup@, ws, listed, i as int),
        decreases files.len() - i,
    {
        let ghost before = *state;
        let ghost at = i as int;
        let added = state.index_file(&files[i]);
        i += 1;
        proof {
            let path = files@[at].path@;
            assert(listed[at] == files@[at]@);
            assert(added == contributes(ws, listed, at));
            assert forall|p: Seq<Seq<char>>| #[trigger]
                has_entry(state.symbol_lookup@, p) <==> ws.admits(p) && listed_before(
                    listed,
                    i as int,
                    p,
                ) by {
                assert(before.has_file(p) <==> ws.admits(p) && listed_before(listed, at, p));
                assert(state.has_file(p) <==> before.has_file(p) || (added && p == path));
                if listed_before(listed, i as int, p) {
                    let k = choose|k: int|
                        0 <= k < i && k < listed.len() && (#[trigger] listed[k]).path == p;
                    if k < at {
                        assert(listed_before(listed, at, p));
                    } else {
                        assert(p == path);
                    }
                }
                if listed_before(listed, at, p) {
                    let k = choose|k: int|
                        0 <= k < at && k < listed.len() && (#[trigger] listed[k]).path == p;
                    assert(0 <= k < i && listed[k].path == p);
                }
                if p == path {
                    assert(listed[at].path == p);
                    assert(listed_before(listed, i as int, p));
                }
            }
        }
    }
    state.rebuild_name_index();
    proof {
        lemma_indexed_files_admitted(ws, listed, files@.len() as int);
    }
}

/// Every record of an indexed workspace is declared in a file of the list
/// that the workspace admits, and holds its own name in lower case.
pub proof fn lemma_indexed_files_admitted(
    ws: WorkspaceView,
    files: Seq<SourceFileView>,
    upto: int,
)
    requires
        0 <= upto <= files.len(),
    ensures
        forall|i: int|
            0 <= i < indexed(ws, files, upto).len() ==> ws.admits(
                (#[trigger] indexed(ws, files, upto)[i]).file,
            ) && listed_before(files, upto, indexed(ws, files, upto)[i].file),
        names_lowered(indexed(ws, files, upto)),
    decreases upto,
{
    if upto > 0 {
        lemma_indexed_files_admitted(ws, files, upto - 1);
        let before = indexed(ws, files, upto - 1);
        let file = files[upto - 1];
        lemma_scanned(file.path, file.lines, file.lines.len() as int);
        assert forall|i: int| 0 <= i < indexed(ws, files, upto).len() implies ws.admits(
            (#[trigger] indexed(ws, files, upto)[i]).file,
        ) && listed_before(files, upto, indexed(ws, files, upto)[i].file) by {
            let record = indexed(ws, files, upto)[i];
            if i < before.len() {
                assert(record == before[i]);
                let k = choose|k: int|
                    0 <= k < upto - 1 && k < files.len() && (#[trigger] files[k]).path == record.file;
                assert(0 <= k < upto && files[k].path == record.file);
            } else {
                assert(record == scanned_file(file.path, file.lines)[i - before.len()]);
                assert(files[upto - 1].path == record.file);
            }
        }
    }
}

/// A file named as the reserved test module yields no record, whatever it
/// holds: no record of an indexed workspace is declared in such a file.
pub proof fn lemma_test_module_yields_nothing(
    ws: WorkspaceView,
    files: Seq<SourceFileView>,
    i: int,
)
    requires
        0 <= i < indexed(ws, files, files.len() as int).len(),
    ensures
        indexed(ws, files, files.len() as int)[i].file.len() > 0,
        indexed(ws, files, files.len() as int)[i].file.last() != "tests.rs"@,
{
    lemma_indexed_files_admitted(ws, files, files.len() as int);
}

/// A file that lies in a directory with a denied name, at any depth below
/// each root that holds it, yields no record: no record of an indexed
/// workspace is declared in such a file.
pub proof fn lemma_denied_directory_yields_nothing(
    ws: WorkspaceView,
    files: Seq<SourceFileView>,
    path: Seq<Seq<char>>,
    i: int,
)
    requires
        0 <= i < indexed(ws, files, files.len() as int).len(),
        ws.root.is_prefix_of(path) ==> exists|k: int|
            first_tested(ws.root) <= k < path.len() - 1 && is_denied_name(#[trigger] path[k]),
        ws.library_root is Some && ws.library_root->0.is_prefix_of(path) ==> exists|k: int|
            first_tested(ws.library_root->0) <= k < path.len() - 1 && is_denied_name(
                #[trigger] path[k],
            ),
    ensures
        indexed(ws, files, files.len() as int)[i].file != path,
{
    lemma_indexed_files_admitted(ws, files, files.len() as int);
}

impl State {
    /// Every record of a sound store is declared in an indexed file that
    /// the workspace admits: one with the source extension, not named as the
    /// reserved test module, and in no directory with a denied name from its
    /// root down.
    pub proof fn lemma_record_file_admitted(&self, i: int)
        requires
            self.files_wf(),
            0 <= i < self.records().len(),
        ensures
            self.has_file(self.records()[i].file),
            self.init@.admits(self.records()[i].file),
    {
        let path = self.records()[i].file;
        assert(has_entry(self.symbol_lookup@, path));
        let e = choose|e: int|
            0 <= e < self.symbol_lookup@.len() && (#[trigger] self.symbol_lookup@[e]).path@ == path;
        assert(self.init@.admits(self.symbol_lookup@[e].path@));
    }

    /// In a sound store the container of a field is the name of a struct or
    /// an enum recorded before the field in the same file.
    pub proof fn lemma_field_container_declared(&self, i: int)
        requires
            self.files_wf(),
            0 <= i < self.records().len(),
            self.records()[i].container is Some,
        ensures
            self.records()[i].kind == crate::recognize::SymbolKind::Field,
            exists|j: int|
                0 <= j < i && is_container_record(
                    self.records(),
                    j,
                    self.records()[i].file,
                    self.records()[i].container->0,
                ),
    {
        let records = self.records();
        let j = choose|j: int|
            j < i && is_container_record(records, j, records[i].file, records[i].container->0);
        assert(0 <= j < i && is_container_record(
            records,
            j,
            records[i].file,
            records[i].container->0,
        ));
    }
}

} // verus!
