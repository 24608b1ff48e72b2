//! The walk over the workspace: which directory is listed next, and what
//! becomes of the entries of a listed directory. Listing a directory is left
//! to the caller; the walk decides.

use vstd::prelude::*;
use crate::path::{admitted_below, eligible_file_name, eligible_name, excluded, reached_below, SourcePath};
use crate::store::{Workspace, WorkspaceView};

verus! {

/// One entry of a listed directory.
#[derive(Debug, PartialEq, Eq)]
pub struct DirEntry {
    pub name: String,
    /// Whether the entry is a file; whatever is not a file is walked as a
    /// directory.
    pub is_file: bool,
}

/// The mathematical content of a `DirEntry`.
pub ghost struct DirEntryView {
    pub name: Seq<char>,
    pub is_file: bool,
}

impl View for DirEntry {
    type V = DirEntryView;

    open spec fn view(&self) -> DirEntryView {
        DirEntryView { name: self.name@, is_file: self.is_file }
    }
}

/// The contents of the entries `entries`, in order.
pub open spec fn entry_views(entries: Seq<DirEntry>) -> Seq<DirEntryView> {
    Seq::new(entries.len(), |i: int| entries[i]@)
}

/// The paths `paths` as sequences of names, in order.
pub open spec fn path_views(paths: Seq<SourcePath>) -> Seq<Seq<Seq<char>>> {
    Seq::new(paths.len(), |i: int| paths[i]@)
}

/// The roots of a workspace: its folder, then the library's source where it
/// is known.
pub open spec fn roots_of(ws: WorkspaceView) -> Seq<Seq<Seq<char>>> {
    match ws.library_root {
        Some(library) => seq![ws.root, library],
        None => seq![ws.root],
    }
}

/// Whether the directory `path` is reached by the walk from one of `roots`.
pub open spec fn reached_from(roots: Seq<Seq<Seq<char>>>, path: Seq<Seq<char>>) -> bool {
    exists|r: int| 0 <= r < roots.len() && reached_below(#[trigger] roots[r], path)
}

/// Whether the file `path` is found by the walk from one of `roots`.
pub open spec fn admitted_from(roots: Seq<Seq<Seq<char>>>, path: Seq<Seq<char>>) -> bool {
    exists|r: int| 0 <= r < roots.len() && admitted_below(#[trigger] roots[r], path)
}

/// The files that the first `upto` entries of the directory `dir` add to
/// the walk's result: the entries that are files with an eligible name.
pub open spec fn listed_files(dir: Seq<Seq<char>>, entries: Seq<DirEntryView>, upto: int) -> Seq<
    Seq<Seq<char>>,
>
    decreases upto,
{
    if upto <= 0 {
        Seq::empty()
    } else if entries[upto - 1].is_file && eligible_name(entries[upto - 1].name) {
        listed_files(dir, entries, upto - 1).push(dir.push(entries[upto - 1].name))
    } else {
        listed_files(dir, entries, upto - 1)
    }
}

/// The directories that the first `upto` entries of the directory `dir`
/// leave to be walked: the entries that are not files.
pub open spec fn listed_directories(
    dir: Seq<Seq<char>>,
    entries: Seq<DirEntryView>,
    upto: int,
) -> Seq<Seq<Seq<char>>>
    decreases upto,
{
    if upto <= 0 {
        Seq::empty()
    } else if !entries[upto - 1].is_file {
        listed_directories(dir, entries, upto - 1).push(dir.push(entries[upto - 1].name))
    } else {
        listed_directories(dir, entries, upto - 1)
    }
}

/// A directory below a reached directory that is not excluded is reached.
pub proof fn lemma_child_reached(root: Seq<Seq<char>>, dir: Seq<Seq<char>>, name: Seq<char>)
    requires
        reached_below(root, dir),
        !excluded(dir),
    ensures
        reached_below(root, dir.push(name)),
        eligible_name(name) ==> admitted_below(root, dir.push(name)),
{
    let child = dir.push(name);
    assert(root =~= child.subrange(0, root.len() as int));
    assert forall|i: int| crate::path::first_tested(root) <= i < child.len() - 1 implies !crate::path::is_denied_name(
        #[trigger] child[i],
    ) by {
        assert(child[i] == dir[i]);
    }
}

/// The files that the walk from a workspace's roots finds are those that
/// the workspace admits.
pub proof fn lemma_walk_finds_what_is_admitted(ws: WorkspaceView, path: Seq<Seq<char>>)
    ensures
        admitted_from(roots_of(ws), path) <==> ws.admits(path),
{
    let roots = roots_of(ws);
    assert(roots[0] == ws.root);
    if ws.library_root is Some {
        assert(roots[1] == ws.library_root->0);
    }
    if ws.admits(path) {
        if admitted_below(ws.root, path) {
            assert(admitted_below(roots[0], path));
        } else {
            assert(admitted_below(roots[1], path));
        }
    }
}

/// Whether the listing `entries` holds a file called `name`.
pub open spec fn lists_file(entries: Seq<DirEntryView>, name: Seq<char>) -> bool {
    exists|k: int|
        0 <= k < entries.len() && (#[trigger] entries[k]).name == name && entries[k].is_file
}

/// Whether the listing `entries` holds something called `name` that is not
/// a file.
pub open spec fn lists_directory(entries: Seq<DirEntryView>, name: Seq<char>) -> bool {
    exists|k: int|
        0 <= k < entries.len() && (#[trigger] entries[k]).name == name && !entries[k].is_file
}

/// Whether the file `path` is to be found by walking down from the directory
/// `dir` in the tree `tree`, which gives the listing of each directory that
/// can be listed: `dir` is not excluded and can be listed, and its listing
/// holds either the file itself, with an eligible name, or the next
/// directory on the way, from which the file is to be found in turn.
pub open spec fn holds(
    tree: spec_fn(Seq<Seq<char>>) -> Option<Seq<DirEntryView>>,
    dir: Seq<Seq<char>>,
    path: Seq<Seq<char>>,
) -> bool
    decreases path.len() - dir.len(),
{
    &&& dir.len() < path.len()
    &&& dir.is_prefix_of(path)
    &&& !excluded(dir)
    &&& tree(dir) is Some
    &&& if path.len() == dir.len() + 1 {
        eligible_name(path.last()) && lists_file(tree(dir)->0, path.last())
    } else {
        lists_directory(tree(dir)->0, path[dir.len() as int]) && holds(
            tree,
            dir.push(path[dir.len() as int]),
            path,
        )
    }
}

/// Whether the file `path` is to be found from one of the directories
/// `dirs` in the tree `tree`.
pub open spec fn held_from(
    tree: spec_fn(Seq<Seq<char>>) -> Option<Seq<DirEntryView>>,
    dirs: Seq<Seq<Seq<char>>>,
    path: Seq<Seq<char>>,
) -> bool {
    exists|k: int| 0 <= k < dirs.len() && holds(tree, #[trigger] dirs[k], path)
}

/// Every eligible file among the first `upto` entries is among the files
/// that the entries add.
pub proof fn lemma_listed_files(
    dir: Seq<Seq<char>>,
    entries: Seq<DirEntryView>,
    upto: int,
    k: int,
)
    requires
        0 <= k < upto <= entries.len(),
        entries[k].is_file,
        eligible_name(entries[k].name),
    ensures
        listed_files(dir, entries, upto).contains(dir.push(entries[k].name)),
    decreases upto,
{
    let now = listed_files(dir, entries, upto);
    if k == upto - 1 {
        assert(now[now.len() - 1] == dir.push(entries[k].name));
    } else {
        lemma_listed_files(dir, entries, upto - 1, k);
        let before = listed_files(dir, entries, upto - 1);
        let at = choose|at: int| 0 <= at < before.len() && before[at] == dir.push(entries[k].name);
        assert(now[at] == dir.push(entries[k].name));
    }
}

/// Every entry among the first `upto` that is not a file is among the
/// directories that the entries leave to be walked.
pub proof fn lemma_listed_directories(
    dir: Seq<Seq<char>>,
    entries: Seq<DirEntryView>,
    upto: int,
    k: int,
)
    requires
        0 <= k < upto <= entries.len(),
        !entries[k].is_file,
    ensures
        listed_directories(dir, entries, upto).contains(dir.push(entries[k].name)),
    decreases upto,
{
    let now = listed_directories(dir, entries, upto);
    if k == upto - 1 {
        assert(now[now.len() - 1] == dir.push(entries[k].name));
    } else {
        lemma_listed_directories(dir, entries, upto - 1, k);
        let before = listed_directories(dir, entries, upto - 1);
        let at = choose|at: int| 0 <= at < before.len() && before[at] == dir.push(entries[k].name);
        assert(now[at] == dir.push(entries[k].name));
    }
}

/// The state of a walk.
pub struct Walker {
    /// The directories from which the walk started.
    pub roots: Vec<SourcePath>,
    /// The directories still to be visited; the last is visited first.
    pub pending: Vec<SourcePath>,
    /// The directory whose listing the walk waits for.
    pub current: Option<SourcePath>,
    /// The files found so far.
    pub files: Vec<SourcePath>,
}

impl Walker {
    /// Whether the walk's state is sound: whatever is pending was reached
    /// from a root, the directory being listed is reached and not excluded,
    /// and every file found is one that the walk from a root finds.
    pub open spec fn wf(&self) -> bool {
        &&& forall|k: int|
            0 <= k < self.pending@.len() ==> reached_from(
                path_views(self.roots@),
                (#[trigger] self.pending@[k])@,
            )
        &&& self.current is Some ==> reached_from(path_views(self.roots@), self.current->0@)
            && !excluded(self.current->0@)
        &&& forall|k: int|
            0 <= k < self.files@.len() ==> admitted_from(
                path_views(self.roots@),
                (#[trigger] self.files@[k])@,
            )
    }

    /// Whether the walk still has the file `path` of the tree `tree` in
    /// hand: it was found already, or it is to be found from a pending
    /// directory or from the directory being listed.
    pub open spec fn keeps(
        &self,
        tree: spec_fn(Seq<Seq<char>>) -> Option<Seq<DirEntryView>>,
        path: Seq<Seq<char>>,
    ) -> bool {
        ||| path_views(self.files@).contains(path)
        ||| held_from(tree, path_views(self.pending@), path)
        ||| (self.current is Some && holds(tree, self.current->0@, path))
    }

    /// Whether the walk loses no file of the tree `tree`: every file that is
    /// to be found from a root is still in hand.
    pub open spec fn covers(
        &self,
        tree: spec_fn(Seq<Seq<char>>) -> Option<Seq<DirEntryView>>,
    ) -> bool {
        forall|path: Seq<Seq<char>>| #[trigger]
            held_from(tree, path_views(self.roots@), path) ==> self.keeps(tree, path)
    }

    /// A walk that has come to its end without losing a file has found
    /// every file that is to be found from a root.
    pub proof fn lemma_finished_walk_is_exhaustive(
        &self,
        tree: spec_fn(Seq<Seq<char>>) -> Option<Seq<DirEntryView>>,
        path: Seq<Seq<char>>,
    )
        requires
            self.covers(tree),
            self.pending@.len() == 0,
            self.current is None,
            held_from(tree, path_views(self.roots@), path),
        ensures
            path_views(self.files@).contains(path),
    {
        assert(self.keeps(tree, path));
    }

    /// Going on to the next directory loses no file, where the directory
    /// that was being listed, if any, could not be listed.
    pub proof fn lemma_next_directory_covers(
        before: Walker,
        after: Walker,
        tree: spec_fn(Seq<Seq<char>>) -> Option<Seq<DirEntryView>>,
    )
        requires
            before.covers(tree),
            before.current is Some ==> tree(before.current->0@) is None,
            after.roots == before.roots,
            after.files == before.files,
            after.pending@.len() <= before.pending@.len(),
            after.pending@ == before.pending@.take(after.pending@.len() as int),
            forall|k: int|
                after.pending@.len() < k < before.pending@.len() ==> excluded(
                    (#[trigger] before.pending@[k])@,
                ),
            after.pending@.len() < before.pending@.len() ==> {
                let popped = before.pending@[after.pending@.len() as int]@;
                if excluded(popped) {
                    after.current is None
                } else {
                    after.current is Some && after.current->0@ == popped
                }
            },
            after.pending@.len() == before.pending@.len() ==> after.current is None
                && after.pending@.len() == 0,
        ensures
            after.covers(tree),
    {
        let old_pending = path_views(before.pending@);
        let new_pending = path_views(after.pending@);
        let kept = after.pending@.len() as int;
        assert forall|path: Seq<Seq<char>>| #[trigger]
            held_from(tree, path_views(after.roots@), path) implies after.keeps(tree, path) by {
            assert(before.keeps(tree, path));
            if held_from(tree, old_pending, path) {
                let k = choose|k: int|
                    0 <= k < old_pending.len() && holds(tree, #[trigger] old_pending[k], path);
                assert(old_pending[k] == before.pending@[k]@);
                if k < kept {
                    assert(new_pending[k] == old_pending[k]);
                } else if k == kept {
                } else {
                    assert(excluded(before.pending@[k]@));
                }
            }
        }
    }

    /// Taking the entries of the directory being listed loses no file, where
    /// the entries are the directory's listing in the tree.
    pub proof fn lemma_record_entries_covers(
        before: Walker,
        after: Walker,
        entries: Seq<DirEntryView>,
        tree: spec_fn(Seq<Seq<char>>) -> Option<Seq<DirEntryView>>,
    )
        requires
            before.covers(tree),
            before.current is Some,
            tree(before.current->0@) == Some(entries),
            after.roots == before.roots,
            after.current is None,
            path_views(after.files@) == path_views(before.files@) + listed_files(
                before.current->0@,
                entries,
                entries.len() as int,
            ),
            path_views(after.pending@) == path_views(before.pending@) + listed_directories(
                before.current->0@,
                entries,
                entries.len() as int,
            ),
        ensures
            after.covers(tree),
    {
        let dir = before.current->0@;
        let n = entries.len() as int;
        let old_files = path_views(before.files@);
        let new_files = path_views(after.files@);
        let old_pending = path_views(before.pending@);
        let new_pending = path_views(after.pending@);
        assert forall|path: Seq<Seq<char>>| #[trigger]
            held_from(tree, path_views(after.roots@), path) implies after.keeps(tree, path) by {
            assert(before.keeps(tree, path));
            if old_files.contains(path) {
                let at = choose|at: int| 0 <= at < old_files.len() && old_files[at] == path;
                assert(new_files[at] == path);
            } else if held_from(tree, old_pending, path) {
                let k = choose|k: int|
                    0 <= k < old_pending.len() && holds(tree, #[trigger] old_pending[k], path);
                assert(new_pending[k] == old_pending[k]);
            } else {
                assert(holds(tree, dir, path));
                if path.len() == dir.len() + 1 {
                    let k = choose|k: int|
                        0 <= k < entries.len() && (#[trigger] entries[k]).name == path.last()
                            && entries[k].is_file;
                    lemma_listed_files(dir, entries, n, k);
                    assert(dir.push(path.last()) =~= path);
                    let fresh = listed_files(dir, entries, n);
                    let at = choose|at: int| 0 <= at < fresh.len() && fresh[at] == path;
                    assert(new_files[old_files.len() + at] == path);
                } else {
                    let name = path[dir.len() as int];
                    let k = choose|k: int|
                        0 <= k < entries.len() && (#[trigger] entries[k]).name == name
                            && !entries[k].is_file;
                    lemma_listed_directories(dir, entries, n, k);
                    let fresh = listed_directories(dir, entries, n);
                    let at = choose|at: int| 0 <= at < fresh.len() && fresh[at] == dir.push(name);
                    assert(new_pending[old_pending.len() + at] == dir.push(name));
                    assert(holds(tree, new_pending[old_pending.len() + at], path));
                }
            }
        }
    }

    /// A walk that is about to start at the roots of `workspace`.
    pub fn new(workspace: &Workspace) -> (walker: Walker)
        ensures
            walker.wf(),
            path_views(walker.roots@) == roots_of(workspace@),
            path_views(walker.pending@) == roots_of(workspace@),
            walker.current is None,
            walker.files@.len() == 0,
            forall|tree: spec_fn(Seq<Seq<char>>) -> Option<Seq<DirEntryView>>| #[trigger]
                walker.covers(tree),
    {
        let mut roots: Vec<SourcePath> = Vec::new();
        let mut pending: Vec<SourcePath> = Vec::new();
        roots.push(workspace.root.clone());
        pending.push(workspace.root.clone());
        match &workspace.library_root {
            Some(library) => {
                roots.push(library.clone());
                pending.push(library.clone());
            },
            None => {},
        }
        let walker = Walker { roots, pending, current: None, files: Vec::new() };
        proof {
            assert(path_views(walker.roots@) =~= roots_of(workspace@));
            assert(path_views(walker.pending@) =~= roots_of(workspace@));
            assert forall|k: int| 0 <= k < walker.pending@.len() implies reached_from(
                path_views(walker.roots@),
                (#[trigger] walker.pending@[k])@,
            ) by {
                let root = path_views(walker.roots@)[k];
                assert(root =~= root.subrange(0, root.len() as int));
                assert(reached_below(root, walker.pending@[k]@));
            }
            assert forall|tree: spec_fn(Seq<Seq<char>>) -> Option<Seq<DirEntryView>>| #[trigger]
                walker.covers(tree) by {
                assert(path_views(walker.pending@) == path_views(walker.roots@));
            }
        }
        walker
    }

    /// The next directory to list, if any is left. Pending directories that
    /// are excluded are dropped on the way; the one returned is the last
    /// pending directory that is not excluded, and the walk then waits for
    /// its entries.
    pub fn next_directory(&mut self) -> (next: Option<SourcePath>)
        requires
            old(self).wf(),
        ensures
            final(self).wf(),
            final(self).roots == old(self).roots,
            final(self).files == old(self).files,
            match next {
                Some(dir) => {
                    let kept = final(self).pending@.len() as int;
                    &&& kept < old(self).pending@.len()
                    &&& final(self).pending@ == old(self).pending@.take(kept)
                    &&& dir@ == old(self).pending@[kept]@
                    &&& !excluded(dir@)
                    &&& final(self).current is Some
                    &&& final(self).current->0@ == dir@
                    &&& forall|k: int|
                        kept < k < old(self).pending@.len() ==> excluded(
                            (#[trigger] old(self).pending@[k])@,
                        )
                },
                None => {
                    &&& final(self).pending@.len() == 0
                    &&& final(self).current is None
                    &&& forall|k: int|
                        0 <= k < old(self).pending@.len() ==> excluded(
                            (#[trigger] old(self).pending@[k])@,
                        )
                },
            },
            forall|tree: spec_fn(Seq<Seq<char>>) -> Option<Seq<DirEntryView>>|
                old(self).covers(tree) && (old(self).current is Some ==> tree(
                    old(self).current->0@,
                ) is None) ==> #[trigger] final(self).covers(tree),
    {
        self.current = None;
        while self.pending.len() > 0
            invariant
                self.wf(),
                self.current is None,
                self.roots == old(self).roots,
                self.files == old(self).files,
                self.pending@.len() <= old(self).pending@.len(),
                self.pending@ == old(self).pending@.take(self.pending@.len() as int),
                forall|k: int|
                    self.pending@.len() <= k < old(self).pending@.len() ==> excluded(
                        (#[trigger] old(self).pending@[k])@,
                    ),
            decreases self.pending@.len(),
        {
            let ghost before = self.pending@;
            let dir = self.pending.pop().unwrap();
            assert(dir == before[before.len() - 1]);
            assert(self.pending@ =~= old(self).pending@.take(self.pending@.len() as int));
            if !dir.is_excluded() {
                self.current = Some(dir.clone());
                proof {
                    assert forall|tree: spec_fn(Seq<Seq<char>>) -> Option<Seq<DirEntryView>>|
                        old(self).covers(tree) && (old(self).current is Some ==> tree(
                            old(self).current->0@,
                        ) is None) implies #[trigger] self.covers(tree) by {
                        Self::lemma_next_directory_covers(*old(self), *self, tree);
                    }
                }
                return Some(dir);
            }
        }
        proof {
            assert forall|tree: spec_fn(Seq<Seq<char>>) -> Option<Seq<DirEntryView>>|
                old(self).covers(tree) && (old(self).current is Some ==> tree(
                    old(self).current->0@,
                ) is None) implies #[trigger] self.covers(tree) by {
                Self::lemma_next_directory_covers(*old(self), *self, tree);
            }
        }
        None
    }

    /// Takes the entries of the directory that the walk waits for: each
    /// file with an eligible name is added to the files found, each entry
    /// that is not a file is left to be visited. Where the walk waits for no
    /// directory, nothing changes.
    pub fn record_entries(&mut self, entries: &Vec<DirEntry>)
        requires
            old(self).wf(),
        ensures
            final(self).wf(),
            final(self).roots == old(self).roots,
            final(self).current is None,
            old(self).current is None ==> final(self).files == old(self).files && final(self).pending
                == old(self).pending,
            old(self).current is Some ==> path_views(final(self).files@) == path_views(
                old(self).files@,
            ) + listed_files(old(self).current->0@, entry_views(entries@), entries@.len() as int),
            old(self).current is Some ==> path_views(final(self).pending@) == path_views(
                old(self).pending@,
            ) + listed_directories(
                old(self).current->0@,
                entry_views(entries@),
                entries@.len() as int,
            ),
            forall|tree: spec_fn(Seq<Seq<char>>) -> Option<Seq<DirEntryView>>|
                old(self).covers(tree) && old(self).current is Some && tree(
                    old(self).current->0@,
                ) == Some(entry_views(entries@)) ==> #[trigger] final(self).covers(tree),
    {
        let dir = match self.current.take() {
            Some(dir) => dir,
            None => {
                return ;
            },
        };
        let ghost listing = entry_views(entries@);
        let ghost roots = path_views(self.roots@);
        let ghost root = choose|r: int| 0 <= r < roots.len() && reached_below(#[trigger] roots[r], dir@);
        assert(path_views(self.files@) =~= path_views(old(self).files@) + listed_files(dir@, listing, 0));
        assert(path_views(self.pending@) =~= path_views(old(self).pending@) + listed_directories(
            dir@,
            listing,
            0,
        ));
        let mut i: usize = 0;
        while i < entries.len()
            invariant
                i <= entries.len(),
                self.wf(),
                self.roots == old(self).roots,
                self.current is None,
                listing == entry_views(entries@),
                roots == path_views(self.roots@),
                0 <= root < roots.len(),
                reached_below(roots[root], dir@),
                !excluded(dir@),
                path_views(self.files@) == path_views(old(self).files@) + listed_files(
                    dir@,
                    listing,
                    i as int,
                ),
                path_views(self.pending@) == path_views(old(self).pending@) + listed_directories(
                    dir@,
                    listing,
                    i as int,
                ),
            decreases entries.len() - i,
        {
            let entry = &entries[i];
            assert(listing[i as int] == entry@);
            proof {
                lemma_child_reached(roots[root], dir@, entry.name@);
            }
            let ghost files_before = path_views(self.files@);
            let ghost pending_before = path_views(self.pending@);
            if entry.is_file {
                if eligible_file_name(entry.name.as_str()) {
                    let child = dir.join(entry.name.as_str());
                    assert(admitted_below(roots[root], child@));
                    self.files.push(child);
                    assert(path_views(self.files@) =~= files_before.push(child@));
                }
            } else {
                let child = dir.join(entry.name.as_str());
                assert(reached_below(roots[root], child@));
                self.pending.push(child);
                assert(path_views(self.pending@) =~= pending_before.push(child@));
            }
            assert(path_views(self.files@) =~= path_views(old(self).files@) + listed_files(
                dir@,
                listing,
                i as int + 1,
            ));
            assert(path_views(self.pending@) =~= path_views(old(self).pending@)
                + listed_directories(dir@, listing, i as int + 1));
            i += 1;
        }
        proof {
            assert forall|tree: spec_fn(Seq<Seq<char>>) -> Option<Seq<DirEntryView>>|
                old(self).covers(tree) && old(self).current is Some && tree(
                    old(self).current->0@,
                ) == Some(entry_views(entries@)) implies #[trigger] self.covers(tree) by {
                Self::lemma_record_entries_covers(*old(self), *self, listing, tree);
            }
        }
    }

    /// Whether the walk is over: no directory is pending and none is being
    /// listed.
    pub fn is_done(&self) -> (done: bool)
        ensures
            done == (self.pending@.len() == 0 && self.current is None),
    {
        self.pending.len() == 0 && self.current.is_none()
    }

    /// Ends the walk and hands out the files found, in the order in which
    /// they were found.
    pub fn into_files(self) -> (files: Vec<SourcePath>)
        ensures
            files == self.files,
    {
        self.files
    }
}

/// The components that lead from a toolchain's directory to the source of
/// its library.
pub open spec fn library_suffix() -> Seq<Seq<char>> {
    seq!["lib"@, "rustlib"@, "src"@, "rust"@, "library"@]
}

/// The directory of the toolchain library's source, worked out from the
/// path of the toolchain's compiler: the last two components are dropped,
/// and the components to the library's source are added. A path of fewer
/// than two components gives none.
pub fn library_root_of(compiler: &SourcePath) -> (root: Option<SourcePath>)
    ensures
        root is Some <==> compiler@.len() >= 2,
        root is Some ==> root->0@ == compiler@.take(compiler@.len() - 2) + library_suffix(),
{
    let n = compiler.len();
    if n < 2 {
        return None;
    }
    let mut root = compiler.prefix(n - 2);
    root.components.push("lib".to_owned());
    root.components.push("rustlib".to_owned());
    root.components.push("src".to_owned());
    root.components.push("rust".to_owned());
    root.components.push("library".to_owned());
    assert(root@ =~= compiler@.take(compiler@.len() - 2) + library_suffix());
    Some(root)
}

} // verus!
