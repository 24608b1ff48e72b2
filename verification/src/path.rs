//! Paths as sequences of component names, and the policy that decides which
//! directories are walked and which files are indexed.

use vstd::prelude::*;
use crate::text::{str_eq, to_chars};

verus! {

/// A path, held as the names of its components from the outermost inwards.
/// A leading root, where the path has one, is the first component.
#[derive(Debug, PartialEq, Eq, Hash)]
pub struct SourcePath {
    pub components: Vec<String>,
}

impl View for SourcePath {
    type V = Seq<Seq<char>>;

    open spec fn view(&self) -> Seq<Seq<char>> {
        Seq::new(self.components@.len(), |i: int| self.components@[i]@)
    }
}

/// The directory names that are never walked: build output, version
/// control, backups and test fixtures.
pub open spec fn denied_names() -> Seq<Seq<char>> {
    seq![
        "target"@,
        ".git"@,
        "backups"@,
        "entities"@,
        "scenes"@,
        "tests"@,
        "stdarch"@,
        "backtrace"@,
    ]
}

/// Whether `name` is one of the directory names that are never walked.
pub open spec fn is_denied_name(name: Seq<char>) -> bool {
    denied_names().contains(name)
}

/// Whether the directory `path` is left out of the walk: its final component
/// is a denied name.
pub open spec fn excluded(path: Seq<Seq<char>>) -> bool {
    path.len() > 0 && is_denied_name(path.last())
}

/// Whether `name` has the source extension: it ends in `.rs` and something
/// stands before the dot.
pub open spec fn has_source_extension(name: Seq<char>) -> bool {
    &&& name.len() > 3
    &&& name[name.len() - 3] == '.'
    &&& name[name.len() - 2] == 'r'
    &&& name[name.len() - 1] == 's'
}

/// Whether a file with the name `name` is indexed: it has the source
/// extension and is not the reserved test module.
pub open spec fn eligible_name(name: Seq<char>) -> bool {
    has_source_extension(name) && name != "tests.rs"@
}

/// Whether the file `path` is indexed, judged by its final component.
pub open spec fn eligible(path: Seq<Seq<char>>) -> bool {
    path.len() > 0 && eligible_name(path.last())
}

/// The position of the first component that the walk from `root` tests
/// against the denied names: the root's own final component.
pub open spec fn first_tested(root: Seq<Seq<char>>) -> int {
    if root.len() == 0 {
        0
    } else {
        root.len() - 1
    }
}

/// Whether the directory `path` is reached by a walk that starts at `root`:
/// it lies at or below the root, and neither the root nor a directory on the
/// way down to it, `path` itself left aside, has a denied name.
pub open spec fn reached_below(root: Seq<Seq<char>>, path: Seq<Seq<char>>) -> bool {
    &&& root.is_prefix_of(path)
    &&& forall|i: int| first_tested(root) <= i < path.len() - 1 ==> !is_denied_name(#[trigger] path[i])
}

/// Whether the file `path` is found by a walk that starts at `root`: it lies
/// below the root, neither the root nor a directory on the way down to it
/// has a denied name, and the file itself is eligible.
pub open spec fn admitted_below(root: Seq<Seq<char>>, path: Seq<Seq<char>>) -> bool {
    &&& root.len() < path.len()
    &&& reached_below(root, path)
    &&& eligible_name(path.last())
}

/// Whether `name` is one of the directory names that are never walked.
pub fn denied_name(name: &str) -> (denied: bool)
    ensures
        denied == is_denied_name(name@),
{
    let denied = str_eq(name, "target") || str_eq(name, ".git") || str_eq(name, "backups")
        || str_eq(name, "entities") || str_eq(name, "scenes") || str_eq(name, "tests") || str_eq(
        name,
        "stdarch",
    ) || str_eq(name, "backtrace");
    proof {
        let names = denied_names();
        assert(names[0] == "target"@ && names[1] == ".git"@ && names[2] == "backups"@ && names[3]
            == "entities"@ && names[4] == "scenes"@ && names[5] == "tests"@ && names[6]
            == "stdarch"@ && names[7] == "backtrace"@);
    }
    denied
}

/// Whether a file with the name `name` is indexed.
pub fn eligible_file_name(name: &str) -> (ok: bool)
    ensures
        ok == eligible_name(name@),
{
    let chars = to_chars(name);
    let n = chars.len();
    n > 3 && chars[n - 3] == '.' && chars[n - 2] == 'r' && chars[n - 1] == 's' && !str_eq(
        name,
        "tests.rs",
    )
}

impl Clone for SourcePath {
    fn clone(&self) -> (copy: SourcePath)
        ensures
            copy@ == self@,
    {
        self.prefix(self.components.len())
    }
}

impl SourcePath {
    /// The path with no components.
    pub fn new() -> (path: SourcePath)
        ensures
            path@ == Seq::<Seq<char>>::empty(),
    {
        SourcePath { components: Vec::new() }
    }

    /// The path with the given components.
    pub fn from_components(components: Vec<String>) -> (path: SourcePath)
        ensures
            path.components == components,
    {
        SourcePath { components }
    }

    /// The number of components.
    pub fn len(&self) -> (n: usize)
        ensures
            n == self@.len(),
    {
        self.components.len()
    }

    /// The path made of the first `n` components of this one.
    pub fn prefix(&self, n: usize) -> (head: SourcePath)
        requires
            n <= self@.len(),
        ensures
            head@ == self@.take(n as int),
    {
        let mut components: Vec<String> = Vec::new();
        let mut i: usize = 0;
        while i < n
            invariant
                i <= n <= self.components.len(),
                components@.len() == i,
                forall|k: int| 0 <= k < i ==> components@[k]@ == self.components@[k]@,
            decreases n - i,
        {
            components.push(self.components[i].clone());
            i += 1;
        }
        let head = SourcePath { components };
        assert(head@ =~= self@.take(n as int));
        head
    }

    /// This path with one more component, `name`, at its end.
    pub fn join(&self, name: &str) -> (child: SourcePath)
        ensures
            child@ == self@.push(name@),
    {
        let mut child = self.clone();
        child.components.push(name.to_owned());
        assert(child@ =~= self@.push(name@));
        child
    }

    /// Whether the two paths have the same components.
    pub fn same_as(&self, other: &SourcePath) -> (same: bool)
        ensures
            same == (self@ == other@),
    {
        let same = self.components.len() == other.components.len() && self.starts_with(other);
        assert(self@.subrange(0, self@.len() as int) =~= self@);
        same
    }

    /// Whether this path lies at or below `base`: the components of `base`
    /// are the first components of this path.
    pub fn starts_with(&self, base: &SourcePath) -> (under: bool)
        ensures
            under == base@.is_prefix_of(self@),
    {
        if base.components.len() > self.components.len() {
            return false;
        }
        let mut i: usize = 0;
        while i < base.components.len()
            invariant
                i <= base.components.len() <= self.components.len(),
                forall|k: int| 0 <= k < i ==> self@[k] == base@[k],
            decreases base.components.len() - i,
        {
            if !str_eq(self.components[i].as_str(), base.components[i].as_str()) {
                assert(self@.subrange(0, base@.len() as int)[i as int] != base@[i as int]);
                return false;
            }
            i += 1;
        }
        assert(base@ =~= self@.subrange(0, base@.len() as int));
        true
    }

    /// Whether the directory at this path is left out of the walk.
    pub fn is_excluded(&self) -> (out: bool)
        ensures
            out == excluded(self@),
    {
        let n = self.components.len();
        n > 0 && denied_name(self.components[n - 1].as_str())
    }

    /// Whether the file at this path is indexed, judged by its name alone.
    pub fn is_eligible_file(&self) -> (ok: bool)
        ensures
            ok == eligible(self@),
    {
        let n = self.components.len();
        n > 0 && eligible_file_name(self.components[n - 1].as_str())
    }

    /// Whether the directory at this path is reached by a walk that starts
    /// at `root`.
    pub fn is_reached_below(&self, root: &SourcePath) -> (reached: bool)
        ensures
            reached == reached_below(root@, self@),
    {
        if !self.starts_with(root) {
            return false;
        }
        let n = self.components.len();
        if n == 0 {
            return true;
        }
        let mut i: usize = if root.components.len() == 0 {
            0
        } else {
            root.components.len() - 1
        };
        while i < n - 1
            invariant
                first_tested(root@) <= i,
                n == self@.len(),
                n > 0,
                root@.is_prefix_of(self@),
                forall|k: int| first_tested(root@) <= k < i ==> !is_denied_name(#[trigger] self@[k]),
            decreases n - i,
        {
            if denied_name(self.components[i].as_str()) {
                assert(is_denied_name(self@[i as int]));
                return false;
            }
            i += 1;
        }
        true
    }

    /// Whether the file at this path is found by a walk that starts at
    /// `root`.
    pub fn is_admitted_below(&self, root: &SourcePath) -> (admitted: bool)
        ensures
            admitted == admitted_below(root@, self@),
    {
        root.components.len() < self.components.len() && self.is_eligible_file()
            && self.is_reached_below(root)
    }
}

/// A file that lies in or below a directory with a denied name, the walk's
/// root included, is not found by the walk from that root.
pub proof fn lemma_denied_directory_hides_files(
    root: Seq<Seq<char>>,
    path: Seq<Seq<char>>,
    i: int,
)
    requires
        first_tested(root) <= i < path.len() - 1,
        is_denied_name(path[i]),
    ensures
        !admitted_below(root, path),
{
}

/// A file named as the reserved test module is found by no walk.
pub proof fn lemma_test_module_never_admitted(root: Seq<Seq<char>>, path: Seq<Seq<char>>)
    requires
        path.len() > 0,
        path.last() == "tests.rs"@,
    ensures
        !eligible(path),
        !admitted_below(root, path),
{
}

} // verus!
