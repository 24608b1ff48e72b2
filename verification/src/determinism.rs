//! Indexing does not depend on the order in which the files are found.

use vstd::prelude::*;
use vstd::multiset::Multiset;
use vstd::seq_lib::{group_to_multiset_ensures, lemma_multiset_commutative};
use crate::scan::{scanned_file, RecordView};
use crate::store::{contributes, indexed, listed_before, SourceFileView, WorkspaceView};

verus! {

/// Whether no two files of the list have the same path.
pub open spec fn distinct_paths(files: Seq<SourceFileView>) -> bool {
    forall|a: int, b: int|
        0 <= a < b < files.len() ==> (#[trigger] files[a]).path != (#[trigger] files[b]).path
}

/// The records that one file gives when nothing was indexed before it.
pub open spec fn contribution(ws: WorkspaceView, file: SourceFileView) -> Seq<RecordView> {
    if ws.admits(file.path) {
        scanned_file(file.path, file.lines)
    } else {
        Seq::empty()
    }
}

/// The records that the files give, each taken for itself, as a multiset.
pub open spec fn pooled(ws: WorkspaceView, files: Seq<SourceFileView>) -> Multiset<RecordView>
    decreases files.len(),
{
    if files.len() == 0 {
        Multiset::empty()
    } else {
        pooled(ws, files.drop_last()).add(contribution(ws, files.last()).to_multiset())
    }
}

/// Where no path occurs twice, the indexed records are the pooled ones.
proof fn lemma_indexed_is_pooled(ws: WorkspaceView, files: Seq<SourceFileView>, upto: int)
    requires
        distinct_paths(files),
        0 <= upto <= files.len(),
    ensures
        indexed(ws, files, upto).to_multiset() == pooled(ws, files.take(upto)),
    decreases upto,
{
    broadcast use group_to_multiset_ensures;

    if upto > 0 {
        lemma_indexed_is_pooled(ws, files, upto - 1);
        let head = files.take(upto);
        assert(head.drop_last() =~= files.take(upto - 1));
        assert(head.last() == files[upto - 1]);
        assert(!listed_before(files, upto - 1, files[upto - 1].path));
        let before = indexed(ws, files, upto - 1);
        let fresh = contribution(ws, files[upto - 1]);
        if contributes(ws, files, upto - 1) {
            lemma_multiset_commutative(before, fresh);
        } else {
            assert(fresh =~= Seq::empty());
            assert forall|r: RecordView| fresh.to_multiset().count(r) == 0 by {
                assert(!fresh.contains(r));
            }
            assert(fresh.to_multiset() =~= Multiset::empty());
            assert(before.to_multiset().add(fresh.to_multiset()) =~= before.to_multiset());
        }
    } else {
        let none = indexed(ws, files, upto);
        assert(none =~= Seq::empty());
        assert forall|r: RecordView| none.to_multiset().count(r) == 0 by {
            assert(!none.contains(r));
        }
        assert(files.take(upto) =~= Seq::empty());
        assert(none.to_multiset() =~= Multiset::empty());
    }
}

/// Taking one file out of a list takes its records out of the pool.
proof fn lemma_pooled_remove(ws: WorkspaceView, files: Seq<SourceFileView>, at: int)
    requires
        0 <= at < files.len(),
    ensures
        pooled(ws, files) == pooled(ws, files.remove(at)).add(
            contribution(ws, files[at]).to_multiset(),
        ),
    decreases files.len(),
{
    let fewer = files.remove(at);
    if at == files.len() - 1 {
        assert(fewer =~= files.drop_last());
    } else {
        lemma_pooled_remove(ws, files.drop_last(), at);
        assert(fewer.drop_last() =~= files.drop_last().remove(at));
        assert(fewer.last() == files.last());
        assert(files.drop_last()[at] == files[at]);
        assert(pooled(ws, files) =~= pooled(ws, fewer).add(
            contribution(ws, files[at]).to_multiset(),
        ));
    }
}

/// The pool does not depend on the order of the files.
proof fn lemma_pooled_any_order(ws: WorkspaceView, a: Seq<SourceFileView>, b: Seq<SourceFileView>)
    requires
        a.to_multiset() == b.to_multiset(),
    ensures
        pooled(ws, a) == pooled(ws, b),
    decreases a.len(),
{
    broadcast use group_to_multiset_ensures;

    vstd::seq_lib::to_multiset_len(a);
    vstd::seq_lib::to_multiset_len(b);
    if a.len() == 0 {
        assert(b.len() == 0);
    } else {
        let file = a.last();
        assert(a.contains(file));
        assert(b.to_multiset().count(file) > 0);
        assert(b.contains(file));
        let at = choose|at: int| 0 <= at < b.len() && b[at] == file;
        assert(a.remove(a.len() - 1) =~= a.drop_last());
        assert(a.drop_last().to_multiset() =~= b.remove(at).to_multiset());
        lemma_pooled_any_order(ws, a.drop_last(), b.remove(at));
        lemma_pooled_remove(ws, b, at);
    }
}

/// A list with the same files as one without repeated paths has no
/// repeated paths either.
proof fn lemma_distinct_paths_any_order(a: Seq<SourceFileView>, b: Seq<SourceFileView>)
    requires
        distinct_paths(a),
        a.to_multiset() == b.to_multiset(),
    ensures
        distinct_paths(b),
{
    broadcast use group_to_multiset_ensures;

    assert(a.no_duplicates()) by {
        assert forall|i: int, j: int| 0 <= i < a.len() && 0 <= j < a.len() && i != j implies a[i]
            != a[j] by {
            if i < j {
                assert(a[i].path != a[j].path);
            } else {
                assert(a[j].path != a[i].path);
            }
        }
    }
    a.lemma_multiset_has_no_duplicates();
    b.lemma_multiset_has_no_duplicates_conv();
    assert forall|i: int, j: int| 0 <= i < j < b.len() implies (#[trigger] b[i]).path != (
    #[trigger] b[j]).path by {
        assert(b[i] != b[j]);
        assert(b.contains(b[i]));
        assert(b.contains(b[j]));
        assert(b.to_multiset().count(b[i]) > 0);
        assert(b.to_multiset().count(b[j]) > 0);
        assert(a.to_multiset().count(b[i]) > 0);
        assert(a.to_multiset().count(b[j]) > 0);
        assert(a.contains(b[i]));
        assert(a.contains(b[j]));
        let p = choose|p: int| 0 <= p < a.len() && a[p] == b[i];
        let q = choose|q: int| 0 <= q < a.len() && a[q] == b[j];
        if p < q {
            assert(a[p].path != a[q].path);
        } else {
            assert(a[q].path != a[p].path);
        }
    }
}

/// Indexing the same files again, found in whatever order, gives the same
/// records with the same names, kinds, containers and locations, each as
/// often as before. The files are those of one workspace: no path occurs
/// twice among them.
pub proof fn lemma_reindexing_gives_same_records(
    ws: WorkspaceView,
    first: Seq<SourceFileView>,
    second: Seq<SourceFileView>,
)
    requires
        distinct_paths(first),
        first.to_multiset() == second.to_multiset(),
    ensures
        indexed(ws, first, first.len() as int).to_multiset() == indexed(
            ws,
            second,
            second.len() as int,
        ).to_multiset(),
{
    lemma_distinct_paths_any_order(first, second);
    lemma_indexed_is_pooled(ws, first, first.len() as int);
    lemma_indexed_is_pooled(ws, second, second.len() as int);
    assert(first.take(first.len() as int) =~= first);
    assert(second.take(second.len() as int) =~= second);
    lemma_pooled_any_order(ws, first, second);
}

} // verus!
