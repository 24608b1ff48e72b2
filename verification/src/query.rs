//! The queries on a store: the symbols of one file, completion, the records
//! of one name, and the ranked search over the whole workspace.

use rayon::iter::{IntoParallelRefIterator, ParallelIterator};
use vstd::prelude::*;
use vstd::relations::sorted_by;
use vstd::seq_lib::group_to_multiset_ensures;
use crate::path::SourcePath;
use crate::rank::{lemma_rank_order_total, rank_order, ranks_first, sort_ranked};
use crate::scan::{views, RecordView, SymbolRecord};
use crate::store::{in_file, is_listing, named, State};
use crate::text::{
    byte_len, byte_length, contains, contains_seq, lowercase_of, starts_with, to_chars,
    to_lowercase,
};

verus! {

/// What is added to the score of a record whose file lies outside the
/// workspace folder. No difference of two lengths reaches it.
pub const OUT_OF_ROOT_PENALTY: u128 = 18446744073709551616;

/// Whether a record answers a query, given the query in lower case too: its
/// name begins with the query, or holds it, or its name in lower case holds
/// the query in lower case.
pub open spec fn matches_with(record: RecordView, query: Seq<char>, query_lower: Seq<char>) -> bool {
    query.is_prefix_of(record.name) || contains_seq(record.name, query) || contains_seq(
        record.name_lower,
        query_lower,
    )
}

/// Whether a record answers a query.
pub open spec fn matches(record: RecordView, query: Seq<char>) -> bool {
    matches_with(record, query, lowercase_of(query))
}

/// A record that holds its own name in lower case answers a query exactly
/// where its name begins with the query or holds it, or its name in lower
/// case holds the query in lower case.
pub proof fn lemma_matches_by_name(record: RecordView, query: Seq<char>)
    requires
        record.name_lower == lowercase_of(record.name),
    ensures
        matches(record, query) <==> query.is_prefix_of(record.name) || contains_seq(
            record.name,
            query,
        ) || contains_seq(lowercase_of(record.name), lowercase_of(query)),
{
}

/// By how many bytes `name` is longer than `query`; zero where it is not
/// longer. No string in memory has more than `usize::MAX` bytes, and the
/// excess is capped there, so that every score stays below twice the
/// penalty.
pub open spec fn excess_length(name: Seq<char>, query: Seq<char>) -> nat {
    let excess = byte_len(name) - byte_len(query);
    if excess <= 0 {
        0
    } else if excess > usize::MAX {
        usize::MAX as nat
    } else {
        excess as nat
    }
}

/// Whether the file of `record` lies at or below the workspace folder.
pub open spec fn in_root(record: RecordView, root: Seq<Seq<char>>) -> bool {
    root.is_prefix_of(record.file)
}

/// The score of a record for a query; a smaller score ranks first. A record
/// outside the workspace folder carries the penalty, and every record the
/// number of bytes by which its name is longer than the query.
pub open spec fn score(record: RecordView, root: Seq<Seq<char>>, query: Seq<char>) -> nat {
    if in_root(record, root) {
        excess_length(record.name, query)
    } else {
        (OUT_OF_ROOT_PENALTY + excess_length(record.name, query)) as nat
    }
}

/// The records among the first `upto` that answer the query, each as its
/// score and its id, in the order of the ids.
pub open spec fn hits(
    records: Seq<RecordView>,
    root: Seq<Seq<char>>,
    query: Seq<char>,
    upto: int,
) -> Seq<(u128, usize)>
    decreases upto,
{
    if upto <= 0 {
        Seq::empty()
    } else if matches(records[upto - 1], query) {
        hits(records, root, query, upto - 1).push(
            (score(records[upto - 1], root, query) as u128, (upto - 1) as usize),
        )
    } else {
        hits(records, root, query, upto - 1)
    }
}

/// How many of the first `upto` records answer the query.
pub open spec fn count_matching(records: Seq<RecordView>, query: Seq<char>, upto: int) -> nat
    decreases upto,
{
    if upto <= 0 {
        0
    } else if matches(records[upto - 1], query) {
        count_matching(records, query, upto - 1) + 1
    } else {
        count_matching(records, query, upto - 1)
    }
}

/// The scored ids of the records that answer the query, in ranking order:
/// by ascending score, and among equal scores by ascending id.
pub open spec fn ranking(records: Seq<RecordView>, root: Seq<Seq<char>>, query: Seq<char>) -> Seq<
    (u128, usize),
> {
    hits(records, root, query, records.len() as int).sort_by(rank_order())
}

/// What a search returns: for the empty query every record, in the order of
/// the ids; for another query the records that answer it, in ranking order.
pub open spec fn search_results(
    records: Seq<RecordView>,
    root: Seq<Seq<char>>,
    query: Seq<char>,
) -> Seq<RecordView> {
    if query.len() == 0 {
        records
    } else {
        let ranked = ranking(records, root, query);
        Seq::new(ranked.len(), |k: int| records[ranked[k].1 as int])
    }
}

/// What the hits hold: the id of every record that answers the query, once
/// and in ascending order, with its score.
pub proof fn lemma_hits(records: Seq<RecordView>, root: Seq<Seq<char>>, query: Seq<char>, upto: int)
    requires
        0 <= upto <= records.len() <= usize::MAX,
    ensures
        hits(records, root, query, upto).len() == count_matching(records, query, upto),
        hits(records, root, query, upto).len() <= upto,
        forall|k: int|
            0 <= k < hits(records, root, query, upto).len() ==> {
                let hit = #[trigger] hits(records, root, query, upto)[k];
                &&& hit.1 < upto
                &&& matches(records[hit.1 as int], query)
                &&& hit.0 == score(records[hit.1 as int], root, query)
            },
        forall|k: int, m: int|
            0 <= k < m < hits(records, root, query, upto).len() ==> (#[trigger] hits(
                records,
                root,
                query,
                upto,
            )[k]).1 < (#[trigger] hits(records, root, query, upto)[m]).1,
        forall|i: int|
            0 <= i < upto && matches(#[trigger] records[i], query) ==> hits(
                records,
                root,
                query,
                upto,
            ).contains((score(records[i], root, query) as u128, i as usize)),
    decreases upto,
{
    if upto > 0 {
        lemma_hits(records, root, query, upto - 1);
        let before = hits(records, root, query, upto - 1);
        let now = hits(records, root, query, upto);
        assert forall|i: int| 0 <= i < upto && matches(#[trigger] records[i], query) implies now.contains(
            (score(records[i], root, query) as u128, i as usize),
        ) by {
            let hit = (score(records[i], root, query) as u128, i as usize);
            if i < upto - 1 {
                let k = choose|k: int| 0 <= k < before.len() && before[k] == hit;
                assert(now[k] == hit);
            } else {
                assert(now[before.len() as int] == hit);
            }
        }
    }
}

/// What the ranking holds: the hits, each once, in ranking order.
pub proof fn lemma_ranking(records: Seq<RecordView>, root: Seq<Seq<char>>, query: Seq<char>)
    requires
        records.len() <= usize::MAX,
    ensures
        ranking(records, root, query).len() == hits(
            records,
            root,
            query,
            records.len() as int,
        ).len(),
        ranking(records, root, query).no_duplicates(),
        sorted_by(ranking(records, root, query), rank_order()),
        forall|hit: (u128, usize)|
            ranking(records, root, query).contains(hit) <==> hits(
                records,
                root,
                query,
                records.len() as int,
            ).contains(hit),
{
    broadcast use group_to_multiset_ensures;

    let found = hits(records, root, query, records.len() as int);
    let ranked = ranking(records, root, query);
    lemma_rank_order_total();
    found.lemma_sort_by_ensures(rank_order());
    lemma_hits(records, root, query, records.len() as int);
    assert(found.no_duplicates()) by {
        assert forall|k: int, m: int| 0 <= k < found.len() && 0 <= m < found.len() && k != m implies found[k]
            != found[m] by {
            if k < m {
                assert(found[k].1 < found[m].1);
            } else {
                assert(found[m].1 < found[k].1);
            }
        }
    }
    found.lemma_multiset_has_no_duplicates();
    ranked.lemma_multiset_has_no_duplicates_conv();
    vstd::seq_lib::to_multiset_len(found);
    vstd::seq_lib::to_multiset_len(ranked);
    assert forall|hit: (u128, usize)| ranked.contains(hit) <==> found.contains(hit) by {
        assert(ranked.to_multiset().count(hit) == found.to_multiset().count(hit));
    }
}

/// Every result of a search is a record of the table that answers the
/// query, and every record of the table that answers the query is a result,
/// once.
pub proof fn lemma_search_exact(records: Seq<RecordView>, root: Seq<Seq<char>>, query: Seq<char>)
    requires
        records.len() <= usize::MAX,
        query.len() > 0,
    ensures
        forall|k: int|
            0 <= k < ranking(records, root, query).len() ==> {
                let hit = #[trigger] ranking(records, root, query)[k];
                &&& hit.1 < records.len()
                &&& matches(records[hit.1 as int], query)
                &&& hit.0 == score(records[hit.1 as int], root, query)
                &&& search_results(records, root, query)[k] == records[hit.1 as int]
            },
        forall|i: int|
            0 <= i < records.len() && matches(#[trigger] records[i], query) ==> exists|k: int|
                0 <= k < ranking(records, root, query).len() && (#[trigger] ranking(
                    records,
                    root,
                    query,
                )[k]).1 == i,
        forall|k: int, m: int|
            0 <= k < m < ranking(records, root, query).len() ==> (#[trigger] ranking(
                records,
                root,
                query,
            )[k]).1 != (#[trigger] ranking(records, root, query)[m]).1,
        search_results(records, root, query).len() == ranking(records, root, query).len(),
{
    let found = hits(records, root, query, records.len() as int);
    let ranked = ranking(records, root, query);
    lemma_ranking(records, root, query);
    lemma_hits(records, root, query, records.len() as int);
    assert forall|k: int| 0 <= k < ranked.len() implies {
        let hit = #[trigger] ranked[k];
        &&& hit.1 < records.len()
        &&& matches(records[hit.1 as int], query)
        &&& hit.0 == score(records[hit.1 as int], root, query)
        &&& search_results(records, root, query)[k] == records[hit.1 as int]
    } by {
        assert(ranked.contains(ranked[k]));
        let m = choose|m: int| 0 <= m < found.len() && found[m] == ranked[k];
        assert(found[m].1 < records.len());
    }
    assert forall|i: int| 0 <= i < records.len() && matches(#[trigger] records[i], query) implies exists|
        k: int,
    | 0 <= k < ranked.len() && (#[trigger] ranked[k]).1 == i by {
        let hit = (score(records[i], root, query) as u128, i as usize);
        assert(found.contains(hit));
        assert(ranked.contains(hit));
        let k = choose|k: int| 0 <= k < ranked.len() && ranked[k] == hit;
        assert(ranked[k].1 == i);
    }
    assert forall|k: int, m: int| 0 <= k < m < ranked.len() implies (#[trigger] ranked[k]).1 != (
    #[trigger] ranked[m]).1 by {
        assert(ranked[k] != ranked[m]);
        assert(ranked.contains(ranked[k]));
        assert(ranked.contains(ranked[m]));
        let a = choose|a: int| 0 <= a < found.len() && found[a] == ranked[k];
        let b = choose|b: int| 0 <= b < found.len() && found[b] == ranked[m];
        assert(found[a].0 == score(records[found[a].1 as int], root, query));
        assert(found[b].0 == score(records[found[b].1 as int], root, query));
    }
}

/// Every query matches what the empty query matches: every record.
pub proof fn lemma_empty_query_matches(records: Seq<RecordView>, upto: int)
    requires
        0 <= upto <= records.len(),
    ensures
        forall|i: int| 0 <= i < records.len() ==> matches(#[trigger] records[i], Seq::empty()),
        count_matching(records, Seq::empty(), upto) == upto,
    decreases upto,
{
    assert forall|i: int| 0 <= i < records.len() implies matches(
        #[trigger] records[i],
        Seq::empty(),
    ) by {
        let none = Seq::<char>::empty();
        assert(none =~= records[i].name.subrange(0, 0));
    }
    if upto > 0 {
        lemma_empty_query_matches(records, upto - 1);
    }
}

/// A search returns the records that answer the query and no others: every
/// result is a record of the table that answers the query, every record of
/// the table that answers the query is a result, and there are as many
/// results as records that answer the query.
pub proof fn lemma_search_sound_and_complete(
    records: Seq<RecordView>,
    root: Seq<Seq<char>>,
    query: Seq<char>,
)
    requires
        records.len() <= usize::MAX,
    ensures
        forall|k: int|
            0 <= k < search_results(records, root, query).len() ==> matches(
                #[trigger] search_results(records, root, query)[k],
                query,
            ) && records.contains(search_results(records, root, query)[k]),
        forall|i: int|
            0 <= i < records.len() && matches(#[trigger] records[i], query) ==> search_results(
                records,
                root,
                query,
            ).contains(records[i]),
        search_results(records, root, query).len() == count_matching(
            records,
            query,
            records.len() as int,
        ),
{
    let results = search_results(records, root, query);
    if query.len() == 0 {
        assert(query =~= Seq::empty());
        lemma_empty_query_matches(records, records.len() as int);
    } else {
        let ranked = ranking(records, root, query);
        lemma_search_exact(records, root, query);
        lemma_ranking(records, root, query);
        lemma_hits(records, root, query, records.len() as int);
        assert forall|k: int| 0 <= k < results.len() implies matches(#[trigger] results[k], query)
            && records.contains(results[k]) by {
            assert(results[k] == records[ranked[k].1 as int]);
        }
        assert forall|i: int| 0 <= i < records.len() && matches(#[trigger] records[i], query) implies results.contains(
            records[i],
        ) by {
            let k = choose|k: int| 0 <= k < ranked.len() && (#[trigger] ranked[k]).1 == i;
            assert(results[k] == records[i]);
        }
    }
}

/// Results come in ascending order of score, and results of equal score in
/// the order of their ids, which is the order in which they were scanned.
pub proof fn lemma_results_ranked(
    records: Seq<RecordView>,
    root: Seq<Seq<char>>,
    query: Seq<char>,
    earlier: int,
    later: int,
)
    requires
        records.len() <= usize::MAX,
        query.len() > 0,
        0 <= earlier < later < search_results(records, root, query).len(),
    ensures
        score(search_results(records, root, query)[earlier], root, query) <= score(
            search_results(records, root, query)[later],
            root,
            query,
        ),
        score(search_results(records, root, query)[earlier], root, query) == score(
            search_results(records, root, query)[later],
            root,
            query,
        ) ==> ranking(records, root, query)[earlier].1 < ranking(records, root, query)[later].1,
{
    let ranked = ranking(records, root, query);
    lemma_ranking(records, root, query);
    lemma_search_exact(records, root, query);
    assert(rank_order()(ranked[earlier], ranked[later]));
    assert(ranks_first(ranked[earlier], ranked[later]));
    assert(ranked[earlier].1 != ranked[later].1);
    let a = ranked[earlier];
    let b = ranked[later];
    assert(a.0 == score(records[a.1 as int], root, query));
    assert(b.0 == score(records[b.1 as int], root, query));
}

/// A result in the workspace folder comes before every result outside it.
pub proof fn lemma_in_root_ranks_first(
    records: Seq<RecordView>,
    root: Seq<Seq<char>>,
    query: Seq<char>,
    inside: int,
    outside: int,
)
    requires
        records.len() <= usize::MAX,
        query.len() > 0,
        0 <= inside < search_results(records, root, query).len(),
        0 <= outside < search_results(records, root, query).len(),
        in_root(search_results(records, root, query)[inside], root),
        !in_root(search_results(records, root, query)[outside], root),
    ensures
        inside < outside,
        score(search_results(records, root, query)[inside], root, query) < score(
            search_results(records, root, query)[outside],
            root,
            query,
        ),
{
    if outside < inside {
        lemma_results_ranked(records, root, query, outside, inside);
    }
}

/// Of two results in the workspace folder, the one whose name is closer in
/// length to the query comes first, where the other's name is not shorter
/// than the query.
pub proof fn lemma_closer_length_ranks_first(
    records: Seq<RecordView>,
    root: Seq<Seq<char>>,
    query: Seq<char>,
    closer: int,
    farther: int,
)
    requires
        records.len() <= usize::MAX,
        query.len() > 0,
        0 <= closer < search_results(records, root, query).len(),
        0 <= farther < search_results(records, root, query).len(),
        in_root(search_results(records, root, query)[closer], root),
        in_root(search_results(records, root, query)[farther], root),
        byte_len(query) <= byte_len(search_results(records, root, query)[farther].name) <= usize::MAX,
        vstd::math::abs(
            byte_len(search_results(records, root, query)[closer].name) - byte_len(query),
        ) < vstd::math::abs(
            byte_len(search_results(records, root, query)[farther].name) - byte_len(query),
        ),
    ensures
        closer < farther,
{
    if farther < closer {
        lemma_results_ranked(records, root, query, farther, closer);
    }
}

/// Whether a record answers a query, given the characters of the query and
/// of the query in lower case.
pub fn record_matches(record: &SymbolRecord, query: &Vec<char>, query_lower: &Vec<char>) -> (hit: bool)
    ensures
        hit == matches_with(record@, query@, query_lower@),
{
    let name = to_chars(record.name.as_str());
    if starts_with(&name, query) || contains(&name, query) {
        return true;
    }
    let name_lower = to_chars(record.name_lower.as_str());
    contains(&name_lower, query_lower)
}

/// Judges every record against the query on rayon's worker pool, with
/// `IntoParallelRefIterator::par_iter` on the table, `ParallelIterator::map`
/// with the verified `record_matches`, and `ParallelIterator::collect` into
/// a vector. A slice is an indexed source of known length, and for such a
/// source rayon's `collect` writes the result of each item at the item's
/// own position. Trusted here is that the flags come back one to a record,
/// in the order of the records, each being what `record_matches` returns
/// for its record.
#[verifier::external_body]
fn match_flags(records: &Vec<SymbolRecord>, query: &Vec<char>, query_lower: &Vec<char>) -> (flags: Vec<bool>)
    ensures
        flags@.len() == records@.len(),
        forall|i: int|
            0 <= i < records@.len() ==> #[trigger] flags@[i] == matches_with(
                records@[i]@,
                query@,
                query_lower@,
            ),
{
    records.par_iter().map(|record| record_matches(record, query, query_lower)).collect()
}

/// The score of a record for a query.
pub fn score_of(record: &SymbolRecord, root: &SourcePath, query: &str) -> (points: u128)
    ensures
        points == score(record@, root@, query@),
{
    let name_bytes = byte_length(record.name.as_str());
    let query_bytes = byte_length(query);
    let excess: usize = if name_bytes > query_bytes {
        name_bytes - query_bytes
    } else {
        0
    };
    if record.location.file.starts_with(root) {
        excess as u128
    } else {
        OUT_OF_ROOT_PENALTY + excess as u128
    }
}

/// A listing, read as records, is the table filtered by what was chosen.
pub proof fn lemma_listing_filter(
    ids: Seq<usize>,
    records: Seq<RecordView>,
    chosen: spec_fn(RecordView) -> bool,
)
    requires
        is_listing(ids, records, chosen),
    ensures
        Seq::new(ids.len(), |k: int| records[ids[k] as int]) == records.filter(chosen),
    decreases records.len(),
{
    reveal(Seq::filter);
    let listed = Seq::new(ids.len(), |k: int| records[ids[k] as int]);
    if records.len() == 0 {
        if ids.len() > 0 {
            assert(ids[0] < records.len());
        }
        assert(listed =~= records.filter(chosen));
    } else {
        let rest = records.drop_last();
        let last = records.len() - 1;
        if chosen(records.last()) {
            let k = choose|k: int| 0 <= k < ids.len() && #[trigger] ids[k] == last;
            if k < ids.len() - 1 {
                assert(ids[k] < ids[ids.len() - 1]);
            }
            let fewer = ids.drop_last();
            assert forall|i: int| 0 <= i < rest.len() && chosen(#[trigger] rest[i]) implies exists|
                m: int,
            | 0 <= m < fewer.len() && #[trigger] fewer[m] == i by {
                assert(chosen(records[i]));
                let m = choose|m: int| 0 <= m < ids.len() && #[trigger] ids[m] == i;
                assert(fewer[m] == i);
            }
            assert forall|m: int| 0 <= m < fewer.len() implies (#[trigger] fewer[m]) < rest.len()
                && chosen(rest[fewer[m] as int]) by {
                assert(ids[m] < ids[ids.len() - 1]);
                assert(chosen(records[ids[m] as int]));
            }
            assert(is_listing(fewer, rest, chosen));
            lemma_listing_filter(fewer, rest, chosen);
            let shorter = Seq::new(fewer.len(), |k: int| rest[fewer[k] as int]);
            assert(listed =~= shorter.push(records.last()));
        } else {
            assert forall|m: int| 0 <= m < ids.len() implies (#[trigger] ids[m]) < rest.len()
                && chosen(rest[ids[m] as int]) by {
                assert(chosen(records[ids[m] as int]));
            }
            assert forall|i: int| 0 <= i < rest.len() && chosen(#[trigger] rest[i]) implies exists|
                m: int,
            | 0 <= m < ids.len() && #[trigger] ids[m] == i by {
                assert(chosen(records[i]));
            }
            assert(is_listing(ids, rest, chosen));
            lemma_listing_filter(ids, rest, chosen);
            let shorter = Seq::new(ids.len(), |k: int| rest[ids[k] as int]);
            assert(listed =~= shorter);
        }
    }
}

impl State {
    /// The records declared in the file `path`, in the order of their ids.
    pub open spec fn file_records(&self, path: Seq<Seq<char>>) -> Seq<RecordView> {
        self.records().filter(in_file(path))
    }

    /// The records with the name `name`, in the order of their ids.
    pub open spec fn records_named(&self, name: Seq<char>) -> Seq<RecordView> {
        self.records().filter(named(name))
    }

    /// What a search for `query` returns.
    pub open spec fn results(&self, query: Seq<char>) -> Seq<RecordView> {
        search_results(self.records(), self.init@.root, query)
    }

    /// Copies of the records with the given ids, in the order of the ids
    /// given.
    fn records_at(&self, ids: &Vec<usize>) -> (found: Vec<SymbolRecord>)
        requires
            forall|k: int| 0 <= k < ids@.len() ==> (#[trigger] ids@[k]) < self.symbols@.len(),
        ensures
            views(found@) == Seq::new(ids@.len(), |k: int| self.records()[ids@[k] as int]),
    {
        let mut found: Vec<SymbolRecord> = Vec::new();
        let mut k: usize = 0;
        while k < ids.len()
            invariant
                k <= ids.len(),
                forall|m: int| 0 <= m < ids@.len() ==> (#[trigger] ids@[m]) < self.symbols@.len(),
                views(found@) == Seq::new(k as nat, |m: int| self.records()[ids@[m] as int]),
            decreases ids.len() - k,
        {
            let ghost before = views(found@);
            let copy = self.symbols[ids[k]].clone();
            found.push(copy);
            assert(views(found@) =~= before.push(copy@));
            assert(views(found@) =~= Seq::new(
                (k + 1) as nat,
                |m: int| self.records()[ids@[m] as int],
            ));
            k += 1;
        }
        found
    }

    /// The symbols declared in one file, in ascending order of line. A file
    /// that was never indexed gives `None`; an indexed file without symbols
    /// gives an empty list.
    pub fn symbols_in_file(&self, path: &SourcePath) -> (found: Option<Vec<SymbolRecord>>)
        requires
            self.files_wf(),
        ensures
            found is Some <==> self.has_file(path@),
            found is Some ==> views(found->0@) == self.file_records(path@),
            found is Some ==> forall|a: int, b: int|
                0 <= a < b < found->0@.len() ==> (#[trigger] found->0@[a]).location.line < (
                #[trigger] found->0@[b]).location.line,
    {
        match self.find_file(path) {
            Some(e) => {
                let ids = &self.symbol_lookup[e].ids;
                assert(is_listing(ids@, self.records(), in_file(path@)));
                let found = self.records_at(ids);
                proof {
                    lemma_listing_filter(ids@, self.records(), in_file(path@));
                    assert forall|a: int, b: int| 0 <= a < b < found@.len() implies (
                    #[trigger] found@[a]).location.line < (#[trigger] found@[b]).location.line by {
                        assert(views(found@)[a] == self.records()[ids@[a] as int]);
                        assert(views(found@)[b] == self.records()[ids@[b] as int]);
                        assert(ids@[a] < ids@[b]);
                        assert(in_file(path@)(self.records()[ids@[a] as int]));
                        assert(in_file(path@)(self.records()[ids@[b] as int]));
                    }
                }
                Some(found)
            },
            None => None,
        }
    }

    /// The completion labels for one file: the name of every symbol declared
    /// in it, wherever the cursor stands. A file that was never indexed
    /// gives `None`.
    pub fn completion(&self, path: &SourcePath) -> (labels: Option<Vec<String>>)
        requires
            self.files_wf(),
        ensures
            labels is Some <==> self.has_file(path@),
            labels is Some ==> labels->0@.len() == self.file_records(path@).len(),
            labels is Some ==> forall|k: int|
                0 <= k < labels->0@.len() ==> (#[trigger] labels->0@[k])@ == self.file_records(
                    path@,
                )[k].name,
    {
        match self.find_file(path) {
            Some(e) => {
                let ids = &self.symbol_lookup[e].ids;
                assert(is_listing(ids@, self.records(), in_file(path@)));
                proof {
                    lemma_listing_filter(ids@, self.records(), in_file(path@));
                }
                let ghost listed = Seq::new(ids@.len(), |k: int| self.records()[ids@[k] as int]);
                let mut labels: Vec<String> = Vec::new();
                let mut k: usize = 0;
                while k < ids.len()
                    invariant
                        k <= ids.len(),
                        labels@.len() == k,
                        is_listing(ids@, self.records(), in_file(path@)),
                        listed == Seq::new(ids@.len(), |k: int| self.records()[ids@[k] as int]),
                        forall|m: int| 0 <= m < k ==> (#[trigger] labels@[m])@ == listed[m].name,
                    decreases ids.len() - k,
                {
                    assert(ids@[k as int] < self.records().len());
                    labels.push(self.symbols[ids[k]].name.clone());
                    k += 1;
                }
                Some(labels)
            },
            None => None,
        }
    }

    /// The records with the given name, in the order of their ids, which is
    /// the order in which they were found.
    pub fn symbols_named(&self, name: &str) -> (found: Vec<SymbolRecord>)
        requires
            self.wf(),
        ensures
            views(found@) == self.records_named(name@),
    {
        match self.reverse.get(name) {
            Some(ids) => {
                assert(is_listing(ids@, self.records(), named(name@)));
                proof {
                    lemma_listing_filter(ids@, self.records(), named(name@));
                }
                self.records_at(ids)
            },
            None => {
                proof {
                    let none = Seq::<usize>::empty();
                    assert forall|i: int| 0 <= i < self.records().len() implies !named(name@)(
                        #[trigger] self.records()[i],
                    ) by {
                        assert(self.reverse@.contains_key(self.records()[i].name));
                    }
                    assert(is_listing(none, self.records(), named(name@)));
                    lemma_listing_filter(none, self.records(), named(name@));
                }
                let found: Vec<SymbolRecord> = Vec::new();
                assert(views(found@) =~= self.records_named(name@));
                found
            },
        }
    }

    /// Searches the whole workspace. The empty query returns every record,
    /// in the order of the ids. Another query returns the records whose name
    /// begins with it or holds it, or holds it when both are put in lower
    /// case; they come by ascending score, and among equal scores in the
    /// order in which they were scanned.
    pub fn workspace_search(&self, query: &str) -> (found: Vec<SymbolRecord>)
        ensures
            views(found@) == self.results(query@),
            query@.len() == 0 ==> views(found@) == self.records(),
    {
        let ghost records = self.records();
        let ghost root = self.init@.root;
        let n = self.symbols.len();
        if query.is_empty() {
            let all = crate::store::id_range(0, n);
            let found = self.records_at(&all);
            assert(views(found@) =~= records);
            return found;
        }
        let chars = to_chars(query);
        let lower = to_lowercase(query);
        let lower_chars = to_chars(lower.as_str());
        let flags = match_flags(&self.symbols, &chars, &lower_chars);
        let mut scored: Vec<(u128, usize)> = Vec::new();
        let mut i: usize = 0;
        while i < n
            invariant
                i <= n,
                n == self.symbols@.len(),
                records == self.records(),
                root == self.init@.root,
                flags@.len() == n,
                forall|k: int|
                    0 <= k < n ==> #[trigger] flags@[k] == matches(records[k], query@),
                scored@ == hits(records, root, query@, i as int),
            decreases n - i,
        {
            if flags[i] {
                let points = score_of(&self.symbols[i], &self.init.root, query);
                scored.push((points, i));
            }
            i += 1;
        }
        let ranked = sort_ranked(&scored);
        let mut ids: Vec<usize> = Vec::new();
        proof {
            lemma_search_exact(records, root, query@);
        }
        let mut k: usize = 0;
        while k < ranked.len()
            invariant
                k <= ranked.len(),
                ids@.len() == k,
                forall|m: int| 0 <= m < k ==> #[trigger] ids@[m] == ranked@[m].1,
            decreases ranked.len() - k,
        {
            ids.push(ranked[k].1);
            k += 1;
        }
        let found = self.records_at(&ids);
        assert(views(found@) =~= self.results(query@));
        found
    }
}

} // verus!
