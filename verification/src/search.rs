//! Answering a query: which search runs, exact ranking of every record, and
//! graph search with its node records resolved to positions in the index.
use vstd::prelude::*;
use crate::cli::{opt_view, Cli};
use crate::hnsw::search_spec;
use crate::index::{from_persisted, PersistedHnswIndex};
use crate::ranking::{rank_top_k, top_positions};
use crate::scoring::{is_scorer, query_fn};
use std::collections::HashMap;

verus! {

broadcast use vstd::std_specs::hash::group_hash_axioms;

/// Why a query could not be answered.
#[derive(Debug, Clone, Copy, PartialEq, Eq)]
pub enum SearchError {
    /// No query was given.
    MissingQuery,
    /// The index holds no function.
    EmptyIndex,
    /// The stored graph cannot be searched: its links or entry point are
    /// broken, or it has no node.
    CorruptGraph,
}

impl SearchError {
    /// The message shown for the error.
    pub fn message(&self) -> (r: &'static str)
        ensures
            self matches SearchError::MissingQuery ==> r@ == "Please enter a query."@,
            self matches SearchError::EmptyIndex ==> r@ == "The index is empty, run `sift ingest <path>` first."@,
            self matches SearchError::CorruptGraph ==> r@ == "The stored graph is not a valid index, run `sift ingest <path>` again."@,
    {
        match self {
            SearchError::MissingQuery => "Please enter a query.",
            SearchError::EmptyIndex => "The index is empty, run `sift ingest <path>` first.",
            SearchError::CorruptGraph => "The stored graph is not a valid index, run `sift ingest <path>` again.",
        }
    }
}

/// A query to answer: its text, how many results to show, and whether to
/// rank every record exactly instead of searching the graph.
#[derive(Debug)]
pub struct SearchRequest {
    pub keywords: String,
    pub top_k: usize,
    pub exact: bool,
}

/// The query of a command line, which must be given.
pub fn requested_keywords(args: &Cli) -> (r: Result<String, SearchError>)
    ensures
        match args.keywords {
            Some(k) => r matches Ok(s) && s@ == k@,
            None => r == Err::<String, SearchError>(SearchError::MissingQuery),
        },
{
    match &args.keywords {
        Some(k) => Ok(k.clone()),
        None => Err(SearchError::MissingQuery),
    }
}

/// The search a command line asks for, given the number of functions in
/// the loaded index: the query must be given and the index must not be
/// empty, in that order; `--top` and `--exact` carry over.
pub fn query_search(args: &Cli, index_len: usize) -> (r: Result<SearchRequest, SearchError>)
    ensures
        args.keywords is None ==> r == Err::<SearchRequest, SearchError>(SearchError::MissingQuery),
        args.keywords is Some && index_len == 0 ==> r == Err::<SearchRequest, SearchError>(SearchError::EmptyIndex),
        args.keywords is Some && index_len > 0 ==> (r matches Ok(q) && opt_view(args.keywords) == Some(q.keywords@)
            && q.top_k == args.top && q.exact == args.exact),
{
    let keywords = match requested_keywords(args) {
        Ok(k) => k,
        Err(e) => {
            return Err(e);
        },
    };
    if index_len == 0 {
        return Err(SearchError::EmptyIndex);
    }
    Ok(SearchRequest { keywords, top_k: args.top, exact: args.exact })
}

/// Exact search: the positions of the `top_k` records with the highest
/// scores, highest first, equal scores in the order of the records.
pub fn search_using_brute_force(scores: &Vec<i32>, top_k: usize) -> (r: Vec<usize>)
    ensures
        r@ == top_positions(scores@, top_k as nat),
{
    rank_top_k(scores, top_k)
}

/// The last position that holds record `rid`, if any.
pub open spec fn last_position(ids: Seq<usize>, rid: usize) -> Option<int>
    decreases ids.len(),
{
    if ids.len() == 0 {
        None
    } else if ids.last() == rid {
        Some(ids.len() - 1)
    } else {
        last_position(ids.drop_last(), rid)
    }
}

/// The positions of the records found, in order; a record that no position
/// holds is left out, and a record that several hold resolves to the last.
pub open spec fn resolve(ids: Seq<usize>, found: Seq<usize>) -> Seq<usize>
    decreases found.len(),
{
    if found.len() == 0 {
        Seq::empty()
    } else {
        let prev = resolve(ids, found.drop_last());
        match last_position(ids, found.last()) {
            Some(p) => prev.push(p as usize),
            None => prev,
        }
    }
}

/// A position found is a position of the index.
proof fn lemma_last_position_range(ids: Seq<usize>, rid: usize)
    ensures
        last_position(ids, rid) matches Some(p) ==> 0 <= p < ids.len() && ids[p] == rid,
    decreases ids.len(),
{
    if ids.len() > 0 && ids.last() != rid {
        lemma_last_position_range(ids.drop_last(), rid);
    }
}

/// The positions of the records found, as `resolve` says.
pub fn record_positions(ids: &Vec<usize>, found: &Vec<usize>) -> (r: Vec<usize>)
    ensures
        r@ == resolve(ids@, found@),
{
    let mut by_record: HashMap<usize, usize> = HashMap::new();
    let mut i: usize = 0;
    while i < ids.len()
        invariant
            i <= ids.len(),
            forall|rid: usize| #[trigger] by_record@.contains_key(rid) <==> last_position(ids@.take(i as int), rid) is Some,
            forall|rid: usize| by_record@.contains_key(rid) ==> last_position(ids@.take(i as int), rid) == Some(
                by_record@[rid] as int,
            ),
        decreases ids.len() - i,
    {
        let rid = ids[i];
        by_record.insert(rid, i);
        assert(ids@.take(i + 1).drop_last() =~= ids@.take(i as int));
        i += 1;
    }
    assert(ids@.take(ids.len() as int) =~= ids@);
    let mut r: Vec<usize> = Vec::new();
    let mut k: usize = 0;
    while k < found.len()
        invariant
            k <= found.len(),
            forall|rid: usize| #[trigger] by_record@.contains_key(rid) <==> last_position(ids@, rid) is Some,
            forall|rid: usize| by_record@.contains_key(rid) ==> last_position(ids@, rid) == Some(by_record@[rid] as int),
            r@ == resolve(ids@, found@.take(k as int)),
        decreases found.len() - k,
    {
        let rid = found[k];
        assert(found@.take(k + 1).drop_last() =~= found@.take(k as int));
        match by_record.get(&rid) {
            Some(p) => {
                r.push(*p);
            },
            None => {},
        }
        k += 1;
    }
    assert(found@.take(found.len() as int) =~= found@);
    r
}

/// Graph search: rebuilds the stored graph, searches it with the query's
/// scores of node ids, and resolves the records found to positions in the
/// index. Refused when the stored graph cannot be searched or is empty.
pub fn search_using_hnsw<F: Fn(usize) -> i32>(
    persisted: PersistedHnswIndex,
    ids: &Vec<usize>,
    score: F,
    top_k: usize,
) -> (r: Result<Vec<usize>, SearchError>)
    requires
        is_scorer(score, persisted.nodes.len() as nat),
    ensures
        r is Ok <==> persisted@.searchable() && persisted.nodes.len() > 0,
        r matches Ok(v) ==> v@ == resolve(ids@, search_spec(persisted@, query_fn(score), persisted.ef, top_k)),
{
    let ghost g = persisted@;
    let n = persisted.nodes.len();
    let ef = persisted.ef;
    let index = match from_persisted(persisted) {
        Some(index) => index,
        None => {
            return Err(SearchError::CorruptGraph);
        },
    };
    if n == 0 {
        return Err(SearchError::CorruptGraph);
    }
    assert(index.nodes.len() == n);
    let found = index.search(score, top_k);
    Ok(record_positions(ids, &found))
}

/// Every position a search resolves to holds one of the records found, in
/// the order found, and there are no more positions than records found.
pub proof fn law_resolved_positions_hold_found_records(ids: Seq<usize>, found: Seq<usize>)
    requires
        ids.len() <= usize::MAX,
    ensures
        resolve(ids, found).len() <= found.len(),
        forall|k: int| 0 <= k < resolve(ids, found).len() ==> #[trigger] resolve(ids, found)[k] < ids.len()
            && found.contains(ids[resolve(ids, found)[k] as int]),
    decreases found.len(),
{
    if found.len() > 0 {
        let prev = found.drop_last();
        law_resolved_positions_hold_found_records(ids, prev);
        lemma_last_position_range(ids, found.last());
        let r = resolve(ids, found);
        let pr = resolve(ids, prev);
        assert forall|k: int| 0 <= k < r.len() implies #[trigger] r[k] < ids.len() && found.contains(ids[r[k] as int]) by {
            if k < pr.len() {
                assert(r[k] == pr[k]);
                let t = choose|t: int| 0 <= t < prev.len() && prev[t] == ids[pr[k] as int];
                assert(found[t] == prev[t]);
            } else {
                let p = last_position(ids, found.last()).unwrap();
                assert(r == pr.push(p as usize));
                assert(r[k] == p as usize);
                assert(found[found.len() - 1] == ids[p]);
            }
        }
    }
}

} // verus!
