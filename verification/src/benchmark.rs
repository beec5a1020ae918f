//! Benchmarking and evaluation: the checks on their arguments and inputs,
//! the queries of a query file, the graded relevance of a result, the ideal
//! grades that a ranking is measured against, and the overlap of two result
//! lists. The scores themselves (gains, discounts, ratios, medians) are
//! floating point and are computed by the program around the library.
use vstd::prelude::*;
use crate::language_specs::portable_path;
use crate::text::{lines, spec_lines, spec_trim, text_eq, trim};
use std::collections::HashSet;

verus! {

broadcast use {vstd::std_specs::hash::group_hash_axioms, vstd::seq_lib::group_seq_properties, vstd::set::group_set_axioms};

/// A function that a judged query should retrieve, graded from 1 (marginally
/// relevant) to 3 (highly relevant).
#[derive(Debug)]
pub struct RelevantFunction {
    pub path: String,
    pub header: String,
    pub relevance: u8,
}

/// A query and the functions it should retrieve.
#[derive(Debug)]
pub struct JudgedQuery {
    pub query: String,
    pub relevant: Vec<RelevantFunction>,
}

/// A relevant function as text: path, header and grade.
pub type RelevantModel = (Seq<char>, Seq<char>, u8);

/// A judged query as text.
pub struct JudgedModel {
    pub query: Seq<char>,
    pub relevant: Seq<RelevantModel>,
}

impl View for RelevantFunction {
    type V = RelevantModel;

    open spec fn view(&self) -> RelevantModel {
        (self.path@, self.header@, self.relevance)
    }
}

/// The texts of a list of relevant functions.
pub open spec fn relevant_view(v: Seq<RelevantFunction>) -> Seq<RelevantModel> {
    v.map_values(|f: RelevantFunction| f@)
}

impl View for JudgedQuery {
    type V = JudgedModel;

    open spec fn view(&self) -> JudgedModel {
        JudgedModel { query: self.query@, relevant: relevant_view(self.relevant@) }
    }
}

/// The texts of a list of judged queries.
pub open spec fn judged_view(v: Seq<JudgedQuery>) -> Seq<JudgedModel> {
    v.map_values(|j: JudgedQuery| j@)
}

/// Why a set of judgements was refused.
#[derive(Debug, Clone, Copy, PartialEq, Eq)]
pub enum JudgementError {
    /// There is no judged query.
    NoQueries,
    /// A query is empty once trimmed.
    EmptyQuery,
    /// A query lists no relevant function.
    NoRelevantFunctions,
    /// A grade is not between 1 and 3.
    RelevanceOutOfRange,
}

impl JudgementError {
    /// The message shown for the error.
    pub fn message(&self) -> (r: &'static str)
        ensures
            self matches JudgementError::NoQueries ==> r@ == "judgements contains no queries"@,
            self matches JudgementError::EmptyQuery ==> r@ == "judgement query is empty"@,
            self matches JudgementError::NoRelevantFunctions ==> r@ == "relevant functions for judgement is empty"@,
            self matches JudgementError::RelevanceOutOfRange ==> r@ == "function relevance in this judgement is not between 1 and 3 (inclusive)"@,
    {
        match self {
            JudgementError::NoQueries => "judgements contains no queries",
            JudgementError::EmptyQuery => "judgement query is empty",
            JudgementError::NoRelevantFunctions => "relevant functions for judgement is empty",
            JudgementError::RelevanceOutOfRange => "function relevance in this judgement is not between 1 and 3 (inclusive)",
        }
    }
}

/// A grade from 1 to 3.
pub open spec fn relevance_valid(r: u8) -> bool {
    1 <= r <= 3
}

/// What is wrong with one judged query, checked in this order: an empty
/// query, no relevant function, a grade out of range.
pub open spec fn judgement_error(j: JudgedModel) -> Option<JudgementError> {
    if spec_trim(j.query).len() == 0 {
        Some(JudgementError::EmptyQuery)
    } else if j.relevant.len() == 0 {
        Some(JudgementError::NoRelevantFunctions)
    } else if !(forall|i: int| 0 <= i < j.relevant.len() ==> relevance_valid(#[trigger] j.relevant[i].2)) {
        Some(JudgementError::RelevanceOutOfRange)
    } else {
        None
    }
}

/// The error of the first judged query that has one.
pub open spec fn first_judgement_error(js: Seq<JudgedModel>) -> Option<JudgementError>
    decreases js.len(),
{
    if js.len() == 0 {
        None
    } else {
        match first_judgement_error(js.drop_last()) {
            Some(e) => Some(e),
            None => judgement_error(js.last()),
        }
    }
}

/// What is wrong with a set of judgements: none at all, or the first
/// judged query's error.
pub open spec fn judgements_error(js: Seq<JudgedModel>) -> Option<JudgementError> {
    if js.len() == 0 {
        Some(JudgementError::NoQueries)
    } else {
        first_judgement_error(js)
    }
}

/// Whether every grade of a list is between 1 and 3.
fn relevances_valid(relevant: &Vec<RelevantFunction>) -> (r: bool)
    ensures
        r == forall|i: int| 0 <= i < relevant@.len() ==> relevance_valid(#[trigger] relevant_view(relevant@)[i].2),
{
    let mut k: usize = 0;
    while k < relevant.len()
        invariant
            k <= relevant.len(),
            forall|i: int| 0 <= i < k ==> relevance_valid(#[trigger] relevant_view(relevant@)[i].2),
        decreases relevant.len() - k,
    {
        let g = relevant[k].relevance;
        assert(relevant_view(relevant@)[k as int].2 == g);
        if g < 1 || g > 3 {
            return false;
        }
        k += 1;
    }
    true
}

/// The error of one judged query, as `judgement_error` says.
fn check_judgement(j: &JudgedQuery) -> (r: Option<JudgementError>)
    ensures
        r == judgement_error(j@),
{
    let trimmed = trim(j.query.as_str());
    if trimmed.as_str().is_empty() {
        return Some(JudgementError::EmptyQuery);
    }
    if j.relevant.len() == 0 {
        return Some(JudgementError::NoRelevantFunctions);
    }
    if !relevances_valid(&j.relevant) {
        return Some(JudgementError::RelevanceOutOfRange);
    }
    None
}

/// The judgements, when they pass the checks of `judgements_error`; the
/// first error otherwise.
pub fn check_judgements(judgements: Vec<JudgedQuery>) -> (r: Result<Vec<JudgedQuery>, JudgementError>)
    ensures
        match judgements_error(judged_view(judgements@)) {
            Some(e) => r == Err::<Vec<JudgedQuery>, JudgementError>(e),
            None => r matches Ok(v) && v@ == judgements@,
        },
{
    let ghost js = judged_view(judgements@);
    if judgements.len() == 0 {
        return Err(JudgementError::NoQueries);
    }
    let mut k: usize = 0;
    while k < judgements.len()
        invariant
            k <= judgements.len(),
            js == judged_view(judgements@),
            first_judgement_error(js.take(k as int)) is None,
        decreases judgements.len() - k,
    {
        assert(js.take(k + 1).drop_last() =~= js.take(k as int));
        assert(js.take(k + 1).last() == judgements@[k as int]@);
        match check_judgement(&judgements[k]) {
            Some(e) => {
                proof {
                    lemma_first_error_prefix(js, k + 1);
                }
                return Err(e);
            },
            None => {},
        }
        k += 1;
    }
    assert(js.take(judgements.len() as int) =~= js);
    Ok(judgements)
}

/// The first error of a prefix is the first error of the whole.
proof fn lemma_first_error_prefix(js: Seq<JudgedModel>, k: int)
    requires
        0 <= k <= js.len(),
        first_judgement_error(js.take(k)) is Some,
    ensures
        first_judgement_error(js) == first_judgement_error(js.take(k)),
    decreases js.len() - k,
{
    if k < js.len() {
        assert(js.take(k + 1).drop_last() =~= js.take(k));
        lemma_first_error_prefix(js, k + 1);
    } else {
        assert(js.take(k) =~= js);
    }
}

/// A judged query that passes every check: its query is not blank, it has
/// at least one relevant function, and every grade is from 1 to 3.
pub open spec fn judged_query_valid(j: JudgedModel) -> bool {
    &&& spec_trim(j.query).len() > 0
    &&& j.relevant.len() > 0
    &&& forall|i: int| 0 <= i < j.relevant.len() ==> 1 <= #[trigger] j.relevant[i].2 <= 3
}

/// Every judged query of a list, not only the first, is checked: the list
/// has no error exactly when each of its judged queries passes every check,
/// and otherwise its error is that of the first judged query that fails.
proof fn lemma_first_error_is_first_invalid(js: Seq<JudgedModel>)
    ensures
        first_judgement_error(js) is None <==> forall|k: int| 0 <= k < js.len() ==> judged_query_valid(#[trigger] js[k]),
        forall|k: int|
            0 <= k < js.len() && !judged_query_valid(#[trigger] js[k]) && (forall|i: int|
                0 <= i < k ==> judged_query_valid(js[i])) ==> first_judgement_error(js) == judgement_error(js[k])
                && judgement_error(js[k]) is Some,
    decreases js.len(),
{
    if js.len() > 0 {
        let d = js.drop_last();
        lemma_first_error_is_first_invalid(d);
        assert forall|k: int| 0 <= k < d.len() implies #[trigger] d[k] == js[k] by {}
        let last = js[js.len() - 1];
        assert(judgement_error(last) is None <==> judged_query_valid(last));
        if first_judgement_error(js) is None {
            assert forall|k: int| 0 <= k < js.len() implies judged_query_valid(#[trigger] js[k]) by {
                if k < d.len() {
                    assert(d[k] == js[k]);
                    assert(judged_query_valid(d[k]));
                }
            }
        }
        if forall|k: int| 0 <= k < js.len() ==> judged_query_valid(#[trigger] js[k]) {
            assert forall|k: int| 0 <= k < d.len() implies judged_query_valid(#[trigger] d[k]) by {
                assert(judged_query_valid(js[k]));
            }
            assert(judged_query_valid(js[js.len() - 1]));
        }
        assert forall|k: int|
            0 <= k < js.len() && !judged_query_valid(#[trigger] js[k]) && (forall|i: int|
                0 <= i < k ==> judged_query_valid(js[i])) implies first_judgement_error(js) == judgement_error(js[k])
            && judgement_error(js[k]) is Some by {
            if k < d.len() {
                assert(d[k] == js[k]);
                assert forall|i: int| 0 <= i < k implies judged_query_valid(#[trigger] d[i]) by {
                    assert(d[i] == js[i]);
                    assert(judged_query_valid(js[i]));
                }
            } else {
                assert forall|i: int| 0 <= i < d.len() implies judged_query_valid(#[trigger] d[i]) by {
                    assert(d[i] == js[i]);
                    assert(judged_query_valid(js[i]));
                }
            }
        }
    }
}

/// Judgements are accepted exactly when there is at least one judged query
/// and every one of them, not only the first, has a query that is not
/// blank, a relevant function and only grades from 1 to 3. Otherwise the
/// error is that of the first judged query that fails a check.
pub proof fn law_judgements_accepted_iff_every_query_valid(js: Seq<JudgedModel>)
    ensures
        judgements_error(js) is None <==> js.len() > 0 && forall|k: int| 0 <= k < js.len() ==> judged_query_valid(#[trigger] js[k]),
        forall|k: int|
            0 <= k < js.len() && !judged_query_valid(#[trigger] js[k]) && (forall|i: int|
                0 <= i < k ==> judged_query_valid(js[i])) ==> judgements_error(js) == judgement_error(js[k])
                && judgement_error(js[k]) is Some,
{
    lemma_first_error_is_first_invalid(js);
}

/// What `Path::ends_with` answers: the second path's components are the
/// last components of the first.
pub uninterp spec fn spec_path_ends_with(path: Seq<char>, suffix: Seq<char>) -> bool;

/// `std::path::Path::ends_with` on two paths given as text. The answer is
/// named, not spelled out, and stated only when both paths are portable:
/// elsewhere how they split into components depends on the platform.
#[verifier::external_body]
fn path_ends_with(path: &str, suffix: &str) -> (r: bool)
    ensures
        portable_path(path@) && portable_path(suffix@) ==> r == spec_path_ends_with(path@, suffix@),
{
    std::path::Path::new(path).ends_with(std::path::Path::new(suffix))
}

/// The grade of a result: that of the first relevant function with the
/// result's header whose path the result's path ends with; 0 when none.
pub open spec fn relevance_of(path: Seq<char>, header: Seq<char>, relevant: Seq<RelevantModel>) -> u8
    decreases relevant.len(),
{
    if relevant.len() == 0 {
        0
    } else if relevant[0].1 == header && spec_path_ends_with(path, relevant[0].0) {
        relevant[0].2
    } else {
        relevance_of(path, header, relevant.skip(1))
    }
}

/// Every path of the relevant functions is portable.
pub open spec fn relevant_paths_portable(relevant: Seq<RelevantModel>) -> bool {
    forall|k: int| 0 <= k < relevant.len() ==> portable_path(#[trigger] relevant[k].0)
}

/// The grade of the result at `path` with header `header`, as
/// `relevance_of` says when the paths are portable; on other paths the
/// platform decides which path matches, and the grade is still 0 or that of
/// a relevant function with the result's header.
pub fn relevance_for_result(path: &str, header: &str, relevant: &Vec<RelevantFunction>) -> (r: u8)
    ensures
        portable_path(path@) && relevant_paths_portable(relevant_view(relevant@)) ==> r == relevance_of(
            path@,
            header@,
            relevant_view(relevant@),
        ),
        r == 0 || exists|k: int| 0 <= k < relevant.len() && #[trigger] relevant_view(relevant@)[k].2 == r
            && relevant_view(relevant@)[k].1 == header@,
{
    let ghost rv = relevant_view(relevant@);
    let ghost portable = portable_path(path@) && relevant_paths_portable(rv);
    let mut k: usize = 0;
    while k < relevant.len()
        invariant
            k <= relevant.len(),
            rv == relevant_view(relevant@),
            portable == (portable_path(path@) && relevant_paths_portable(rv)),
            portable ==> relevance_of(path@, header@, rv) == relevance_of(path@, header@, rv.skip(k as int)),
        decreases relevant.len() - k,
    {
        let f = &relevant[k];
        assert(rv.skip(k as int)[0] == f@);
        assert(rv.skip(k as int).skip(1) =~= rv.skip(k + 1));
        assert(rv[k as int] == f@);
        if text_eq(f.header.as_str(), header) && path_ends_with(path, f.path.as_str()) {
            assert(rv[k as int].2 == f.relevance && rv[k as int].1 == header@);
            return f.relevance;
        }
        k += 1;
    }
    assert(rv.skip(k as int) =~= Seq::<RelevantModel>::empty());
    0
}

/// No later grade is higher than an earlier one.
pub open spec fn non_increasing(s: Seq<u8>) -> bool {
    forall|i: int, j: int| 0 <= i < j < s.len() ==> s[i] >= s[j]
}

/// The first `k` of `s`, or all of `s` when it is shorter.
pub open spec fn take_at_most(s: Seq<u8>, k: nat) -> Seq<u8> {
    s.take(if k < s.len() { k as int } else { s.len() as int })
}

/// The grades sorted from highest to lowest.
#[verifier::spinoff_prover]
#[verifier::rlimit(30)]
pub fn sort_relevances_desc(grades: &Vec<u8>) -> (r: Vec<u8>)
    ensures
        non_increasing(r@),
        r@.to_multiset() == grades@.to_multiset(),
{
    let mut out: Vec<u8> = Vec::new();
    let mut i: usize = 0;
    while i < grades.len()
        invariant
            i <= grades.len(),
            non_increasing(out@),
            out@.to_multiset() == grades@.take(i as int).to_multiset(),
        decreases grades.len() - i,
    {
        let x = grades[i];
        let mut j: usize = 0;
        while j < out.len() && out[j] >= x
            invariant
                j <= out.len(),
                forall|a: int| 0 <= a < j ==> out@[a] >= x,
            decreases out.len() - j,
        {
            j += 1;
        }
        let ghost before = out@;
        out.insert(j, x);
        proof {
            assert(grades@.take(i + 1) =~= grades@.take(i as int).push(x));
            assert(out@ =~= before.insert(j as int, x));
            assert forall|a: int, b: int| 0 <= a < b < out@.len() implies out@[a] >= out@[b] by {
                if j < before.len() {
                    assert(before[j as int] < x);
                }
                if a < j && b > j {
                    assert(out@[a] == before[a]);
                    assert(out@[b] == before[b - 1]);
                }
            }
        }
        i += 1;
    }
    assert(grades@.take(grades.len() as int) =~= grades@);
    out
}

/// The grades of an ideal ranking of `count` results: the judged grades from
/// highest to lowest, at most `count` of them.
pub fn ideal_relevances(judged: &Vec<u8>, count: usize) -> (r: Vec<u8>)
    ensures
        exists|s: Seq<u8>| #[trigger] non_increasing(s) && s.to_multiset() == judged@.to_multiset() && r@ == take_at_most(s, count as nat),
{
    let mut sorted = sort_relevances_desc(judged);
    let ghost s = sorted@;
    if sorted.len() > count {
        sorted.truncate(count);
    }
    assert(sorted@ =~= take_at_most(s, count as nat));
    sorted
}

/// How many records the two result lists have in common, each counted once.
pub fn recall_overlap(exact: &Vec<usize>, approximate: &Vec<usize>) -> (r: usize)
    ensures
        r == exact@.to_set().intersect(approximate@.to_set()).len(),
{
    let mut approx: HashSet<usize> = HashSet::new();
    let mut k: usize = 0;
    while k < approximate.len()
        invariant
            k <= approximate.len(),
            approx@ == approximate@.take(k as int).to_set(),
        decreases approximate.len() - k,
    {
        approx.insert(approximate[k]);
        assert(approximate@.take(k + 1) =~= approximate@.take(k as int).push(approximate@[k as int]));
        k += 1;
    }
    assert(approximate@.take(approximate.len() as int) =~= approximate@);
    let ghost a = approximate@.to_set();
    let mut seen: HashSet<usize> = HashSet::new();
    let mut count: usize = 0;
    let mut i: usize = 0;
    assert(seen@.intersect(a) =~= Set::<usize>::empty());
    assert(exact@.take(0) =~= Seq::<usize>::empty());
    while i < exact.len()
        invariant
            i <= exact.len(),
            approx@ == a,
            a == approximate@.to_set(),
            seen@ == exact@.take(i as int).to_set(),
            count == seen@.intersect(a).len(),
            count <= i,
        decreases exact.len() - i,
    {
        let x = exact[i];
        let ghost old_seen = seen@;
        assert(exact@.take(i + 1) =~= exact@.take(i as int).push(x));
        assert(exact@.take(i + 1).to_set() =~= old_seen.insert(x));
        if !seen.contains(&x) {
            seen.insert(x);
            if approx.contains(&x) {
                assert(seen@.intersect(a) =~= old_seen.intersect(a).insert(x));
                count += 1;
            } else {
                assert(seen@.intersect(a) =~= old_seen.intersect(a));
            }
        } else {
            assert(old_seen.insert(x) =~= old_seen);
        }
        proof {
            lemma_intersect_len_bound(seen@, a);
        }
        i += 1;
    }
    assert(exact@.take(exact.len() as int) =~= exact@);
    count
}

/// An intersection is no larger than its first set.
proof fn lemma_intersect_len_bound(s: Set<usize>, t: Set<usize>)
    requires
        s.finite(),
    ensures
        s.intersect(t).len() <= s.len(),
{
    vstd::set_lib::lemma_len_intersect(s, t);
}

/// The queries of a query file: its lines trimmed, blank ones left out.
pub open spec fn queries_of(lines: Seq<Seq<char>>) -> Seq<Seq<char>>
    decreases lines.len(),
{
    if lines.len() == 0 {
        Seq::empty()
    } else {
        let prev = queries_of(lines.drop_last());
        let q = spec_trim(lines.last());
        if q.len() == 0 {
            prev
        } else {
            prev.push(q)
        }
    }
}

/// The queries of a query file's text, one per line, as `queries_of` says.
pub fn read_queries(contents: &str) -> (r: Vec<String>)
    ensures
        r@.map_values(|q: String| q@) == queries_of(spec_lines(contents@)),
{
    let all = lines(contents);
    let ghost ls = all@.map_values(|l: String| l@);
    let mut r: Vec<String> = Vec::new();
    let mut k: usize = 0;
    while k < all.len()
        invariant
            k <= all.len(),
            ls == all@.map_values(|l: String| l@),
            r@.map_values(|q: String| q@) == queries_of(ls.take(k as int)),
        decreases all.len() - k,
    {
        assert(ls.take(k + 1).drop_last() =~= ls.take(k as int));
        assert(ls.take(k + 1).last() == all@[k as int]@);
        let q = trim(all[k].as_str());
        if !q.as_str().is_empty() {
            let ghost before = r@;
            r.push(q);
            assert(r@.map_values(|q: String| q@) =~= before.map_values(|q: String| q@).push(r@.last()@));
        }
        k += 1;
    }
    assert(ls.take(all.len() as int) =~= ls);
    r
}

/// Why a benchmark or an evaluation cannot run.
#[derive(Debug, Clone, Copy, PartialEq, Eq)]
pub enum BenchmarkError {
    /// The query file holds no query.
    NoQueries,
    /// The number of runs is zero.
    ZeroRuns,
    /// The number of results to grade in an evaluation is zero.
    ZeroTop,
    /// The number of results to compare in a benchmark is zero.
    ZeroBenchmarkTop,
    /// The index holds no function.
    EmptyIndex,
}

impl BenchmarkError {
    /// The message shown for the error.
    pub fn message(&self) -> (r: &'static str)
        ensures
            self matches BenchmarkError::NoQueries ==> r@ == "Benchmark query file contains no queries"@,
            self matches BenchmarkError::ZeroRuns ==> r@ == "Benchmark runs must be greater than zero"@,
            self matches BenchmarkError::ZeroTop ==> r@ == "Top k must be greater than 0"@,
            self matches BenchmarkError::ZeroBenchmarkTop ==> r@ == "Benchmark top must be greater than zero"@,
            self matches BenchmarkError::EmptyIndex ==> r@ == "The index is empty, please run `sift ingest` first"@,
    {
        match self {
            BenchmarkError::NoQueries => "Benchmark query file contains no queries",
            BenchmarkError::ZeroRuns => "Benchmark runs must be greater than zero",
            BenchmarkError::ZeroTop => "Top k must be greater than 0",
            BenchmarkError::ZeroBenchmarkTop => "Benchmark top must be greater than zero",
            BenchmarkError::EmptyIndex => "The index is empty, please run `sift ingest` first",
        }
    }
}

/// The checks of a benchmark's arguments, in order: some query, some run,
/// some result to compare.
pub fn check_benchmark_arguments(query_count: usize, runs: usize, top: usize) -> (r: Result<(), BenchmarkError>)
    ensures
        query_count == 0 ==> r == Err::<(), BenchmarkError>(BenchmarkError::NoQueries),
        query_count > 0 && runs == 0 ==> r == Err::<(), BenchmarkError>(BenchmarkError::ZeroRuns),
        query_count > 0 && runs > 0 && top == 0 ==> r == Err::<(), BenchmarkError>(BenchmarkError::ZeroBenchmarkTop),
        query_count > 0 && runs > 0 && top > 0 ==> r is Ok,
{
    if query_count == 0 {
        Err(BenchmarkError::NoQueries)
    } else if runs == 0 {
        Err(BenchmarkError::ZeroRuns)
    } else if top == 0 {
        Err(BenchmarkError::ZeroBenchmarkTop)
    } else {
        Ok(())
    }
}

/// The check of an evaluation's argument: some result to grade.
pub fn check_evaluation_top(top_k: usize) -> (r: Result<(), BenchmarkError>)
    ensures
        top_k == 0 ==> r == Err::<(), BenchmarkError>(BenchmarkError::ZeroTop),
        top_k > 0 ==> r is Ok,
{
    if top_k == 0 {
        Err(BenchmarkError::ZeroTop)
    } else {
        Ok(())
    }
}

/// The check of a loaded index: it must hold a function.
pub fn check_index_len(index_len: usize) -> (r: Result<(), BenchmarkError>)
    ensures
        index_len == 0 ==> r == Err::<(), BenchmarkError>(BenchmarkError::EmptyIndex),
        index_len > 0 ==> r is Ok,
{
    if index_len == 0 {
        Err(BenchmarkError::EmptyIndex)
    } else {
        Ok(())
    }
}

} // verus!
