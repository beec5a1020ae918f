//! Ingestion: the functions of a source file, their order for embedding
//! (shortest source first, then by path and line), the embedding batches,
//! and the graph built over the embedded functions, record `i` being the
//! `i`-th function in that order.
use vstd::prelude::*;
use vstd::string::StringSliceAdditionalSpecFns;
use vstd::utf8::encode_utf8;
use crate::hnsw::{GraphModel, HnswIndex, insert_spec, records_distinct};
use crate::links::undirected;
use crate::language_specs::LanguageSpec;
use crate::scoring::{is_similarity, sim_fn};
use crate::treesitter_parse::{
    extract_functions, extraction, functions_view, generate_tree_from_source, grammar_loads, query_builds, text_between,
    TreeSitterError,
};

verus! {

broadcast use vstd::seq_lib::group_seq_properties;

/// The number of function sources embedded together.
pub const EMBEDDING_BATCH_SIZE: usize = 1024;

/// The neighbour bound of the graph built at ingestion.
pub const INGEST_M: usize = 32;

/// The search breadth of the graph built at ingestion.
pub const INGEST_EF: usize = 256;

/// A function found in a file, waiting to be embedded.
#[derive(Debug)]
pub struct PendingFunction {
    pub path: String,
    pub header: String,
    pub source: String,
    pub line_number: usize,
}

/// A pending function as text: path, header, source and line.
pub type PendingModel = (Seq<char>, Seq<char>, Seq<char>, usize);

impl View for PendingFunction {
    type V = PendingModel;

    open spec fn view(&self) -> PendingModel {
        (self.path@, self.header@, self.source@, self.line_number)
    }
}

/// The texts of a list of pending functions.
pub open spec fn pending_view(v: Seq<PendingFunction>) -> Seq<PendingModel> {
    v.map_values(|p: PendingFunction| p@)
}

/// The functions of the file at `path` whose text is `source`, parsed with
/// the grammar of `spec`, in the order extraction gives them (see
/// `extract_functions`), each tagged with the path.
pub fn pending_functions_for_file(path: &str, spec: &LanguageSpec, source: &str) -> (r: Result<Vec<PendingFunction>, TreeSitterError>)
    ensures
        !grammar_loads(spec.spec_kind()) ==> (r matches Err(e) && e is LanguageLoad),
        grammar_loads(spec.spec_kind()) && !query_builds(spec.spec_kind()) ==> (r matches Err(e) && e is QueryCreation),
        grammar_loads(spec.spec_kind()) && query_builds(spec.spec_kind()) ==> match extraction(
            source.spec_bytes(),
            spec.spec_kind(),
            spec.spec_kind(),
            source@,
        ) {
            Ok(fs) => r matches Ok(v) && v.len() == fs.len() && forall|i: int| 0 <= i < v.len() ==> (#[trigger] v@[i])@ == (
            path@,
            fs[i].0,
            fs[i].1,
            fs[i].2,
            ),
            Err(()) => r matches Err(e) && (e is InvalidSourceRange || e is LineOverflow),
        },
        r matches Ok(v) ==> forall|i: int| 0 <= i < v.len() ==> {
            &&& (#[trigger] v@[i]).line_number >= 1
            &&& exists|start: usize, end: usize| text_between(source.spec_bytes(), start, end) == Some(v@[i].source@)
        },
{
    let tree = match generate_tree_from_source(spec, source) {
        Ok(t) => t,
        Err(e) => {
            return Err(e);
        },
    };
    let functions = match extract_functions(&tree, source, spec) {
        Ok(f) => f,
        Err(e) => {
            return Err(e);
        },
    };
    let ghost fs = functions_view(functions@);
    let mut r: Vec<PendingFunction> = Vec::new();
    let mut k: usize = 0;
    while k < functions.len()
        invariant
            k <= functions.len(),
            fs == functions_view(functions@),
            r.len() == k,
            forall|i: int| 0 <= i < k ==> (#[trigger] r@[i])@ == (path@, fs[i].0, fs[i].1, fs[i].2),
        decreases functions.len() - k,
    {
        let f = &functions[k];
        assert(fs[k as int] == f@);
        r.push(PendingFunction {
            path: path.to_owned(),
            header: f.header.clone(),
            source: f.source.clone(),
            line_number: f.line_number,
        });
        k += 1;
    }
    proof {
        assert forall|i: int| 0 <= i < r.len() implies {
            &&& (#[trigger] r@[i]).line_number >= 1
            &&& exists|start: usize, end: usize| text_between(source.spec_bytes(), start, end) == Some(r@[i].source@)
        } by {
            assert(fs[i] == functions@[i]@);
            assert(functions@[i].line_number >= 1);
        }
    }
    Ok(r)
}

/// Byte strings in lexicographic order: `a` is no greater than `b`.
pub open spec fn lex_le(a: Seq<u8>, b: Seq<u8>) -> bool
    decreases a.len(),
{
    if a.len() == 0 {
        true
    } else if b.len() == 0 {
        false
    } else if a[0] != b[0] {
        a[0] < b[0]
    } else {
        lex_le(a.skip(1), b.skip(1))
    }
}

/// Either of two byte strings is no greater than the other.
pub proof fn lemma_lex_total(a: Seq<u8>, b: Seq<u8>)
    ensures
        lex_le(a, b) || lex_le(b, a),
    decreases a.len(),
{
    if a.len() > 0 && b.len() > 0 && a[0] == b[0] {
        lemma_lex_total(a.skip(1), b.skip(1));
    }
}

/// Two byte strings each no greater than the other are equal.
pub proof fn lemma_lex_antisymmetric(a: Seq<u8>, b: Seq<u8>)
    requires
        lex_le(a, b),
        lex_le(b, a),
    ensures
        a == b,
    decreases a.len(),
{
    if a.len() > 0 && b.len() > 0 {
        lemma_lex_antisymmetric(a.skip(1), b.skip(1));
        assert(a =~= seq![a[0]] + a.skip(1));
        assert(b =~= seq![b[0]] + b.skip(1));
    } else {
        assert(a.len() == 0 && b.len() == 0);
        assert(a =~= b);
    }
}

/// The lexicographic order is transitive.
pub proof fn lemma_lex_transitive(a: Seq<u8>, b: Seq<u8>, c: Seq<u8>)
    requires
        lex_le(a, b),
        lex_le(b, c),
    ensures
        lex_le(a, c),
    decreases a.len(),
{
    if a.len() > 0 && b.len() > 0 && c.len() > 0 && a[0] == b[0] && b[0] == c[0] {
        lemma_lex_transitive(a.skip(1), b.skip(1), c.skip(1));
    }
}

/// The order of embedding: source length in bytes, then path as bytes,
/// then line.
pub type PendingKey = (nat, Seq<u8>, usize);

/// The key of a pending function.
pub open spec fn pending_key(p: PendingModel) -> PendingKey {
    (encode_utf8(p.2).len(), encode_utf8(p.0), p.3)
}

/// `a` comes no later than `b` in the order of embedding.
pub open spec fn key_le(a: PendingKey, b: PendingKey) -> bool {
    a.0 < b.0 || (a.0 == b.0 && ((lex_le(a.1, b.1) && a.1 != b.1) || (a.1 == b.1 && a.2 <= b.2)))
}

/// The order of embedding is total.
pub proof fn lemma_key_total(a: PendingKey, b: PendingKey)
    ensures
        key_le(a, b) || key_le(b, a),
{
    lemma_lex_total(a.1, b.1);
}

/// The order of embedding is transitive.
pub proof fn lemma_key_transitive(a: PendingKey, b: PendingKey, c: PendingKey)
    requires
        key_le(a, b),
        key_le(b, c),
    ensures
        key_le(a, c),
{
    if a.0 == b.0 && b.0 == c.0 {
        if a.1 != b.1 && b.1 != c.1 {
            lemma_lex_transitive(a.1, b.1, c.1);
            if a.1 == c.1 {
                lemma_lex_antisymmetric(a.1, b.1);
            }
        }
    }
}

/// Whether `a` comes no later than `b` in the order of embedding.
fn pending_le(a: &PendingFunction, b: &PendingFunction) -> (r: bool)
    ensures
        r == key_le(pending_key(a@), pending_key(b@)),
{
    let la = a.source.as_str().as_bytes().len();
    let lb = b.source.as_str().as_bytes().len();
    if la != lb {
        return la < lb;
    }
    let pa = a.path.as_str().as_bytes();
    let pb = b.path.as_str().as_bytes();
    let mut i: usize = 0;
    while i < pa.len() && i < pb.len()
        invariant
            pa@ == encode_utf8(a.path@),
            pb@ == encode_utf8(b.path@),
            encode_utf8(a.source@).len() == encode_utf8(b.source@).len(),
            i <= pa.len(),
            i <= pb.len(),
            pa@.take(i as int) == pb@.take(i as int),
            lex_le(pa@, pb@) == lex_le(pa@.skip(i as int), pb@.skip(i as int)),
        decreases pa.len() - i,
    {
        assert(pa@.skip(i as int)[0] == pa@[i as int]);
        assert(pb@.skip(i as int)[0] == pb@[i as int]);
        if pa[i] != pb[i] {
            assert(pa@ != pb@) by {
                assert(pa@[i as int] != pb@[i as int]);
            }
            assert(lex_le(pa@.skip(i as int), pb@.skip(i as int)) == (pa@[i as int] < pb@[i as int]));
            return pa[i] < pb[i];
        }
        assert(pa@.skip(i as int).skip(1) =~= pa@.skip(i + 1));
        assert(pb@.skip(i as int).skip(1) =~= pb@.skip(i + 1));
        assert(pa@.take(i + 1) =~= pa@.take(i as int).push(pa@[i as int]));
        assert(pb@.take(i + 1) =~= pb@.take(i as int).push(pb@[i as int]));
        i += 1;
    }
    if pa.len() == pb.len() {
        assert(pa@ =~= pb@) by {
            assert(pa@ =~= pa@.take(i as int));
            assert(pb@ =~= pb@.take(i as int));
        }
        return a.line_number <= b.line_number;
    }
    assert(pa@ != pb@) by {
        assert(pa@.len() != pb@.len());
    }
    assert(lex_le(pa@.skip(i as int), pb@.skip(i as int)) == (pa.len() < pb.len()));
    pa.len() < pb.len()
}

/// Position `p` of `items` comes before position `q`: its key is smaller,
/// or the keys are equal and `p` is the earlier position.
pub open spec fn pos_before(items: Seq<PendingModel>, p: usize, q: usize) -> bool {
    &&& key_le(pending_key(items[p as int]), pending_key(items[q as int]))
    &&& (key_le(pending_key(items[q as int]), pending_key(items[p as int])) ==> p < q)
}

/// The positions `idx` name are in the order of embedding of `items`, equal
/// keys in the order of their positions.
pub open spec fn sorted_by_key(items: Seq<PendingModel>, idx: Seq<usize>) -> bool {
    forall|i: int, j: int| 0 <= i < j < idx.len() ==> pos_before(items, #[trigger] idx[i], #[trigger] idx[j])
}

/// The order of positions is transitive.
proof fn lemma_pos_before_transitive(items: Seq<PendingModel>, p: usize, q: usize, t: usize)
    requires
        pos_before(items, p, q),
        pos_before(items, q, t),
    ensures
        pos_before(items, p, t),
{
    let (a, b, c) = (pending_key(items[p as int]), pending_key(items[q as int]), pending_key(items[t as int]));
    lemma_key_transitive(a, b, c);
    if key_le(c, a) {
        lemma_key_transitive(c, a, b);
        lemma_key_transitive(b, c, a);
    }
}

/// Every position of `idx` is a position of `items`.
pub open spec fn in_range(idx: Seq<usize>, n: nat) -> bool {
    forall|i: int| 0 <= i < idx.len() ==> #[trigger] idx[i] < n
}

/// Every position of `a` comes before every position of `b`.
pub open spec fn all_before(a: Seq<usize>, b: Seq<usize>) -> bool {
    forall|s: int, t: int| 0 <= s < a.len() && 0 <= t < b.len() ==> #[trigger] a[s] < #[trigger] b[t]
}

/// Positions in increasing order.
pub open spec fn increasing(idx: Seq<usize>) -> bool {
    forall|i: int, j: int| 0 <= i < j < idx.len() ==> #[trigger] idx[i] < #[trigger] idx[j]
}

/// Merges two lists of positions, each in the order of embedding, into one;
/// on equal keys the first list's positions, which are the earlier ones,
/// come first.
fn merge_positions(items: &Vec<PendingFunction>, a: &Vec<usize>, b: &Vec<usize>) -> (r: Vec<usize>)
    requires
        in_range(a@, items.len() as nat),
        in_range(b@, items.len() as nat),
        sorted_by_key(pending_view(items@), a@),
        sorted_by_key(pending_view(items@), b@),
        all_before(a@, b@),
    ensures
        in_range(r@, items.len() as nat),
        sorted_by_key(pending_view(items@), r@),
        r@.to_multiset() == a@.to_multiset().add(b@.to_multiset()),
{
    let ghost it = pending_view(items@);
    let mut r: Vec<usize> = Vec::new();
    let mut i: usize = 0;
    let mut j: usize = 0;
    while i < a.len() || j < b.len()
        invariant
            it == pending_view(items@),
            i <= a.len(),
            j <= b.len(),
            in_range(a@, items.len() as nat),
            in_range(b@, items.len() as nat),
            sorted_by_key(it, a@),
            sorted_by_key(it, b@),
            all_before(a@, b@),
            in_range(r@, items.len() as nat),
            sorted_by_key(it, r@),
            r@.to_multiset() == a@.take(i as int).to_multiset().add(b@.take(j as int).to_multiset()),
            forall|k: int| 0 <= k < r.len() && i < a.len() ==> pos_before(it, #[trigger] r@[k], a@[i as int]),
            forall|k: int| 0 <= k < r.len() && j < b.len() ==> pos_before(it, #[trigger] r@[k], b@[j as int]),
        decreases a.len() + b.len() - i - j,
    {
        let take_a = if i < a.len() && j < b.len() {
            pending_le(&items[a[i]], &items[b[j]])
        } else {
            i < a.len()
        };
        let ghost before = r@;
        if take_a {
            let x = a[i];
            proof {
                assert(it[x as int] == items@[x as int]@);
                if j < b.len() {
                    assert(it[b@[j as int] as int] == items@[b@[j as int] as int]@);
                    assert(x < b@[j as int]);
                    assert(pos_before(it, x, b@[j as int]));
                }
            }
            r.push(x);
            proof {
                assert(a@.take(i + 1) =~= a@.take(i as int).push(x));
                assert forall|k: int| 0 <= k < r.len() && i + 1 < a.len() implies pos_before(it, #[trigger] r@[k], a@[i + 1]) by {
                    assert(pos_before(it, a@[i as int], a@[i + 1]));
                    if k < before.len() {
                        lemma_pos_before_transitive(it, r@[k], x, a@[i + 1]);
                    }
                }
                assert forall|k: int| 0 <= k < r.len() && j < b.len() implies pos_before(it, #[trigger] r@[k], b@[j as int]) by {
                    if k < before.len() {
                        assert(pos_before(it, before[k], b@[j as int]));
                    }
                }
                assert forall|p: int, q: int| 0 <= p < q < r.len() implies pos_before(it, #[trigger] r@[p], #[trigger] r@[q]) by {
                    if q == before.len() {
                        assert(pos_before(it, before[p], x));
                    } else {
                        assert(pos_before(it, before[p], before[q]));
                    }
                }
            }
            i += 1;
        } else {
            let y = b[j];
            proof {
                assert(it[y as int] == items@[y as int]@);
                if i < a.len() {
                    assert(it[a@[i as int] as int] == items@[a@[i as int] as int]@);
                    lemma_key_total(pending_key(it[a@[i as int] as int]), pending_key(it[y as int]));
                    assert(pos_before(it, y, a@[i as int]));
                }
            }
            r.push(y);
            proof {
                assert(b@.take(j + 1) =~= b@.take(j as int).push(y));
                assert forall|k: int| 0 <= k < r.len() && j + 1 < b.len() implies pos_before(it, #[trigger] r@[k], b@[j + 1]) by {
                    assert(pos_before(it, b@[j as int], b@[j + 1]));
                    if k < before.len() {
                        lemma_pos_before_transitive(it, r@[k], y, b@[j + 1]);
                    }
                }
                assert forall|k: int| 0 <= k < r.len() && i < a.len() implies pos_before(it, #[trigger] r@[k], a@[i as int]) by {
                    if k < before.len() {
                        assert(pos_before(it, before[k], a@[i as int]));
                    }
                }
                assert forall|p: int, q: int| 0 <= p < q < r.len() implies pos_before(it, #[trigger] r@[p], #[trigger] r@[q]) by {
                    if q == before.len() {
                        assert(pos_before(it, before[p], y));
                    } else {
                        assert(pos_before(it, before[p], before[q]));
                    }
                }
            }
            j += 1;
        }
    }
    assert(a@.take(a.len() as int) =~= a@);
    assert(b@.take(b.len() as int) =~= b@);
    r
}

/// A position of a list is one of the positions of any list with the same
/// elements.
proof fn lemma_same_elements(s: Seq<usize>, t: Seq<usize>, k: int)
    requires
        s.to_multiset() == t.to_multiset(),
        0 <= k < s.len(),
    ensures
        t.contains(s[k]),
{
    assert(s.contains(s[k]));
    vstd::seq_lib::to_multiset_contains(s, s[k]);
    vstd::seq_lib::to_multiset_contains(t, s[k]);
}

/// Sorts increasing positions of `items` into the order of embedding,
/// equal keys in the order of their positions.
fn sort_positions(items: &Vec<PendingFunction>, idx: Vec<usize>) -> (r: Vec<usize>)
    requires
        in_range(idx@, items.len() as nat),
        increasing(idx@),
    ensures
        in_range(r@, items.len() as nat),
        sorted_by_key(pending_view(items@), r@),
        r@.to_multiset() == idx@.to_multiset(),
    decreases idx.len(),
{
    if idx.len() <= 1 {
        return idx;
    }
    let mut left = idx;
    let ghost whole = left@;
    let mid = left.len() / 2;
    let right = left.split_off(mid);
    assert(whole =~= left@ + right@);
    proof {
        vstd::seq_lib::lemma_multiset_commutative(left@, right@);
        assert(increasing(left@)) by {
            assert forall|i: int, j: int| 0 <= i < j < left@.len() implies #[trigger] left@[i] < #[trigger] left@[j] by {
                assert(left@[i] == whole[i] && left@[j] == whole[j]);
            }
        }
        assert(increasing(right@)) by {
            assert forall|i: int, j: int| 0 <= i < j < right@.len() implies #[trigger] right@[i] < #[trigger] right@[j] by {
                assert(right@[i] == whole[i + mid] && right@[j] == whole[j + mid]);
            }
        }
    }
    let ghost lv = left@;
    let ghost rv = right@;
    let sorted_left = sort_positions(items, left);
    let sorted_right = sort_positions(items, right);
    proof {
        assert forall|s: int, t: int| 0 <= s < sorted_left@.len() && 0 <= t < sorted_right@.len() implies #[trigger] sorted_left@[s]
            < #[trigger] sorted_right@[t] by {
            lemma_same_elements(sorted_left@, lv, s);
            lemma_same_elements(sorted_right@, rv, t);
            let u = choose|u: int| 0 <= u < lv.len() && lv[u] == sorted_left@[s];
            let w = choose|w: int| 0 <= w < rv.len() && rv[w] == sorted_right@[t];
            assert(lv[u] == whole[u] && rv[w] == whole[w + mid]);
        }
    }
    merge_positions(items, &sorted_left, &sorted_right)
}

/// The positions `0..n`.
pub open spec fn all_positions(n: nat) -> Seq<usize> {
    Seq::new(n, |i: int| i as usize)
}

/// The pending functions in the order of embedding: shortest source (in
/// bytes) first, then by path as bytes, then by line. The result is the
/// functions at the positions of a permutation of `0..n`.
pub fn order_pending(items: Vec<PendingFunction>) -> (r: Vec<PendingFunction>)
    ensures
        r.len() == items.len(),
        exists|perm: Seq<usize>| #![trigger perm.to_multiset()] {
            &&& perm.to_multiset() == all_positions(items.len() as nat).to_multiset()
            &&& perm.len() == items.len()
            &&& in_range(perm, items.len() as nat)
            &&& forall|i: int| 0 <= i < r.len() ==> #[trigger] r@[i]@ == items@[perm[i] as int]@
        },
        forall|i: int, j: int| 0 <= i < j < r.len() ==> key_le(pending_key(r@[i]@), pending_key(r@[j]@)),
        exists|perm: Seq<usize>| #![trigger perm.to_multiset()] {
            &&& perm.to_multiset() == all_positions(items.len() as nat).to_multiset()
            &&& perm.len() == items.len()
            &&& forall|i: int| 0 <= i < r.len() ==> #[trigger] r@[i]@ == items@[perm[i] as int]@
            &&& forall|i: int, j: int|
                0 <= i < j < r.len() && key_le(pending_key(r@[j]@), pending_key(r@[i]@)) ==> #[trigger] perm[i] < #[trigger] perm[j]
        },
{
    let n = items.len();
    let mut idx: Vec<usize> = Vec::new();
    while idx.len() < n
        invariant
            idx.len() <= n,
            n == items.len(),
            idx@ == all_positions(idx.len() as nat),
        decreases n - idx.len(),
    {
        let ghost before = idx@;
        idx.push(idx.len());
        assert(idx@ =~= all_positions(idx.len() as nat));
    }
    assert(increasing(idx@));
    let sorted = sort_positions(&items, idx);
    proof {
        vstd::seq_lib::to_multiset_len(sorted@);
        vstd::seq_lib::to_multiset_len(all_positions(n as nat));
    }
    let ghost it = pending_view(items@);
    let mut r: Vec<PendingFunction> = Vec::new();
    let mut k: usize = 0;
    while k < sorted.len()
        invariant
            k <= sorted.len(),
            n == items.len(),
            it == pending_view(items@),
            in_range(sorted@, n as nat),
            sorted_by_key(it, sorted@),
            r.len() == k,
            forall|a: int| 0 <= a < k ==> #[trigger] r@[a]@ == it[sorted@[a] as int],
        decreases sorted.len() - k,
    {
        let p = sorted[k];
        let f = &items[p];
        assert(it[p as int] == f@);
        r.push(PendingFunction { path: f.path.clone(), header: f.header.clone(), source: f.source.clone(), line_number: f.line_number });
        k += 1;
    }
    proof {
        assert forall|i: int| 0 <= i < r.len() implies #[trigger] r@[i]@ == items@[sorted@[i] as int]@ by {
            assert(it[sorted@[i] as int] == items@[sorted@[i] as int]@);
        }
        assert forall|i: int, j: int| 0 <= i < j < r.len() implies key_le(pending_key(r@[i]@), pending_key(r@[j]@)) && (key_le(
            pending_key(r@[j]@),
            pending_key(r@[i]@),
        ) ==> sorted@[i] < sorted@[j]) by {
            assert(r@[i]@ == it[sorted@[i] as int]);
            assert(r@[j]@ == it[sorted@[j] as int]);
            assert(pos_before(it, sorted@[i], sorted@[j]));
        }
    }
    r
}

/// The embedding batches of `count` functions: consecutive ranges of
/// `EMBEDDING_BATCH_SIZE` positions, the last one holding what is left.
pub open spec fn batch_ranges(count: nat) -> Seq<(usize, usize)> {
    let n = (count + EMBEDDING_BATCH_SIZE - 1) / (EMBEDDING_BATCH_SIZE as int);
    Seq::new(
        n as nat,
        |k: int| ((k * EMBEDDING_BATCH_SIZE) as usize, (if (k + 1) * EMBEDDING_BATCH_SIZE < count { (k + 1) * EMBEDDING_BATCH_SIZE } else { count as int }) as usize),
    )
}

/// The ranges of positions that are embedded together, as `batch_ranges`
/// says.
pub fn embedding_batches(count: usize) -> (r: Vec<(usize, usize)>)
    ensures
        r@ == batch_ranges(count as nat),
{
    let mut r: Vec<(usize, usize)> = Vec::new();
    let mut start: usize = 0;
    while start < count
        invariant
            start <= count,
            start as int == r.len() * EMBEDDING_BATCH_SIZE || start == count,
            start < count ==> start as int == r.len() * EMBEDDING_BATCH_SIZE,
            r.len() * EMBEDDING_BATCH_SIZE <= start + EMBEDDING_BATCH_SIZE - 1 || start == count,
            forall|k: int| 0 <= k < r.len() ==> #[trigger] r@[k] == batch_ranges(count as nat)[k],
            r.len() <= batch_ranges(count as nat).len(),
            start < count ==> r.len() < batch_ranges(count as nat).len(),
            start == count ==> r.len() == batch_ranges(count as nat).len(),
        decreases count - start,
    {
        let end = if count - start > EMBEDDING_BATCH_SIZE { start + EMBEDDING_BATCH_SIZE } else { count };
        r.push((start, end));
        start = end;
    }
    assert(r@ =~= batch_ranges(count as nat));
    r
}

/// The graph over `n` functions: an empty graph with `m` 32 and `ef` 256,
/// function `k` inserted as record `k` on layers `0..=levels[k]`.
pub open spec fn build_spec(n: nat, levels: Seq<usize>, sim: spec_fn(usize, usize) -> i32) -> GraphModel
    decreases n,
{
    if n == 0 {
        GraphModel { nodes: Seq::empty(), entry_point: None, max_layer: 0, m: INGEST_M, ef: INGEST_EF }
    } else {
        insert_spec(build_spec((n - 1) as nat, levels, sim), (n - 1) as usize, levels[n - 1], sim)
    }
}

/// Builds the graph over the embedded functions, in order: function `k`
/// becomes record `k`, on layers `0..=levels[k]`; `sim` scores two
/// functions by position.
pub fn index_embedded_functions<G: Fn(usize, usize) -> i32>(levels: &Vec<usize>, sim: &G) -> (r: HnswIndex)
    requires
        levels.len() < usize::MAX,
        forall|k: int| 0 <= k < levels.len() ==> #[trigger] levels@[k] < usize::MAX,
        is_similarity(*sim, levels.len() as nat),
    ensures
        r@ == build_spec(levels.len() as nat, levels@, sim_fn(*sim)),
        r@.wf(),
        r.ids_wf(),
        r@.degree_bounded(),
        r.nodes.len() == levels.len(),
        forall|k: int| 0 <= k < levels.len() ==> #[trigger] r@.nodes[k].record_id == k,
        records_distinct(r@),
        undirected(r@.nodes),
{
    let mut index = HnswIndex::new(INGEST_M, INGEST_EF);
    let mut k: usize = 0;
    while k < levels.len()
        invariant
            k <= levels.len(),
            levels.len() < usize::MAX,
            forall|a: int| 0 <= a < levels.len() ==> #[trigger] levels@[a] < usize::MAX,
            is_similarity(*sim, levels.len() as nat),
            index@ == build_spec(k as nat, levels@, sim_fn(*sim)),
            index@.wf(),
            index.ids_wf(),
            index@.degree_bounded(),
            index.nodes.len() == k,
            forall|a: int| 0 <= a < k ==> #[trigger] index@.nodes[a].record_id == a,
            undirected(index@.nodes),
        decreases levels.len() - k,
    {
        assert(is_similarity(*sim, (k + 1) as nat));
        index.insert(k, levels[k], sim);
        k += 1;
    }
    assert(records_distinct(index@)) by {
        assert forall|a: int, b: int| 0 <= a < index@.nodes.len() && 0 <= b < index@.nodes.len() && a != b implies (
        #[trigger] index@.nodes[a]).record_id != (#[trigger] index@.nodes[b]).record_id by {
            assert(index@.nodes[a].record_id == a && index@.nodes[b].record_id == b);
        }
    }
    index
}

} // verus!
