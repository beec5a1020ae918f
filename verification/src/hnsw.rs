//! A hierarchical navigable small world graph over record ids.
//!
//! Nodes live on layers `0..=level`; each layer of a node holds the ids of
//! its neighbours on that layer. Search descends greedily from the entry
//! point through the upper layers, then runs a best-first search on layer 0.
//! Scores come from a [`Scorer`]; the graph itself holds no embeddings.
use vstd::prelude::*;
use crate::ranking::{
    all_satisfy, ids_of, insert_desc, is_desc, lemma_sort_desc_facts, sort_desc, sort_desc_exec, ScoredNode,
};
use crate::scoring::{
    is_scorer, is_similarity, query_fn, score_fn, sim_fn, sim_of, NodeScorer, QueryScorer, Scorer,
};
use crate::links::{lemma_link_keeps_undirected, lemma_prune_keeps_undirected, undirected};
use std::collections::HashSet;

verus! {

broadcast use vstd::std_specs::hash::group_hash_axioms;

/// The abstract state of one node: its record and its neighbour lists, one
/// per layer.
pub struct NodeModel {
    pub record_id: usize,
    pub layers: Seq<Seq<usize>>,
}

/// The abstract state of the graph.
pub struct GraphModel {
    pub nodes: Seq<NodeModel>,
    pub entry_point: Option<usize>,
    pub max_layer: usize,
    pub m: usize,
    pub ef: usize,
}

impl GraphModel {
    /// Number of layers of node `i`.
    pub open spec fn levels(self, i: usize) -> nat {
        self.nodes[i as int].layers.len()
    }

    /// Neighbours of node `i` on `layer`.
    pub open spec fn nbrs(self, i: usize, layer: int) -> Seq<usize> {
        self.nodes[i as int].layers[layer]
    }

    /// `j` is a node that lives on `layer`.
    pub open spec fn on_layer(self, j: usize, layer: int) -> bool {
        j < self.nodes.len() && 0 <= layer < self.levels(j)
    }

    /// Every node has at least one layer, and every link on a layer leads
    /// to a node that lives on that layer.
    pub open spec fn graph_wf(self) -> bool {
        &&& forall|i: int| 0 <= i < self.nodes.len() ==> #[trigger] self.nodes[i].layers.len() >= 1
        &&& forall|i: int, l: int, k: int|
            0 <= i < self.nodes.len() && 0 <= l < self.nodes[i].layers.len() && 0 <= k
                < self.nodes[i].layers[l].len() ==> self.on_layer(
                #[trigger] self.nodes[i].layers[l][k],
                l,
            )
    }

    /// A graph that search can walk: its links are well formed, and its
    /// entry point exists exactly when the graph has a node and lives on
    /// every layer up to `max_layer` (it may live on more).
    pub open spec fn searchable(self) -> bool {
        &&& self.graph_wf()
        &&& (self.entry_point is None <==> self.nodes.len() == 0)
        &&& (self.entry_point matches Some(e) ==> e < self.nodes.len() && self.levels(e)
            >= self.max_layer + 1)
    }

    /// No node lives above `max_layer`.
    pub open spec fn within_top_layer(self) -> bool {
        forall|i: int| 0 <= i < self.nodes.len() ==> #[trigger] self.nodes[i].layers.len() <= self.max_layer + 1
    }

    /// A well-formed graph: searchable, and no node lives above its top
    /// layer (so the entry point lives on exactly the layers up to it).
    pub open spec fn wf(self) -> bool {
        &&& self.searchable()
        &&& self.within_top_layer()
    }

    /// No neighbour list holds more than `m` ids.
    pub open spec fn degree_bounded(self) -> bool {
        forall|i: int, l: int|
            0 <= i < self.nodes.len() && 0 <= l < self.nodes[i].layers.len()
                ==> #[trigger] self.nodes[i].layers[l].len() <= self.m
    }
}

/// A node of the graph; `id` is its position among the nodes.
pub struct Node {
    pub id: usize,
    pub neighbours: Vec<Vec<usize>>,
    pub record_id: usize,
}

impl View for Node {
    type V = NodeModel;

    open spec fn view(&self) -> NodeModel {
        NodeModel {
            record_id: self.record_id,
            layers: self.neighbours@.map_values(|l: Vec<usize>| l@),
        }
    }
}

/// The graph: nodes, entry point, top layer, neighbour bound `m` and search
/// breadth `ef`.
pub struct HnswIndex {
    pub nodes: Vec<Node>,
    pub entry_point: Option<usize>,
    pub max_layer: usize,
    pub m: usize,
    pub ef: usize,
}

impl View for HnswIndex {
    type V = GraphModel;

    open spec fn view(&self) -> GraphModel {
        GraphModel {
            nodes: self.nodes@.map_values(|n: Node| n@),
            entry_point: self.entry_point,
            max_layer: self.max_layer,
            m: self.m,
            ef: self.ef,
        }
    }
}

impl HnswIndex {
    /// Every node's `id` is its position.
    pub open spec fn ids_wf(&self) -> bool {
        forall|i: int| 0 <= i < self.nodes.len() ==> (#[trigger] self.nodes@[i]).id == i
    }
}

/// The neighbours of a list paired with their scores.
pub open spec fn scored_list(list: Seq<usize>, s: spec_fn(usize) -> i32) -> Seq<ScoredNode> {
    list.map_values(|j: usize| (j, s(j)))
}

/// The neighbours of `i` on `layer`, most similar first (stable among equal
/// scores).
pub open spec fn most_similar(g: GraphModel, s: spec_fn(usize) -> i32, i: usize, layer: int) -> Seq<
    ScoredNode,
> {
    sort_desc(scored_list(g.nbrs(i, layer), s))
}

/// Greedy walk on `layer` from `cur`: move to the most similar neighbour as
/// long as it is strictly more similar than the current node.
pub open spec fn greedy(g: GraphModel, s: spec_fn(usize) -> i32, layer: int, cur: usize) -> usize
    decreases 0x7fff_ffffint - s(cur),
{
    let nb = most_similar(g, s, cur, layer);
    if nb.len() > 0 && s(nb[0].0) > s(cur) {
        greedy(g, s, layer, nb[0].0)
    } else {
        cur
    }
}

/// Greedy walks on the layers `hi` down to `lo + 1`, each starting where the
/// one above ended.
pub open spec fn descend(g: GraphModel, s: spec_fn(usize) -> i32, cur: usize, hi: int, lo: int) -> usize
    decreases hi - lo,
{
    if hi <= lo {
        cur
    } else {
        descend(g, s, greedy(g, s, hi, cur), hi - 1, lo)
    }
}

/// Pairs built by `scored_list` carry the score of their id.
pub proof fn lemma_scored_list(list: Seq<usize>, s: spec_fn(usize) -> i32, g: GraphModel, layer: int)
    ensures
        all_satisfy(scored_list(list, s), |e: ScoredNode| e.1 == s(e.0)),
        (forall|k: int| 0 <= k < list.len() ==> g.on_layer(#[trigger] list[k], layer)) ==> all_satisfy(
            scored_list(list, s),
            |e: ScoredNode| g.on_layer(e.0, layer),
        ),
{
}

/// The neighbours of `current_node` on `layer`, each with its score, most
/// similar first; equal scores keep their order in the neighbour list.
pub fn calculate_most_similiar_neighbours<S: Scorer>(
    current_node: &Node,
    scorer: &S,
    all_nodes: &HnswIndex,
    layer: usize,
) -> (r: Vec<ScoredNode>)
    requires
        all_nodes@.graph_wf(),
        current_node.id < all_nodes.nodes.len(),
        current_node@ == all_nodes@.nodes[current_node.id as int],
        layer < current_node.neighbours.len(),
        scorer.bound() >= all_nodes.nodes.len(),
    ensures
        r@ == most_similar(all_nodes@, score_fn(scorer), current_node.id, layer as int),
        is_desc(r@),
        r.len() == current_node.neighbours@[layer as int].len(),
        forall|k: int| 0 <= k < r.len() ==> (#[trigger] r@[k]).1 == scorer.score_spec(r@[k].0),
        forall|k: int| 0 <= k < r.len() ==> all_nodes@.on_layer((#[trigger] r@[k]).0, layer as int),
{
    let ghost g = all_nodes@;
    let ghost s = score_fn(scorer);
    let node_neighbours = &current_node.neighbours[layer];
    assert(node_neighbours@ == g.nbrs(current_node.id, layer as int));
    let mut scored: Vec<ScoredNode> = Vec::new();
    let mut k: usize = 0;
    while k < node_neighbours.len()
        invariant
            k <= node_neighbours.len(),
            node_neighbours@ == g.nbrs(current_node.id, layer as int),
            g == all_nodes@,
            s == score_fn(scorer),
            g.graph_wf(),
            current_node.id < g.nodes.len(),
            layer < g.levels(current_node.id),
            scorer.bound() >= g.nodes.len(),
            scored@ == scored_list(node_neighbours@.take(k as int), s),
        decreases node_neighbours.len() - k,
    {
        let node_id = node_neighbours[k];
        assert(g.on_layer(g.nodes[current_node.id as int].layers[layer as int][k as int], layer as int));
        let score = scorer.score(node_id);
        scored.push((node_id, score));
        k += 1;
        assert(scored_list(node_neighbours@.take(k as int), s) =~= scored_list(
            node_neighbours@.take(k - 1),
            s,
        ).push((node_id, score)));
    }
    assert(node_neighbours@.take(k as int) =~= node_neighbours@);
    let result = sort_desc_exec(&scored);
    proof {
        let list = node_neighbours@;
        lemma_scored_list(list, s, g, layer as int);
        assert forall|kk: int| 0 <= kk < list.len() implies g.on_layer(#[trigger] list[kk], layer as int) by {
            assert(list[kk] == g.nodes[current_node.id as int].layers[layer as int][kk]);
        }
        lemma_sort_desc_facts(scored@);
        assert(all_satisfy(result@, |e: ScoredNode| e.1 == s(e.0)));
        assert(all_satisfy(result@, |e: ScoredNode| g.on_layer(e.0, layer as int)));
        assert forall|kk: int| 0 <= kk < result.len() implies (#[trigger] result@[kk]).1
            == scorer.score_spec(result@[kk].0) by {
            let p = |e: ScoredNode| e.1 == s(e.0);
            assert(p(result@[kk]));
        }
        assert forall|kk: int| 0 <= kk < result.len() implies g.on_layer(
            (#[trigger] result@[kk]).0,
            layer as int,
        ) by {
            let p = |e: ScoredNode| g.on_layer(e.0, layer as int);
            assert(p(result@[kk]));
        }
    }
    result
}

/// Walks greedily on `layer` from `entry_point_id` towards the query: moves
/// to the most similar neighbour while it is strictly more similar, and
/// returns the node where no neighbour is.
pub fn search_greedy<S: Scorer>(index: &HnswIndex, scorer: &S, layer: usize, entry_point_id: usize) -> (r: usize)
    requires
        index@.graph_wf(),
        index.ids_wf(),
        index@.on_layer(entry_point_id, layer as int),
        scorer.bound() >= index.nodes.len(),
    ensures
        r == greedy(index@, score_fn(scorer), layer as int, entry_point_id),
        index@.on_layer(r, layer as int),
{
    let ghost g = index@;
    let ghost s = score_fn(scorer);
    let mut current_id = entry_point_id;
    loop
        invariant
            g == index@,
            s == score_fn(scorer),
            g.graph_wf(),
            index.ids_wf(),
            g.on_layer(current_id, layer as int),
            scorer.bound() >= index.nodes.len(),
            greedy(g, s, layer as int, current_id) == greedy(g, s, layer as int, entry_point_id),
        ensures
            current_id == greedy(g, s, layer as int, entry_point_id),
            g.on_layer(current_id, layer as int),
        decreases 0x7fff_ffffint - s(current_id),
    {
        let current_similarity = scorer.score(current_id);
        assert(index.nodes@[current_id as int]@ == g.nodes[current_id as int]);
        let most_similar_neighbours = calculate_most_similiar_neighbours(
            &index.nodes[current_id],
            scorer,
            index,
            layer,
        );
        if most_similar_neighbours.len() == 0 {
            assert(greedy(g, s, layer as int, current_id) == current_id);
            break;
        }
        let best_neighbour_id = most_similar_neighbours[0].0;
        let best_neighbour_similarity = most_similar_neighbours[0].1;
        if best_neighbour_similarity > current_similarity {
            current_id = best_neighbour_id;
        } else {
            assert(greedy(g, s, layer as int, current_id) == current_id);
            break;
        }
    }
    current_id
}


/// Order of scored nodes by score, then by id.
pub open spec fn key_lt(a: ScoredNode, b: ScoredNode) -> bool {
    a.1 < b.1 || (a.1 == b.1 && a.0 < b.0)
}

/// `q` is in ascending (score, id) order.
pub open spec fn sorted_asc(q: Seq<ScoredNode>) -> bool {
    forall|i: int, j: int| 0 <= i < j < q.len() ==> !key_lt(q[j], q[i])
}

/// `q` with `x` placed after every element not above it, scanning from the
/// back.
pub open spec fn insert_asc(q: Seq<ScoredNode>, x: ScoredNode) -> Seq<ScoredNode>
    decreases q.len(),
{
    if q.len() == 0 {
        seq![x]
    } else if !key_lt(x, q.last()) {
        q.push(x)
    } else {
        insert_asc(q.drop_last(), x).push(q.last())
    }
}

/// The state of a layer search: visited ids, candidates (ascending, the most
/// promising last) and the best nodes found (ascending, the worst first).
pub type LayerState = (Set<usize>, Seq<ScoredNode>, Seq<ScoredNode>);

/// One neighbour seen by the layer search. An unvisited neighbour is marked
/// visited; it joins the candidates and the best found while fewer than
/// `ef` are kept, or when it beats the worst of them, which then leaves.
pub open spec fn visit(s: spec_fn(usize) -> i32, ef: usize, st: LayerState, nb: usize) -> LayerState {
    if st.0.contains(nb) {
        st
    } else {
        let p = (nb, s(nb));
        if st.2.len() < ef {
            (st.0.insert(nb), insert_asc(st.1, p), insert_asc(st.2, p))
        } else if s(nb) > st.2[0].1 {
            (st.0.insert(nb), insert_asc(st.1, p), insert_asc(st.2, p).drop_first())
        } else {
            (st.0.insert(nb), st.1, st.2)
        }
    }
}

/// The neighbours of `list` seen in order.
pub open spec fn visit_all(s: spec_fn(usize) -> i32, ef: usize, st: LayerState, list: Seq<usize>) -> LayerState
    decreases list.len(),
{
    if list.len() == 0 {
        st
    } else {
        visit(s, ef, visit_all(s, ef, st, list.drop_last()), list.last())
    }
}

/// The states on which the layer search is defined.
pub open spec fn explore_ok(g: GraphModel, layer: int, st: LayerState) -> bool {
    &&& g.graph_wf()
    &&& st.0.finite()
    &&& forall|x: usize| st.0.contains(x) ==> x < g.nodes.len()
    &&& forall|k: int| 0 <= k < st.1.len() ==> g.on_layer((#[trigger] st.1[k]).0, layer)
}

/// The best-first search of one layer: take the most promising candidate;
/// stop when there is none or it is worse than the worst node found;
/// otherwise see its neighbours on the layer and go on.
pub open spec fn explore(g: GraphModel, s: spec_fn(usize) -> i32, ef: usize, layer: int, st: LayerState) -> Seq<ScoredNode>
    decreases 2 * (g.nodes.len() - st.0.len()) + st.1.len() when explore_ok(g, layer, st)
{
    if st.1.len() == 0 || st.2.len() == 0 {
        st.2
    } else {
        let top = st.1.last();
        if top.1 < st.2[0].1 {
            st.2
        } else {
            let before = (st.0, st.1.drop_last(), st.2);
            let list = g.nbrs(top.0, layer);
            proof {
                assert(g.on_layer(st.1[st.1.len() - 1].0, layer));
                assert forall|k: int| 0 <= k < list.len() implies #[trigger] list[k] < g.nodes.len() by {
                    assert(g.on_layer(g.nodes[top.0 as int].layers[layer][k], layer));
                }
                lemma_visit_all_bounds(s, ef, before, list, g.nodes.len());
                let after = visit_all(s, ef, before, list);
                lemma_bounded_set_len(after.0, g.nodes.len());
                vstd::set_lib::lemma_len_subset(st.0, after.0);
            }
            explore(g, s, ef, layer, visit_all(s, ef, before, list))
        }
    }
}

/// The search's starting state at `ep`.
pub open spec fn layer_start(s: spec_fn(usize) -> i32, ep: usize) -> LayerState {
    (set![ep], seq![(ep, s(ep))], seq![(ep, s(ep))])
}

/// The nodes a layer search from `ep` finds, most similar first (ties by
/// descending id).
pub open spec fn layer_result(g: GraphModel, s: spec_fn(usize) -> i32, ep: usize, ef: usize, layer: int) -> Seq<ScoredNode> {
    explore(g, s, ef, layer, layer_start(s, ep)).reverse()
}

/// A finite set of ids below `n` has at most `n` elements.
pub proof fn lemma_bounded_set_len(v: Set<usize>, n: nat)
    requires
        v.finite(),
        forall|x: usize| v.contains(x) ==> x < n,
    ensures
        v.len() <= n,
    decreases n,
{
    if n == 0 {
        assert(v =~= Set::<usize>::empty());
    } else {
        let top = (n - 1) as usize;
        let w = v.remove(top);
        assert forall|x: usize| w.contains(x) implies x < (n - 1) as nat by {}
        lemma_bounded_set_len(w, (n - 1) as nat);
    }
}

/// Seeing a list of ids below `n` keeps the visited set finite and below
/// `n`, only grows it, and adds at most one candidate per newly visited id.
pub proof fn lemma_visit_all_bounds(s: spec_fn(usize) -> i32, ef: usize, st: LayerState, list: Seq<usize>, n: nat)
    requires
        st.0.finite(),
        forall|x: usize| st.0.contains(x) ==> x < n,
        forall|k: int| 0 <= k < list.len() ==> #[trigger] list[k] < n,
    ensures
        ({
            let r = visit_all(s, ef, st, list);
            &&& r.0.finite()
            &&& forall|x: usize| r.0.contains(x) ==> x < n
            &&& st.0.subset_of(r.0)
            &&& r.1.len() + st.0.len() <= st.1.len() + r.0.len()
        }),
    decreases list.len(),
{
    if list.len() > 0 {
        let d = list.drop_last();
        assert forall|k: int| 0 <= k < d.len() implies #[trigger] d[k] < n by {
            assert(d[k] == list[k]);
        }
        lemma_visit_all_bounds(s, ef, st, d, n);
        let mid = visit_all(s, ef, st, d);
        let nb = list.last();
        assert(nb == list[list.len() - 1]);
        if !mid.0.contains(nb) {
            let p = (nb, s(nb));
            lemma_insert_asc_facts(mid.1, p);
            lemma_insert_asc_facts(mid.2, p);
        }
    }
}

/// `insert_asc` adds one element, keeps every property of the elements and
/// keeps the ascending order.
pub proof fn lemma_insert_asc_facts(q: Seq<ScoredNode>, x: ScoredNode)
    ensures
        insert_asc(q, x).len() == q.len() + 1,
        forall|p: spec_fn(ScoredNode) -> bool|
            all_satisfy(q, p) && p(x) ==> all_satisfy(#[trigger] insert_asc(q, x), p),
        sorted_asc(q) ==> sorted_asc(insert_asc(q, x)),
    decreases q.len(),
{
    if q.len() == 0 {
    } else if !key_lt(x, q.last()) {
        if sorted_asc(q) {
            assert forall|i: int, j: int| 0 <= i < j < q.push(x).len() implies !key_lt(
                q.push(x)[j],
                q.push(x)[i],
            ) by {
                if j == q.len() && i < q.len() - 1 {
                    assert(!key_lt(q[q.len() - 1], q[i]));
                }
            }
        }
    } else {
        let d = q.drop_last();
        lemma_insert_asc_facts(d, x);
        assert forall|p: spec_fn(ScoredNode) -> bool|
            all_satisfy(q, p) && p(x) implies all_satisfy(#[trigger] insert_asc(q, x), p) by {
            assert(all_satisfy(d, p));
            let r = insert_asc(d, x);
            assert forall|i: int| 0 <= i < r.push(q.last()).len() implies p(
                #[trigger] r.push(q.last())[i],
            ) by {
                if i < r.len() {
                    assert(r.push(q.last())[i] == r[i]);
                } else {
                    assert(p(q[q.len() - 1]));
                }
            }
        }
        if sorted_asc(q) {
            let r = insert_asc(d, x);
            assert(sorted_asc(d));
            let c = |e: ScoredNode| !key_lt(q.last(), e);
            assert(all_satisfy(d, c));
            assert(c(x));
            assert(all_satisfy(r, c));
            assert forall|i: int, j: int| 0 <= i < j < r.push(q.last()).len() implies !key_lt(
                r.push(q.last())[j],
                r.push(q.last())[i],
            ) by {
                if j < r.len() {
                } else {
                    assert(c(r[i]));
                }
            }
        }
    }
}

/// Splitting an ascending insertion at a point past which every element is
/// above `x`.
pub proof fn lemma_insert_asc_split(q: Seq<ScoredNode>, x: ScoredNode, k: int)
    requires
        0 <= k <= q.len(),
        forall|t: int| k <= t < q.len() ==> key_lt(x, q[t]),
    ensures
        insert_asc(q, x) == insert_asc(q.take(k), x) + q.skip(k),
    decreases q.len() - k,
{
    if k == q.len() {
        assert(q.take(k) =~= q);
        assert(insert_asc(q.take(k), x) + q.skip(k) =~= insert_asc(q, x));
    } else {
        let d = q.drop_last();
        lemma_insert_asc_split(d, x, k);
        assert(d.take(k) =~= q.take(k));
        assert(d.skip(k).push(q.last()) =~= q.skip(k));
        assert((insert_asc(d.take(k), x) + d.skip(k)).push(q.last()) =~= insert_asc(q.take(k), x)
            + q.skip(k));
    }
}

/// Inserts `x` into `out` the way `insert_asc` says.
pub fn insert_asc_exec(out: &mut Vec<ScoredNode>, x: ScoredNode)
    ensures
        final(out)@ == insert_asc(old(out)@, x),
{
    let mut j = out.len();
    while j > 0 && (x.1 < out[j - 1].1 || (x.1 == out[j - 1].1 && x.0 < out[j - 1].0))
        invariant
            j <= out.len(),
            out@ == old(out)@,
            forall|t: int| j <= t < out.len() ==> key_lt(x, out@[t]),
        decreases j,
    {
        j -= 1;
    }
    proof {
        let q = out@;
        lemma_insert_asc_split(q, x, j as int);
        if j > 0 {
            assert(q.take(j as int).drop_last() =~= q.take(j - 1));
        }
        assert(insert_asc(q.take(j as int), x) == q.take(j as int).push(x));
        assert(q.insert(j as int, x) =~= q.take(j as int).push(x) + q.skip(j as int));
    }
    out.insert(j, x);
}

/// No two entries of `q` are for the same node.
pub open spec fn distinct_ids(q: Seq<ScoredNode>) -> bool {
    forall|i: int, j: int| 0 <= i < j < q.len() ==> (#[trigger] q[i]).0 != (#[trigger] q[j]).0
}

/// `insert_asc` adds `x` to the elements of `q` and nothing else, so a node
/// that `q` does not hold appears in the result once.
pub proof fn lemma_insert_asc_ids(q: Seq<ScoredNode>, x: ScoredNode)
    ensures
        forall|i: int| 0 <= i < insert_asc(q, x).len() ==> #[trigger] insert_asc(q, x)[i] == x || q.contains(
            insert_asc(q, x)[i],
        ),
        distinct_ids(q) && (forall|i: int| 0 <= i < q.len() ==> (#[trigger] q[i]).0 != x.0) ==> distinct_ids(
            insert_asc(q, x),
        ),
    decreases q.len(),
{
    lemma_insert_asc_facts(q, x);
    if q.len() == 0 {
    } else if !key_lt(x, q.last()) {
        let r = q.push(x);
        assert forall|i: int| 0 <= i < r.len() implies #[trigger] r[i] == x || q.contains(r[i]) by {
            if i < q.len() {
                assert(r[i] == q[i]);
            }
        }
    } else {
        let d = q.drop_last();
        lemma_insert_asc_ids(d, x);
        let r0 = insert_asc(d, x);
        let r = r0.push(q.last());
        assert forall|i: int| 0 <= i < r.len() implies #[trigger] r[i] == x || q.contains(r[i]) by {
            if i < r0.len() {
                assert(r[i] == r0[i]);
                if r0[i] != x {
                    let t = choose|t: int| 0 <= t < d.len() && d[t] == r0[i];
                    assert(q[t] == d[t]);
                }
            } else {
                assert(q[q.len() - 1] == q.last());
            }
        }
        if distinct_ids(q) && (forall|i: int| 0 <= i < q.len() ==> (#[trigger] q[i]).0 != x.0) {
            assert(distinct_ids(d)) by {
                assert forall|i: int, j: int| 0 <= i < j < d.len() implies (#[trigger] d[i]).0 != (#[trigger] d[j]).0 by {
                    assert(d[i] == q[i] && d[j] == q[j]);
                }
            }
            assert forall|i: int| 0 <= i < d.len() implies (#[trigger] d[i]).0 != x.0 by {
                assert(d[i] == q[i]);
            }
            assert forall|i: int, j: int| 0 <= i < j < r.len() implies (#[trigger] r[i]).0 != (#[trigger] r[j]).0 by {
                if j == r.len() - 1 {
                    assert(r[j] == q[q.len() - 1]);
                    if r0[i] == x {
                        assert(q[q.len() - 1].0 != x.0);
                    } else {
                        let t = choose|t: int| 0 <= t < d.len() && d[t] == r0[i];
                        assert(q[t] == d[t]);
                    }
                } else {
                    assert(r[i] == r0[i] && r[j] == r0[j]);
                }
            }
        }
    }
}

/// A node found on `layer` carries its own score.
pub open spec fn found_on(g: GraphModel, s: spec_fn(usize) -> i32, layer: int) -> spec_fn(ScoredNode) -> bool {
    |e: ScoredNode| g.on_layer(e.0, layer) && e.1 == s(e.0)
}

/// The larger of `ef` and 1: the most nodes a layer search keeps.
pub open spec fn breadth(ef: usize) -> int {
    if ef > 1 { ef as int } else { 1 }
}

/// Best-first search of `layer` from `entry_point_id`, keeping up to `ef`
/// nodes; returns them most similar first.
pub fn search_layer<S: Scorer>(
    index: &HnswIndex,
    scorer: &S,
    entry_point_id: usize,
    ef: usize,
    layer: usize,
) -> (r: Vec<ScoredNode>)
    requires
        index@.graph_wf(),
        index@.on_layer(entry_point_id, layer as int),
        scorer.bound() >= index.nodes.len(),
    ensures
        r@ == layer_result(index@, score_fn(scorer), entry_point_id, ef, layer as int),
        1 <= r.len() <= breadth(ef),
        all_satisfy(r@, found_on(index@, score_fn(scorer), layer as int)),
        is_desc(r@),
        distinct_ids(r@),
{
    let ghost g = index@;
    let ghost s = score_fn(scorer);
    let ghost n = index.nodes.len();
    let ghost good = found_on(g, s, layer as int);
    let mut visited: HashSet<usize> = HashSet::new();
    visited.insert(entry_point_id);
    let entry_point_similarity = scorer.score(entry_point_id);
    let mut candidates: Vec<ScoredNode> = Vec::new();
    candidates.push((entry_point_id, entry_point_similarity));
    let mut best_found: Vec<ScoredNode> = Vec::new();
    best_found.push((entry_point_id, entry_point_similarity));
    let ghost init: LayerState = (visited@, candidates@, best_found@);
    proof {
        assert(init == layer_start(s, entry_point_id));
        assert(visited@.finite());
    }
    loop
        invariant_except_break
            explore(g, s, ef, layer as int, init) == explore(
                g,
                s,
                ef,
                layer as int,
                (visited@, candidates@, best_found@),
            ),
        invariant
            g == index@,
            s == score_fn(scorer),
            n == index.nodes.len(),
            good == found_on(g, s, layer as int),
            g.graph_wf(),
            scorer.bound() >= n,
            explore_ok(g, layer as int, (visited@, candidates@, best_found@)),
            visited@.len() <= n,
            all_satisfy(candidates@, good),
            all_satisfy(best_found@, good),
            sorted_asc(best_found@),
            1 <= best_found.len() <= breadth(ef),
            distinct_ids(best_found@),
            forall|i: int| 0 <= i < best_found.len() ==> visited@.contains((#[trigger] best_found@[i]).0),
        ensures
            best_found@ == explore(g, s, ef, layer as int, init),
            all_satisfy(best_found@, good),
            sorted_asc(best_found@),
            1 <= best_found.len() <= breadth(ef),
            distinct_ids(best_found@),
        decreases 2 * (n - visited@.len()) + candidates.len(),
    {
        let ghost before: LayerState = (visited@, candidates@, best_found@);
        if candidates.len() == 0 {
            break;
        }
        let best_candidate = candidates.pop().unwrap();
        proof {
            assert(good(before.1[before.1.len() - 1]));
        }
        let worst_found = best_found[0];
        if best_candidate.1 < worst_found.1 {
            break;
        }
        let neighbours = &index.nodes[best_candidate.0].neighbours[layer];
        let ghost list = neighbours@;
        let ghost start: LayerState = (visited@, candidates@, best_found@);
        proof {
            assert(list == g.nbrs(best_candidate.0, layer as int));
            assert(all_satisfy(candidates@, good));
        }
        let mut k: usize = 0;
        while k < neighbours.len()
            invariant
                k <= neighbours.len(),
                neighbours@ == list,
                list == g.nbrs(best_candidate.0, layer as int),
                g.on_layer(best_candidate.0, layer as int),
                g == index@,
                s == score_fn(scorer),
                n == index.nodes.len(),
                good == found_on(g, s, layer as int),
                g.graph_wf(),
                scorer.bound() >= n,
                (visited@, candidates@, best_found@) == visit_all(s, ef, start, list.take(k as int)),
                visited@.finite(),
                forall|x: usize| visited@.contains(x) ==> x < n,
                all_satisfy(candidates@, good),
                all_satisfy(best_found@, good),
                sorted_asc(best_found@),
                1 <= best_found.len() <= breadth(ef),
                distinct_ids(best_found@),
                forall|i: int| 0 <= i < best_found.len() ==> visited@.contains((#[trigger] best_found@[i]).0),
            decreases neighbours.len() - k,
        {
            let neighbour_id = neighbours[k];
            proof {
                assert(g.on_layer(g.nodes[best_candidate.0 as int].layers[layer as int][k as int], layer as int));
                assert(list.take(k + 1).drop_last() =~= list.take(k as int));
                assert(list.take(k + 1).last() == neighbour_id);
            }
            if !visited.contains(&neighbour_id) {
                let ghost visited_before = visited@;
                proof {
                    assert forall|i: int| 0 <= i < best_found.len() implies (#[trigger] best_found@[i]).0 != neighbour_id by {
                        assert(visited_before.contains(best_found@[i].0));
                    }
                }
                visited.insert(neighbour_id);
                let neighbour_similarity = scorer.score(neighbour_id);
                let new_scored_node = (neighbour_id, neighbour_similarity);
                proof {
                    assert(good(new_scored_node));
                    lemma_insert_asc_facts(candidates@, new_scored_node);
                    lemma_insert_asc_facts(best_found@, new_scored_node);
                    lemma_insert_asc_ids(best_found@, new_scored_node);
                }
                let ghost found_before = best_found@;
                if best_found.len() < ef {
                    insert_asc_exec(&mut candidates, new_scored_node);
                    insert_asc_exec(&mut best_found, new_scored_node);
                    proof {
                        assert forall|i: int| 0 <= i < best_found.len() implies visited@.contains((#[trigger] best_found@[i]).0) by {
                            if best_found@[i] != new_scored_node {
                                let t = choose|t: int| 0 <= t < found_before.len() && found_before[t] == best_found@[i];
                                assert(visited_before.contains(found_before[t].0));
                            }
                        }
                    }
                } else if neighbour_similarity > best_found[0].1 {
                    insert_asc_exec(&mut candidates, new_scored_node);
                    insert_asc_exec(&mut best_found, new_scored_node);
                    let ghost grown = best_found@;
                    best_found.remove(0);
                    proof {
                        assert(best_found@ =~= grown.drop_first());
                        assert forall|i: int, j: int| 0 <= i < j < best_found.len() implies (#[trigger] best_found@[i]).0
                            != (#[trigger] best_found@[j]).0 by {
                            assert(best_found@[i] == grown[i + 1] && best_found@[j] == grown[j + 1]);
                        }
                        assert forall|i: int| 0 <= i < best_found.len() implies good(
                            #[trigger] best_found@[i],
                        ) by {
                            assert(best_found@[i] == grown[i + 1]);
                        }
                        assert forall|i: int| 0 <= i < best_found.len() implies visited@.contains((#[trigger] best_found@[i]).0) by {
                            assert(best_found@[i] == grown[i + 1]);
                            if grown[i + 1] != new_scored_node {
                                let t = choose|t: int| 0 <= t < found_before.len() && found_before[t] == grown[i + 1];
                                assert(visited_before.contains(found_before[t].0));
                            }
                        }
                    }
                } else {
                    proof {
                        assert forall|i: int| 0 <= i < best_found.len() implies visited@.contains((#[trigger] best_found@[i]).0) by {
                            assert(visited_before.contains(best_found@[i].0));
                        }
                    }
                }
            }
            k += 1;
        }
        proof {
            assert(list.take(k as int) =~= list);
            lemma_bounded_set_len(visited@, n as nat);
            assert forall|t: int| 0 <= t < list.len() implies #[trigger] list[t] < n by {
                assert(g.on_layer(g.nodes[best_candidate.0 as int].layers[layer as int][t], layer as int));
            }
            lemma_visit_all_bounds(s, ef, start, list, n as nat);
            vstd::set_lib::lemma_len_subset(before.0, visited@);
            assert forall|i: int| 0 <= i < candidates.len() implies g.on_layer(
                (#[trigger] candidates@[i]).0,
                layer as int,
            ) by {
                assert(good(candidates@[i]));
            }
        }
    }
    let ghost found = best_found@;
    let mut result: Vec<ScoredNode> = Vec::new();
    let mut j = best_found.len();
    while j > 0
        invariant
            j <= best_found.len(),
            best_found@ == found,
            result@ == found.skip(j as int).reverse(),
        decreases j,
    {
        j -= 1;
        result.push(best_found[j]);
        assert(found.skip(j as int).reverse() =~= found.skip(j + 1).reverse().push(found[j as int]));
    }
    proof {
        assert(found.skip(0) =~= found);
        assert forall|i: int| 0 <= i < result.len() implies good(#[trigger] result@[i]) by {
            assert(result@[i] == found[found.len() - 1 - i]);
        }
        assert forall|a: int, b: int| 0 <= a < b < result.len() implies result@[a].1 >= result@[b].1 by {
            assert(result@[a] == found[found.len() - 1 - a]);
            assert(result@[b] == found[found.len() - 1 - b]);
            assert(!key_lt(found[found.len() - 1 - a], found[found.len() - 1 - b]));
        }
        assert forall|a: int, b: int| 0 <= a < b < result.len() implies (#[trigger] result@[a]).0 != (#[trigger] result@[b]).0 by {
            assert(result@[a] == found[found.len() - 1 - a]);
            assert(result@[b] == found[found.len() - 1 - b]);
        }
    }
    result
}


/// No two nodes of the graph hold the same record.
pub open spec fn records_distinct(g: GraphModel) -> bool {
    forall|a: int, b: int| 0 <= a < g.nodes.len() && 0 <= b < g.nodes.len() && a != b ==> (#[trigger] g.nodes[a]).record_id
        != (#[trigger] g.nodes[b]).record_id
}

/// The first `k` of `s`, or all of it when it is shorter.
pub open spec fn first_n<T>(s: Seq<T>, k: int) -> Seq<T> {
    s.take(if k < s.len() { k } else { s.len() as int })
}

/// Search: greedy descent from the entry point through the upper layers,
/// a best-first search of layer 0 with breadth `ef`, and the records of the
/// first `top_k` nodes found.
pub open spec fn search_spec(g: GraphModel, s: spec_fn(usize) -> i32, ef: usize, top_k: usize) -> Seq<usize> {
    let cur = descend(g, s, g.entry_point.unwrap(), g.max_layer as int, 0);
    let found = layer_result(g, s, cur, ef, 0);
    first_n(found, top_k as int).map_values(|e: ScoredNode| g.nodes[e.0 as int].record_id)
}

/// The records most similar to the query, at most `top_k` of them, most
/// similar first.
pub fn search<S: Scorer>(index: &HnswIndex, scorer: &S, ef: usize, top_k: usize) -> (r: Vec<usize>)
    requires
        index@.searchable(),
        index.ids_wf(),
        index.nodes.len() > 0,
        scorer.bound() >= index.nodes.len(),
    ensures
        r@ == search_spec(index@, score_fn(scorer), ef, top_k),
        r.len() <= top_k,
        records_distinct(index@) ==> r@.no_duplicates(),
{
    let ghost g = index@;
    let ghost s = score_fn(scorer);
    let entry = index.entry_point.unwrap();
    let mut current_id = entry;
    let mut layer = index.max_layer;
    while layer > 0
        invariant
            g == index@,
            s == score_fn(scorer),
            g.graph_wf(),
            index.ids_wf(),
            scorer.bound() >= index.nodes.len(),
            g.on_layer(current_id, layer as int),
            descend(g, s, current_id, layer as int, 0) == descend(g, s, entry, g.max_layer as int, 0),
        decreases layer,
    {
        current_id = search_greedy(index, scorer, layer, current_id);
        layer -= 1;
    }
    let results = search_layer(index, scorer, current_id, ef, 0);
    let ghost shown = first_n(results@, top_k as int);
    let mut r: Vec<usize> = Vec::new();
    let mut k: usize = 0;
    while k < results.len() && k < top_k
        invariant
            k <= results.len(),
            k <= top_k,
            g == index@,
            all_satisfy(results@, found_on(g, s, 0)),
            r@ == results@.take(k as int).map_values(|e: ScoredNode| g.nodes[e.0 as int].record_id),
        decreases results.len() - k,
    {
        let id = results[k].0;
        proof {
            let p = found_on(g, s, 0);
            assert(p(results@[k as int]));
        }
        r.push(index.nodes[id].record_id);
        k += 1;
        assert(results@.take(k as int).map_values(|e: ScoredNode| g.nodes[e.0 as int].record_id)
            =~= results@.take(k - 1).map_values(|e: ScoredNode| g.nodes[e.0 as int].record_id).push(
            g.nodes[id as int].record_id,
        ));
    }
    proof {
        assert(first_n(results@, top_k as int) =~= results@.take(k as int));
        if records_distinct(g) {
            assert forall|a: int, b: int| 0 <= a < r.len() && 0 <= b < r.len() && a != b implies r@[a] != r@[b] by {
                let p = found_on(g, s, 0);
                assert(p(results@[a]) && p(results@[b]));
                assert(r@[a] == g.nodes[results@[a].0 as int].record_id);
                assert(r@[b] == g.nodes[results@[b].0 as int].record_id);
                if a < b {
                    assert(results@[a].0 != results@[b].0);
                } else {
                    assert(results@[b].0 != results@[a].0);
                }
            }
        }
    }
    r
}

/// The nodes with the list of `i` on `layer` replaced by `list`.
pub open spec fn set_list(nodes: Seq<NodeModel>, i: usize, layer: int, list: Seq<usize>) -> Seq<NodeModel> {
    nodes.update(
        i as int,
        NodeModel { record_id: nodes[i as int].record_id, layers: nodes[i as int].layers.update(layer, list) },
    )
}

/// `list` without any occurrence of `x`.
pub open spec fn without(list: Seq<usize>, x: usize) -> Seq<usize>
    decreases list.len(),
{
    if list.len() == 0 {
        list
    } else {
        let rest = without(list.drop_last(), x);
        if list.last() == x {
            rest
        } else {
            rest.push(list.last())
        }
    }
}

/// Removes the link to `p` on `layer` from each node of `removed` that lives
/// on that layer, in order.
pub open spec fn drop_back_edges(nodes: Seq<NodeModel>, removed: Seq<usize>, p: usize, layer: int) -> Seq<NodeModel>
    decreases removed.len(),
{
    if removed.len() == 0 {
        nodes
    } else {
        let prev = drop_back_edges(nodes, removed.drop_last(), p, layer);
        let r = removed.last();
        if layer < prev[r as int].layers.len() {
            set_list(prev, r, layer, without(prev[r as int].layers[layer], p))
        } else {
            prev
        }
    }
}

/// Pruning node `p` on `layer`: when it has more than `m` neighbours there,
/// keep the `m` most similar to `p` (stable among equal scores), and remove
/// `p` from the lists of the neighbours dropped.
pub open spec fn prune_node(nodes: Seq<NodeModel>, m: usize, sim: spec_fn(usize, usize) -> i32, p: usize, layer: int) -> Seq<NodeModel> {
    let list = nodes[p as int].layers[layer];
    if list.len() <= m {
        nodes
    } else {
        let ranked = sort_desc(scored_list(list, |j: usize| sim(p, j)));
        let kept = ids_of(ranked.take(m as int));
        let removed = ids_of(ranked.skip(m as int));
        drop_back_edges(set_list(nodes, p, layer, kept), removed, p, layer)
    }
}

/// Elements of `without` are elements of the list.
pub proof fn lemma_without(list: Seq<usize>, x: usize, q: spec_fn(usize) -> bool)
    requires
        forall|k: int| 0 <= k < list.len() ==> q(#[trigger] list[k]),
    ensures
        without(list, x).len() <= list.len(),
        forall|k: int| 0 <= k < without(list, x).len() ==> q(#[trigger] without(list, x)[k]),
    decreases list.len(),
{
    if list.len() > 0 {
        let d = list.drop_last();
        assert forall|k: int| 0 <= k < d.len() implies q(#[trigger] d[k]) by {
            assert(d[k] == list[k]);
        }
        lemma_without(d, x, q);
        assert(q(list[list.len() - 1]));
    }
}

/// `list` with every `x` removed, in order.
pub fn remove_all(list: &Vec<usize>, x: usize) -> (r: Vec<usize>)
    ensures
        r@ == without(list@, x),
{
    let mut r: Vec<usize> = Vec::new();
    let mut k: usize = 0;
    while k < list.len()
        invariant
            k <= list.len(),
            r@ == without(list@.take(k as int), x),
        decreases list.len() - k,
    {
        assert(list@.take(k + 1).drop_last() =~= list@.take(k as int));
        if list[k] != x {
            r.push(list[k]);
        }
        k += 1;
    }
    assert(list@.take(k as int) =~= list@);
    r
}

/// The ids of `ranked` from position `from` to position `to`.
pub fn ids_between(ranked: &Vec<ScoredNode>, from: usize, to: usize) -> (r: Vec<usize>)
    requires
        from <= to <= ranked.len(),
    ensures
        r@ == ids_of(ranked@.subrange(from as int, to as int)),
{
    let mut r: Vec<usize> = Vec::new();
    let mut k = from;
    while k < to
        invariant
            from <= k <= to,
            to <= ranked.len(),
            r@ == ids_of(ranked@.subrange(from as int, k as int)),
        decreases to - k,
    {
        r.push(ranked[k].0);
        k += 1;
        assert(ids_of(ranked@.subrange(from as int, k as int)) =~= ids_of(
            ranked@.subrange(from as int, k - 1),
        ).push(ranked@[k - 1].0));
    }
    r
}

/// Node counts, layer counts, the record ids and the ids stay as they were.
pub open spec fn same_shape(a: GraphModel, b: GraphModel) -> bool {
    &&& a.nodes.len() == b.nodes.len()
    &&& forall|i: int| 0 <= i < a.nodes.len() ==> (#[trigger] a.nodes[i]).layers.len() == b.nodes[i].layers.len()
        && a.nodes[i].record_id == b.nodes[i].record_id
}

/// Replaces the list of node `i` on `layer`.
pub fn set_neighbours(index: &mut HnswIndex, i: usize, layer: usize, list: Vec<usize>)
    requires
        i < old(index).nodes.len(),
        layer < old(index).nodes[i as int].neighbours.len(),
    ensures
        final(index)@ == (GraphModel { nodes: set_list(old(index)@.nodes, i, layer as int, list@), ..old(index)@ }),
        final(index).nodes@[i as int].id == old(index).nodes@[i as int].id,
        forall|j: int| 0 <= j < final(index).nodes.len() && j != i ==> final(index).nodes@[j] == old(index).nodes@[j],
        final(index).nodes.len() == old(index).nodes.len(),
{
    let ghost before = index@;
    let ghost old_node = index.nodes@[i as int];
    let ghost list_view = list@;
    index.nodes[i].neighbours[layer] = list;
    proof {
        let want = set_list(before.nodes, i, layer as int, list_view);
        assert forall|j: int| 0 <= j < index@.nodes.len() implies #[trigger] index@.nodes[j] == want[j] by {
            if j == i {
                let nd = index.nodes@[j];
                assert(nd.neighbours@.len() == old_node.neighbours@.len());
                assert(nd@.layers =~= want[j].layers) by {
                    assert forall|l: int| 0 <= l < nd.neighbours@.len() implies nd@.layers[l] == want[j].layers[l] by {
                        if l != layer {
                            assert(nd.neighbours@[l] == old_node.neighbours@[l]);
                        }
                    }
                }
            }
        }
        assert(index@.nodes =~= want);
    }
}

/// Keeps the `m` neighbours of `node_to_prune_id` on `layer` most similar
/// to it, when it has more than `m` there, and unlinks the others from it.
pub fn prune<G: Fn(usize, usize) -> i32>(index: &mut HnswIndex, node_to_prune_id: usize, layer: usize, sim: &G)
    requires
        old(index)@.graph_wf(),
        old(index).ids_wf(),
        old(index)@.on_layer(node_to_prune_id, layer as int),
        is_similarity(*sim, old(index).nodes.len() as nat),
    ensures
        final(index)@ == (GraphModel {
            nodes: prune_node(old(index)@.nodes, old(index).m, sim_fn(*sim), node_to_prune_id, layer as int),
            ..old(index)@
        }),
        final(index)@.graph_wf(),
        final(index).ids_wf(),
        same_shape(old(index)@, final(index)@),
        forall|i: int, l: int|
            0 <= i < final(index)@.nodes.len() && 0 <= l < final(index)@.nodes[i].layers.len() && !(i
                == node_to_prune_id && l == layer) ==> #[trigger] final(index)@.nodes[i].layers[l].len()
                <= old(index)@.nodes[i].layers[l].len(),
        final(index)@.nodes[node_to_prune_id as int].layers[layer as int].len() <= if old(
            index,
        )@.nodes[node_to_prune_id as int].layers[layer as int].len() > old(index).m {
            old(index).m as int
        } else {
            old(index)@.nodes[node_to_prune_id as int].layers[layer as int].len() as int
        },
{
    let ghost g0 = index@;
    let ghost sf = sim_fn(*sim);
    let ghost n = index.nodes.len();
    let p = node_to_prune_id;
    if index.nodes[p].neighbours[layer].len() <= index.m {
        assert(g0.nodes[p as int].layers[layer as int] == index.nodes@[p as int].neighbours@[layer as int]@);
        return;
    }
    let neighbour_ids = &index.nodes[p].neighbours[layer];
    let ghost list = neighbour_ids@;
    assert(list == g0.nbrs(p, layer as int));
    let ghost s = |j: usize| sf(p, j);
    let mut scored: Vec<ScoredNode> = Vec::new();
    let mut k: usize = 0;
    while k < neighbour_ids.len()
        invariant
            k <= neighbour_ids.len(),
            neighbour_ids@ == list,
            list == g0.nbrs(p, layer as int),
            g0.graph_wf(),
            g0.on_layer(p, layer as int),
            n == g0.nodes.len(),
            is_similarity(*sim, n as nat),
            sf == sim_fn(*sim),
            s == (|j: usize| sf(p, j)),
            scored@ == scored_list(list.take(k as int), s),
        decreases neighbour_ids.len() - k,
    {
        let neighbour_id = neighbour_ids[k];
        assert(g0.on_layer(g0.nodes[p as int].layers[layer as int][k as int], layer as int));
        let score = sim(p, neighbour_id);
        scored.push((neighbour_id, score));
        k += 1;
        assert(scored_list(list.take(k as int), s) =~= scored_list(list.take(k - 1), s).push(
            (neighbour_id, score),
        ));
    }
    assert(list.take(k as int) =~= list);
    let ranked = sort_desc_exec(&scored);
    let m = index.m;
    proof {
        lemma_sort_desc_facts(scored@);
        lemma_scored_list(list, s, g0, layer as int);
        assert forall|kk: int| 0 <= kk < list.len() implies g0.on_layer(#[trigger] list[kk], layer as int) by {
            assert(list[kk] == g0.nodes[p as int].layers[layer as int][kk]);
        }
        assert(all_satisfy(ranked@, |e: ScoredNode| g0.on_layer(e.0, layer as int)));
    }
    let kept = ids_between(&ranked, 0, m);
    let removed = ids_between(&ranked, m, ranked.len());
    proof {
        assert(ranked@.subrange(0, m as int) =~= ranked@.take(m as int));
        assert(ranked@.subrange(m as int, ranked.len() as int) =~= ranked@.skip(m as int));
    }
    let ghost kept_view = kept@;
    let ghost removed_view = removed@;
    set_neighbours(index, p, layer, kept);
    let ghost after_kept = set_list(g0.nodes, p, layer as int, kept_view);
    proof {
        assert forall|kk: int| 0 <= kk < kept_view.len() implies g0.on_layer(#[trigger] kept_view[kk], layer as int) by {
            let q = |e: ScoredNode| g0.on_layer(e.0, layer as int);
            assert(q(ranked@[kk]));
        }
        assert forall|kk: int| 0 <= kk < removed_view.len() implies g0.on_layer(#[trigger] removed_view[kk], layer as int) by {
            let q = |e: ScoredNode| g0.on_layer(e.0, layer as int);
            assert(q(ranked@[m + kk]));
        }
        assert(index@.graph_wf());
    }
    let mut t: usize = 0;
    while t < removed.len()
        invariant
            t <= removed.len(),
            removed@ == removed_view,
            g0.on_layer(p, layer as int),
            forall|kk: int| 0 <= kk < removed_view.len() ==> g0.on_layer(#[trigger] removed_view[kk], layer as int),
            index@.nodes == drop_back_edges(after_kept, removed_view.take(t as int), p, layer as int),
            index@.graph_wf(),
            index.ids_wf(),
            same_shape(g0, index@),
            index.m == g0.m,
            index.ef == g0.ef,
            index.entry_point == g0.entry_point,
            index.max_layer == g0.max_layer,
            kept_view.len() <= m,
            m == g0.m,
            index@.nodes[p as int].layers[layer as int].len() <= kept_view.len(),
            forall|i: int, l: int|
                0 <= i < index@.nodes.len() && 0 <= l < index@.nodes[i].layers.len() && !(i == p && l
                    == layer) ==> #[trigger] index@.nodes[i].layers[l].len() <= g0.nodes[i].layers[l].len(),
        decreases removed.len() - t,
    {
        let removed_id = removed[t];
        assert(removed_view.take(t + 1).drop_last() =~= removed_view.take(t as int));
        assert(g0.on_layer(removed_view[t as int], layer as int));
        if layer < index.nodes[removed_id].neighbours.len() {
            let ghost before = index@;
            let trimmed = remove_all(&index.nodes[removed_id].neighbours[layer], p);
            proof {
                let old_list = before.nodes[removed_id as int].layers[layer as int];
                assert(index.nodes@[removed_id as int].neighbours@[layer as int]@ == old_list);
                assert forall|kk: int| 0 <= kk < old_list.len() implies before.on_layer(#[trigger] old_list[kk], layer as int) by {
                    assert(before.on_layer(before.nodes[removed_id as int].layers[layer as int][kk], layer as int));
                }
                lemma_without(old_list, p, |j: usize| before.on_layer(j, layer as int));
            }
            let ghost trimmed_view = trimmed@;
            set_neighbours(index, removed_id, layer, trimmed);
            proof {
                assert(index@.nodes == set_list(before.nodes, removed_id, layer as int, trimmed_view));
                if removed_id == p {
                    assert(index@.nodes[p as int].layers[layer as int] == trimmed_view);
                } else {
                    assert(index@.nodes[p as int] == before.nodes[p as int]);
                }
            }
        }
        t += 1;
    }
    proof {
        assert(removed_view.take(t as int) =~= removed_view);
        assert(index@.nodes == prune_node(g0.nodes, g0.m, sf, p, layer as int));
        assert(index@ =~= (GraphModel { nodes: prune_node(g0.nodes, g0.m, sf, p, layer as int), ..g0 }));
    }
}


/// The neighbours a new node takes on `layer`: the first `m` nodes a layer
/// search from `cur` finds.
pub open spec fn chosen(g: GraphModel, s: spec_fn(usize) -> i32, cur: usize, layer: int) -> Seq<usize> {
    ids_of(first_n(layer_result(g, s, cur, g.ef, layer), g.m as int))
}

/// The neighbours chosen on each layer from `layer` down to 0: each layer's
/// search starts at the best node chosen on the layer above, or where that
/// search started when it chose none. Index `l` holds layer `l`.
pub open spec fn select_layers(g: GraphModel, s: spec_fn(usize) -> i32, cur: usize, layer: int) -> Seq<Seq<usize>>
    decreases layer,
{
    let here = chosen(g, s, cur, layer);
    let next = if here.len() > 0 { here[0] } else { cur };
    if layer <= 0 {
        seq![here]
    } else {
        select_layers(g, s, next, layer - 1).push(here)
    }
}

/// The views of a list of lists.
pub open spec fn lists_view(v: Seq<Vec<usize>>) -> Seq<Seq<usize>> {
    v.map_values(|l: Vec<usize>| l@)
}

/// The ids of the first `k` scored nodes, or of all when there are fewer.
pub fn first_ids(found: &Vec<ScoredNode>, k: usize) -> (r: Vec<usize>)
    ensures
        r@ == ids_of(first_n(found@, k as int)),
        r.len() <= k,
{
    let end = if k < found.len() { k } else { found.len() };
    let r = ids_between(found, 0, end);
    assert(found@.subrange(0, end as int) =~= first_n(found@, k as int));
    r
}

/// Descends to the new node's top layer and chooses its neighbours on every
/// layer it shares with the graph.
pub fn select_for_insert<S: Scorer>(index: &HnswIndex, scorer: &S, level: usize) -> (sel: Vec<Vec<usize>>)
    requires
        index@.wf(),
        index.ids_wf(),
        index.nodes.len() > 0,
        scorer.bound() >= index.nodes.len(),
        level < usize::MAX,
    ensures
        ({
            let g = index@;
            let s = score_fn(scorer);
            let top = if level < g.max_layer { level } else { g.max_layer };
            let cur = descend(g, s, g.entry_point.unwrap(), g.max_layer as int, level as int);
            &&& lists_view(sel@) == select_layers(g, s, cur, top as int)
            &&& sel.len() == top + 1
            &&& forall|l: int, k: int|
                0 <= l < sel.len() && 0 <= k < sel@[l].len() ==> g.on_layer(#[trigger] sel@[l]@[k], l)
            &&& forall|l: int| 0 <= l < sel.len() ==> (#[trigger] sel@[l]).len() <= g.m
            &&& forall|l: int| 0 <= l < sel.len() ==> (#[trigger] sel@[l])@.no_duplicates()
        }),
{
    let ghost g = index@;
    let ghost s = score_fn(scorer);
    let entry = index.entry_point.unwrap();
    let mut current_id = entry;
    let mut layer = index.max_layer;
    while layer > level
        invariant
            g == index@,
            s == score_fn(scorer),
            g.graph_wf(),
            index.ids_wf(),
            scorer.bound() >= index.nodes.len(),
            layer <= g.max_layer,
            layer == g.max_layer || layer >= level,
            g.on_layer(current_id, layer as int),
            descend(g, s, current_id, layer as int, level as int) == descend(
                g,
                s,
                entry,
                g.max_layer as int,
                level as int,
            ),
        decreases layer,
    {
        current_id = search_greedy(index, scorer, layer, current_id);
        layer -= 1;
    }
    let top = if level < index.max_layer { level } else { index.max_layer };
    assert(layer == top);
    assert(descend(g, s, current_id, layer as int, level as int) == current_id);
    let ghost cur0 = current_id;
    let mut sel: Vec<Vec<usize>> = Vec::new();
    let mut f: usize = 0;
    while f <= top
        invariant
            top < usize::MAX,
            f <= top + 1,
            sel.len() == f,
            forall|l: int| 0 <= l < f ==> (#[trigger] sel@[l])@ == Seq::<usize>::empty(),
        decreases top + 1 - f,
    {
        sel.push(Vec::new());
        f += 1;
    }
    let mut l = top;
    loop
        invariant
            g == index@,
            s == score_fn(scorer),
            g.graph_wf(),
            index.ids_wf(),
            scorer.bound() >= index.nodes.len(),
            l <= top,
            sel.len() == top + 1,
            g.on_layer(current_id, l as int),
            select_layers(g, s, cur0, top as int) == select_layers(g, s, current_id, l as int) + lists_view(
                sel@,
            ).skip(l + 1),
            forall|a: int, k: int|
                l < a < sel.len() && 0 <= k < sel@[a].len() ==> g.on_layer(#[trigger] sel@[a]@[k], a),
            forall|a: int| l < a < sel.len() ==> (#[trigger] sel@[a]).len() <= g.m,
            forall|a: int| l < a < sel.len() ==> (#[trigger] sel@[a])@.no_duplicates(),
        ensures
            lists_view(sel@) == select_layers(g, s, cur0, top as int),
            sel.len() == top + 1,
            forall|a: int, k: int|
                0 <= a < sel.len() && 0 <= k < sel@[a].len() ==> g.on_layer(#[trigger] sel@[a]@[k], a),
            forall|a: int| 0 <= a < sel.len() ==> (#[trigger] sel@[a]).len() <= g.m,
            forall|a: int| 0 <= a < sel.len() ==> (#[trigger] sel@[a])@.no_duplicates(),
        decreases l,
    {
        let found = search_layer(index, scorer, current_id, index.ef, l);
        let here = first_ids(&found, index.m);
        let ghost here_view = here@;
        proof {
            assert(here_view == chosen(g, s, current_id, l as int));
            assert forall|k: int| 0 <= k < here_view.len() implies g.on_layer(#[trigger] here_view[k], l as int) by {
                let q = found_on(g, s, l as int);
                assert(q(found@[k]));
            }
            assert forall|a: int, b: int| 0 <= a < here_view.len() && 0 <= b < here_view.len() && a != b implies here_view[a]
                != here_view[b] by {
                assert(here_view[a] == found@[a].0 && here_view[b] == found@[b].0);
                if a < b {
                    assert(found@[a].0 != found@[b].0);
                } else {
                    assert(found@[b].0 != found@[a].0);
                }
            }
        }
        let next = if here.len() > 0 { here[0] } else { current_id };
        let ghost before = sel@;
        sel[l] = here;
        proof {
            assert(sel@ == before.update(l as int, sel@[l as int]));
            assert(sel@[l as int]@ == here_view);
            assert(lists_view(sel@).skip(l as int) =~= lists_view(before).skip(l + 1).insert(0, here_view));
        }
        if l == 0 {
            proof {
                assert(select_layers(g, s, current_id, 0) == seq![here_view]);
                assert(lists_view(sel@) =~= seq![here_view] + lists_view(before).skip(1));
            }
            break;
        }
        proof {
            assert(select_layers(g, s, current_id, l as int) == select_layers(g, s, next, l - 1).push(here_view));
            assert(select_layers(g, s, next, l - 1).push(here_view) + lists_view(before).skip(l + 1)
                =~= select_layers(g, s, next, l - 1) + lists_view(sel@).skip(l as int));
        }
        current_id = next;
        l -= 1;
    }
    sel
}


/// A new node with record `rid`, layers `0..=level`, and on each layer
/// below `sel.len()` the neighbours chosen there.
pub open spec fn new_node(rid: usize, level: usize, sel: Seq<Seq<usize>>) -> NodeModel {
    NodeModel {
        record_id: rid,
        layers: Seq::new((level + 1) as nat, |l: int| if l < sel.len() { sel[l] } else { Seq::empty() }),
    }
}

/// Appends `new_id` to the list on `layer` of each node of `list`, in order.
pub open spec fn add_back_edges(nodes: Seq<NodeModel>, list: Seq<usize>, layer: int, new_id: usize) -> Seq<NodeModel>
    decreases list.len(),
{
    if list.len() == 0 {
        nodes
    } else {
        let prev = add_back_edges(nodes, list.drop_last(), layer, new_id);
        let j = list.last();
        set_list(prev, j, layer, prev[j as int].layers[layer].push(new_id))
    }
}

/// Links `new_id` back from its chosen neighbours, layer `layer` first and
/// down to layer 0.
pub open spec fn link_layers(nodes: Seq<NodeModel>, sel: Seq<Seq<usize>>, layer: int, new_id: usize) -> Seq<NodeModel>
    decreases layer + 1,
{
    if layer < 0 {
        nodes
    } else {
        link_layers(add_back_edges(nodes, sel[layer], layer, new_id), sel, layer - 1, new_id)
    }
}

/// The (node, layer) pairs to prune after linking: each chosen neighbour,
/// layer `layer` first and down to layer 0.
pub open spec fn prune_pairs(sel: Seq<Seq<usize>>, layer: int) -> Seq<(usize, usize)>
    decreases layer + 1,
{
    if layer < 0 {
        Seq::empty()
    } else {
        sel[layer].map_values(|j: usize| (j, layer as usize)) + prune_pairs(sel, layer - 1)
    }
}

/// Prunes each pair of `pairs`, in order.
pub open spec fn prune_all(nodes: Seq<NodeModel>, m: usize, sim: spec_fn(usize, usize) -> i32, pairs: Seq<(usize, usize)>) -> Seq<NodeModel>
    decreases pairs.len(),
{
    if pairs.len() == 0 {
        nodes
    } else {
        prune_all(prune_node(nodes, m, sim, pairs[0].0, pairs[0].1 as int), m, sim, pairs.drop_first())
    }
}

/// Inserting a node with record `rid` on layers `0..=level`. Into an empty
/// graph it becomes the entry point. Otherwise: descend greedily to its top
/// layer, choose its neighbours on each layer it shares with the graph,
/// append it, link it back from them, make it the entry point when it is
/// taller than the graph, and prune every neighbour it was linked from.
pub open spec fn insert_spec(g: GraphModel, rid: usize, level: usize, sim: spec_fn(usize, usize) -> i32) -> GraphModel {
    let n = g.nodes.len();
    if n == 0 {
        GraphModel {
            nodes: seq![new_node(rid, level, Seq::empty())],
            entry_point: Some(0),
            max_layer: level,
            ..g
        }
    } else {
        let s = |i: usize| sim(n as usize, i);
        let cur = descend(g, s, g.entry_point.unwrap(), g.max_layer as int, level as int);
        let top = if level < g.max_layer { level } else { g.max_layer };
        let sel = select_layers(g, s, cur, top as int);
        let linked = link_layers(g.nodes.push(new_node(rid, level, sel)), sel, top as int, n as usize);
        GraphModel {
            nodes: prune_all(linked, g.m, sim, prune_pairs(sel, top as int)),
            entry_point: if level > g.max_layer { Some(n as usize) } else { g.entry_point },
            max_layer: if level > g.max_layer { level } else { g.max_layer },
            ..g
        }
    }
}

/// Appends `x` to the list of node `i` on `layer`.
pub fn add_neighbour(index: &mut HnswIndex, i: usize, layer: usize, x: usize)
    requires
        i < old(index).nodes.len(),
        layer < old(index).nodes[i as int].neighbours.len(),
    ensures
        final(index)@ == (GraphModel {
            nodes: set_list(old(index)@.nodes, i, layer as int, old(index)@.nodes[i as int].layers[layer as int].push(x)),
            ..old(index)@
        }),
        final(index).nodes@[i as int].id == old(index).nodes@[i as int].id,
        forall|j: int| 0 <= j < final(index).nodes.len() && j != i ==> final(index).nodes@[j] == old(index).nodes@[j],
        final(index).nodes.len() == old(index).nodes.len(),
{
    let ghost before = index@;
    let ghost old_node = index.nodes@[i as int];
    index.nodes[i].neighbours[layer].push(x);
    proof {
        let want = set_list(before.nodes, i, layer as int, before.nodes[i as int].layers[layer as int].push(x));
        assert forall|j: int| 0 <= j < index@.nodes.len() implies #[trigger] index@.nodes[j] == want[j] by {
            if j == i {
                let nd = index.nodes@[j];
                assert(nd@.layers =~= want[j].layers) by {
                    assert forall|l: int| 0 <= l < nd.neighbours@.len() implies nd@.layers[l] == want[j].layers[l] by {
                        if l != layer {
                            assert(nd.neighbours@[l] == old_node.neighbours@[l]);
                        }
                    }
                }
            }
        }
        assert(index@.nodes =~= want);
    }
}

/// A copy of a list of ids.
pub fn copy_ids(v: &Vec<usize>) -> (r: Vec<usize>)
    ensures
        r@ == v@,
{
    let mut r: Vec<usize> = Vec::new();
    let mut k: usize = 0;
    while k < v.len()
        invariant
            k <= v.len(),
            r@ == v@.take(k as int),
        decreases v.len() - k,
    {
        r.push(v[k]);
        k += 1;
        assert(r@ =~= v@.take(k as int));
    }
    assert(v@.take(k as int) =~= v@);
    r
}

/// The node's lists: the chosen neighbours on the shared layers, empty lists
/// above them.
pub fn new_neighbour_lists(level: usize, sel: &Vec<Vec<usize>>) -> (r: Vec<Vec<usize>>)
    requires
        level < usize::MAX,
    ensures
        lists_view(r@) == new_node(0, level, lists_view(sel@)).layers,
        r.len() == level + 1,
{
    let ghost want = new_node(0, level, lists_view(sel@)).layers;
    let mut r: Vec<Vec<usize>> = Vec::new();
    let mut l: usize = 0;
    while l <= level
        invariant
            l <= level + 1,
            level < usize::MAX,
            want == new_node(0, level, lists_view(sel@)).layers,
            r.len() == l,
            lists_view(r@) == want.take(l as int),
        decreases level + 1 - l,
    {
        if l < sel.len() {
            let copied = copy_ids(&sel[l]);
            r.push(copied);
        } else {
            r.push(Vec::new());
        }
        l += 1;
        assert(lists_view(r@) =~= want.take(l as int));
    }
    assert(want.take(l as int) =~= want);
    r
}

/// `i` is among the nodes chosen on `l`.
pub open spec fn chosen_on(sel: Seq<Seq<usize>>, i: int, l: int) -> bool {
    0 <= l < sel.len() && sel[l].contains(i as usize)
}

/// Appends the new node and links it back from its chosen neighbours.
pub fn link_new_node(index: &mut HnswIndex, record_id: usize, level: usize, sel: &Vec<Vec<usize>>)
    requires
        old(index)@.graph_wf(),
        old(index).ids_wf(),
        old(index).nodes.len() < usize::MAX,
        level < usize::MAX,
        1 <= sel.len() <= level + 1,
        forall|l: int, k: int|
            0 <= l < sel.len() && 0 <= k < sel@[l].len() ==> old(index)@.on_layer(#[trigger] sel@[l]@[k], l),
        forall|l: int| 0 <= l < sel.len() ==> (#[trigger] sel@[l]).len() <= old(index).m,
    ensures
        final(index)@ == (GraphModel {
            nodes: link_layers(
                old(index)@.nodes.push(new_node(record_id, level, lists_view(sel@))),
                lists_view(sel@),
                sel.len() - 1,
                old(index).nodes.len(),
            ),
            ..old(index)@
        }),
        final(index)@.graph_wf(),
        final(index).ids_wf(),
        final(index).nodes.len() == old(index).nodes.len() + 1,
        final(index)@.levels(old(index).nodes.len()) == level + 1,
        forall|i: int| 0 <= i < old(index).nodes.len() ==> (#[trigger] final(index)@.nodes[i]).layers.len()
            == old(index)@.nodes[i].layers.len() && final(index)@.nodes[i].record_id == old(index)@.nodes[i].record_id,
        final(index)@.nodes[old(index).nodes.len() as int].record_id == record_id,
        old(index)@.degree_bounded() ==> forall|i: int, l: int|
            0 <= i < final(index)@.nodes.len() && 0 <= l < final(index)@.nodes[i].layers.len() ==> (
            #[trigger] final(index)@.nodes[i].layers[l]).len() <= old(index).m || chosen_on(
                lists_view(sel@),
                i,
                l,
            ),
{
    let ghost g0 = index@;
    let ghost sv = lists_view(sel@);
    let ghost bounded = g0.degree_bounded();
    let n = index.nodes.len();
    let top = sel.len() - 1;
    let neighbours = new_neighbour_lists(level, sel);
    let ghost nn = new_node(record_id, level, sv);
    index.nodes.push(Node { id: n, neighbours, record_id });
    let ghost pushed = g0.nodes.push(nn);
    proof {
        assert(index@.nodes =~= pushed) by {
            assert(index@.nodes[n as int] =~= nn);
        }
        assert forall|i: int, l: int, k: int|
            0 <= i < pushed.len() && 0 <= l < pushed[i].layers.len() && 0 <= k < pushed[i].layers[l].len()
                implies index@.on_layer(#[trigger] pushed[i].layers[l][k], l) by {
            if i < n {
                assert(g0.on_layer(g0.nodes[i].layers[l][k], l));
            } else {
                assert(sv[l][k] == sel@[l]@[k]);
            }
        }
        assert(index@.graph_wf());
    }
    let mut l = top;
    loop
        invariant_except_break
            link_layers(pushed, sv, top as int, n) == link_layers(index@.nodes, sv, l as int, n),
        invariant
            g0.graph_wf(),
            n == g0.nodes.len(),
            sv == lists_view(sel@),
            top == sel.len() - 1,
            top <= level,
            l <= top,
            index@.graph_wf(),
            index.ids_wf(),
            index.nodes.len() == n + 1,
            index.m == g0.m,
            index.ef == g0.ef,
            index.entry_point == g0.entry_point,
            index.max_layer == g0.max_layer,
            bounded == g0.degree_bounded(),
            forall|i: int| 0 <= i < index.nodes.len() ==> (#[trigger] index@.nodes[i]).layers.len() == pushed[i].layers.len()
                && index@.nodes[i].record_id == pushed[i].record_id,
            forall|a: int, k: int| 0 <= a < sel.len() && 0 <= k < sel@[a].len() ==> g0.on_layer(#[trigger] sel@[a]@[k], a),
            pushed == g0.nodes.push(nn),
            nn == new_node(record_id, level, sv),
            bounded ==> forall|i: int, b: int|
                0 <= i < index@.nodes.len() && 0 <= b < index@.nodes[i].layers.len() ==> (
                #[trigger] index@.nodes[i].layers[b]).len() <= g0.m || chosen_on(sv, i, b),
        ensures
            index@.nodes == link_layers(pushed, sv, top as int, n),
            index@.graph_wf(),
            index.ids_wf(),
            index.nodes.len() == n + 1,
            index.m == g0.m,
            index.ef == g0.ef,
            index.entry_point == g0.entry_point,
            index.max_layer == g0.max_layer,
            forall|i: int| 0 <= i < index.nodes.len() ==> (#[trigger] index@.nodes[i]).layers.len() == pushed[i].layers.len()
                && index@.nodes[i].record_id == pushed[i].record_id,
            bounded ==> forall|i: int, b: int|
                0 <= i < index@.nodes.len() && 0 <= b < index@.nodes[i].layers.len() ==> (
                #[trigger] index@.nodes[i].layers[b]).len() <= g0.m || chosen_on(sv, i, b),
        decreases l,
    {
        let ghost start = index@.nodes;
        let ghost list = sv[l as int];
        let mut k: usize = 0;
        while k < sel[l].len()
            invariant
                g0.graph_wf(),
                n == g0.nodes.len(),
                sv == lists_view(sel@),
                top == sel.len() - 1,
                top <= level,
                l <= top,
                list == sv[l as int],
                sel@[l as int]@ == list,
                k <= list.len(),
                index@.nodes == add_back_edges(start, list.take(k as int), l as int, n),
                index@.graph_wf(),
                index.ids_wf(),
                index.nodes.len() == n + 1,
                index.m == g0.m,
                index.ef == g0.ef,
                index.entry_point == g0.entry_point,
                index.max_layer == g0.max_layer,
                bounded == g0.degree_bounded(),
                forall|i: int| 0 <= i < index.nodes.len() ==> (#[trigger] index@.nodes[i]).layers.len() == pushed[i].layers.len()
                && index@.nodes[i].record_id == pushed[i].record_id,
                forall|a: int, kk: int| 0 <= a < sel.len() && 0 <= kk < sel@[a].len() ==> g0.on_layer(#[trigger] sel@[a]@[kk], a),
                pushed == g0.nodes.push(nn),
                nn == new_node(record_id, level, sv),
                bounded ==> forall|i: int, b: int|
                    0 <= i < index@.nodes.len() && 0 <= b < index@.nodes[i].layers.len() ==> (
                    #[trigger] index@.nodes[i].layers[b]).len() <= g0.m || chosen_on(sv, i, b),
            decreases list.len() - k,
        {
            let j = sel[l][k];
            assert(g0.on_layer(sel@[l as int]@[k as int], l as int));
            assert(list.take(k + 1).drop_last() =~= list.take(k as int));
            let ghost before = index@;
            assert(index@.nodes[j as int].layers.len() == pushed[j as int].layers.len());
            add_neighbour(index, j, l, n);
            proof {
                assert(index@.nodes == add_back_edges(start, list.take(k + 1), l as int, n));
                assert(pushed[n as int] == nn);
                assert(index@.on_layer(n, l as int));
                assert forall|i: int, b: int, c: int|
                    0 <= i < index@.nodes.len() && 0 <= b < index@.nodes[i].layers.len() && 0 <= c
                        < index@.nodes[i].layers[b].len() implies index@.on_layer(
                    #[trigger] index@.nodes[i].layers[b][c],
                    b,
                ) by {
                    if i == j && b == l {
                        if c < before.nodes[i].layers[b].len() {
                            assert(before.on_layer(before.nodes[i].layers[b][c], b));
                        }
                    } else {
                        assert(index@.nodes[i].layers[b] == before.nodes[i].layers[b]);
                        assert(before.on_layer(before.nodes[i].layers[b][c], b));
                    }
                }
                if bounded {
                    assert forall|i: int, b: int|
                        0 <= i < index@.nodes.len() && 0 <= b < index@.nodes[i].layers.len() implies (
                        #[trigger] index@.nodes[i].layers[b]).len() <= g0.m || chosen_on(sv, i, b) by {
                        if i == j && b == l {
                            assert(sv[l as int][k as int] == j);
                            assert(sv[l as int].contains(j));
                        } else {
                            assert(index@.nodes[i].layers[b] == before.nodes[i].layers[b]);
                        }
                    }
                }
            }
            k += 1;
        }
        assert(list.take(k as int) =~= list);
        if l == 0 {
            proof {
                assert(link_layers(start, sv, 0, n) == link_layers(add_back_edges(start, sv[0], 0, n), sv, -1, n));
                assert(link_layers(index@.nodes, sv, -1, n) == index@.nodes);
            }
            break;
        }
        l -= 1;
    }
    proof {
        assert forall|i: int| 0 <= i < n implies (#[trigger] index@.nodes[i]).layers.len() == g0.nodes[i].layers.len()
            && index@.nodes[i].record_id == g0.nodes[i].record_id by {
            assert(pushed[i] == g0.nodes[i]);
        }
        assert(pushed[n as int] == nn);
        assert(index@ =~= (GraphModel { nodes: link_layers(pushed, sv, top as int, n), ..g0 }));
    }
}


/// The pairs still to prune when the first `k` chosen on `layer` are done.
pub open spec fn pending(sel: Seq<Seq<usize>>, layer: int, k: int) -> Seq<(usize, usize)> {
    sel[layer].skip(k).map_values(|j: usize| (j, layer as usize)) + prune_pairs(sel, layer - 1)
}

/// Every chosen neighbour is among the pairs to prune.
pub proof fn lemma_prune_pairs_contains(sel: Seq<Seq<usize>>, top: int, i: usize, l: int)
    requires
        0 <= l <= top,
        sel[l].contains(i),
    ensures
        prune_pairs(sel, top).contains((i, l as usize)),
    decreases top + 1,
{
    let here = sel[top].map_values(|j: usize| (j, top as usize));
    let rest = prune_pairs(sel, top - 1);
    assert(prune_pairs(sel, top) == here + rest);
    if l == top {
        let t = choose|t: int| 0 <= t < sel[l].len() && sel[l][t] == i;
        assert((here + rest)[t] == (i, l as usize));
    } else {
        lemma_prune_pairs_contains(sel, top - 1, i, l);
        let t = choose|t: int| 0 <= t < rest.len() && rest[t] == (i, l as usize);
        assert((here + rest)[here.len() + t] == (i, l as usize));
    }
}

/// Inserts a node for `record_id` on layers `0..=level`, scoring node pairs
/// with `sim`; the new node's id is the number of nodes before the call.
pub fn insert<G: Fn(usize, usize) -> i32>(index: &mut HnswIndex, record_id: usize, level: usize, sim: &G)
    requires
        old(index)@.wf(),
        old(index).ids_wf(),
        old(index).nodes.len() < usize::MAX,
        level < usize::MAX,
        is_similarity(*sim, (old(index).nodes.len() + 1) as nat),
    ensures
        final(index)@ == insert_spec(old(index)@, record_id, level, sim_fn(*sim)),
        final(index)@.wf(),
        final(index).ids_wf(),
        final(index).nodes.len() == old(index).nodes.len() + 1,
        old(index)@.degree_bounded() ==> final(index)@.degree_bounded(),
        forall|i: int| 0 <= i < old(index).nodes.len() ==> #[trigger] final(index)@.nodes[i].record_id
            == old(index)@.nodes[i].record_id,
        final(index)@.nodes[old(index).nodes.len() as int].record_id == record_id,
        undirected(old(index)@.nodes) ==> undirected(final(index)@.nodes),
{
    let ghost g0 = index@;
    let ghost sf = sim_fn(*sim);
    let ghost undir = undirected(g0.nodes);
    let n = index.nodes.len();
    if n == 0 {
        let empty: Vec<Vec<usize>> = Vec::new();
        let neighbours = new_neighbour_lists(level, &empty);
        index.nodes.push(Node { id: 0, neighbours, record_id });
        index.entry_point = Some(0);
        index.max_layer = level;
        proof {
            assert(lists_view(empty@) =~= Seq::<Seq<usize>>::empty());
            assert(index@.nodes[0] =~= new_node(record_id, level, Seq::empty()));
            assert(index@.nodes =~= seq![new_node(record_id, level, Seq::empty())]);
            assert(index@ =~= insert_spec(g0, record_id, level, sf));
            assert forall|l: int| 0 <= l < index@.nodes[0].layers.len() implies #[trigger] index@.nodes[0].layers[l].len() == 0 by {}
            assert(undirected(index@.nodes));
        }
        return;
    }
    let scorer = NodeScorer { sim, target: n, n: n + 1 };
    let ghost s = |i: usize| sf(n as usize, i);
    proof {
        assert(score_fn(&scorer) =~= s);
    }
    let sel = select_for_insert(index, &scorer, level);
    let ghost sv = lists_view(sel@);
    let old_max = index.max_layer;
    let ghost top = sel.len() - 1;
    link_new_node(index, record_id, level, &sel);
    let ghost linked = index@.nodes;
    proof {
        if undir {
            assert forall|a: int, k: int| 0 <= a < sv.len() && 0 <= k < sv[a].len() implies #[trigger] sv[a][k] < g0.nodes.len()
                && a < g0.nodes[sv[a][k] as int].layers.len() by {
                assert(sv[a][k] == sel@[a]@[k]);
                assert(g0.on_layer(sel@[a]@[k], a));
            }
            assert forall|a: int| 0 <= a < sv.len() implies (#[trigger] sv[a]).no_duplicates() by {
                assert(sv[a] == sel@[a]@);
            }
            lemma_link_keeps_undirected(g0.nodes, record_id, level, sv);
        }
    }
    if level > old_max {
        index.entry_point = Some(n);
        index.max_layer = level;
    }
    let ghost bounded = g0.degree_bounded();
    let mut l = sel.len() - 1;
    proof {
        assert(pending(sv, l as int, 0) =~= prune_pairs(sv, l as int)) by {
            assert(sv[l as int].skip(0) =~= sv[l as int]);
        }
        if bounded {
            assert forall|i: int, b: int|
                0 <= i < index@.nodes.len() && 0 <= b < index@.nodes[i].layers.len() implies (
                #[trigger] index@.nodes[i].layers[b]).len() <= g0.m || pending(sv, l as int, 0).contains(
                (i as usize, b as usize),
            ) by {
                if index@.nodes[i].layers[b].len() > g0.m {
                    assert(chosen_on(sv, i, b));
                    lemma_prune_pairs_contains(sv, top, i as usize, b);
                }
            }
        }
    }
    loop
        invariant_except_break
            prune_all(linked, g0.m, sf, prune_pairs(sv, top)) == prune_all(index@.nodes, g0.m, sf, pending(sv, l as int, 0)),
            bounded ==> forall|i: int, b: int|
                0 <= i < index@.nodes.len() && 0 <= b < index@.nodes[i].layers.len() ==> (
                #[trigger] index@.nodes[i].layers[b]).len() <= g0.m || pending(sv, l as int, 0).contains(
                    (i as usize, b as usize),
                ),
        invariant
            sv == lists_view(sel@),
            top == sel.len() - 1,
            l <= top,
            n == g0.nodes.len(),
            sf == sim_fn(*sim),
            is_similarity(*sim, n as nat + 1),
            bounded == g0.degree_bounded(),
            index@.graph_wf(),
            index.ids_wf(),
            index.nodes.len() == n + 1,
            index.m == g0.m,
            index.ef == g0.ef,
            forall|a: int, k: int|
                0 <= a < sel.len() && 0 <= k < sel@[a].len() ==> g0.on_layer(#[trigger] sel@[a]@[k], a),
            forall|i: int| 0 <= i < index.nodes.len() ==> (#[trigger] index@.nodes[i]).layers.len() == linked[i].layers.len()
                && index@.nodes[i].record_id == linked[i].record_id,
            linked.len() == n + 1,
            forall|i: int| 0 <= i < n ==> (#[trigger] linked[i]).layers.len() == g0.nodes[i].layers.len()
                && linked[i].record_id == g0.nodes[i].record_id,
            linked[n as int].record_id == record_id,
            index.entry_point == (if level > g0.max_layer { Some(n) } else { g0.entry_point }),
            index.max_layer == (if level > g0.max_layer { level } else { g0.max_layer }),
            undir == undirected(g0.nodes),
            undir ==> undirected(index@.nodes),
        ensures
            index@.nodes == prune_all(linked, g0.m, sf, prune_pairs(sv, top)),
            index@.graph_wf(),
            index.ids_wf(),
            index.nodes.len() == n + 1,
            index.m == g0.m,
            index.ef == g0.ef,
            forall|i: int| 0 <= i < index.nodes.len() ==> (#[trigger] index@.nodes[i]).layers.len() == linked[i].layers.len()
                && index@.nodes[i].record_id == linked[i].record_id,
            index.entry_point == (if level > g0.max_layer { Some(n) } else { g0.entry_point }),
            index.max_layer == (if level > g0.max_layer { level } else { g0.max_layer }),
            bounded ==> index@.degree_bounded(),
            undir ==> undirected(index@.nodes),
        decreases l,
    {
        let ghost layer_start = index@.nodes;
        let mut k: usize = 0;
        while k < sel[l].len()
            invariant
                sv == lists_view(sel@),
                top == sel.len() - 1,
                l <= top,
                k <= sel@[l as int].len(),
                n == g0.nodes.len(),
                sf == sim_fn(*sim),
                is_similarity(*sim, n as nat + 1),
                bounded == g0.degree_bounded(),
                index@.graph_wf(),
                index.ids_wf(),
                index.nodes.len() == n + 1,
                index.m == g0.m,
                index.ef == g0.ef,
                forall|a: int, kk: int|
                    0 <= a < sel.len() && 0 <= kk < sel@[a].len() ==> g0.on_layer(#[trigger] sel@[a]@[kk], a),
                forall|i: int| 0 <= i < index.nodes.len() ==> (#[trigger] index@.nodes[i]).layers.len() == linked[i].layers.len()
                && index@.nodes[i].record_id == linked[i].record_id,
                linked.len() == n + 1,
                forall|i: int| 0 <= i < n ==> (#[trigger] linked[i]).layers.len() == g0.nodes[i].layers.len()
                && linked[i].record_id == g0.nodes[i].record_id,
            linked[n as int].record_id == record_id,
                index.entry_point == (if level > g0.max_layer { Some(n) } else { g0.entry_point }),
                index.max_layer == (if level > g0.max_layer { level } else { g0.max_layer }),
                prune_all(linked, g0.m, sf, prune_pairs(sv, top)) == prune_all(index@.nodes, g0.m, sf, pending(sv, l as int, k as int)),
                undir == undirected(g0.nodes),
                undir ==> undirected(index@.nodes),
                bounded ==> forall|i: int, b: int|
                    0 <= i < index@.nodes.len() && 0 <= b < index@.nodes[i].layers.len() ==> (
                    #[trigger] index@.nodes[i].layers[b]).len() <= g0.m || pending(sv, l as int, k as int).contains(
                        (i as usize, b as usize),
                    ),
            decreases sel@[l as int].len() - k,
        {
            let p = sel[l][k];
            let ghost before = index@;
            let ghost rest = pending(sv, l as int, k + 1);
            proof {
                assert(g0.on_layer(sel@[l as int]@[k as int], l as int));
                assert(index@.nodes[p as int].layers.len() == linked[p as int].layers.len());
                assert(pending(sv, l as int, k as int) =~= seq![(p, l)] + rest) by {
                    assert(sv[l as int].skip(k as int) =~= seq![p] + sv[l as int].skip(k + 1));
                }
            }
            prune(index, p, l, sim);
            proof {
                if undir {
                    lemma_prune_keeps_undirected(before.nodes, g0.m, sf, p, l as int);
                }
                assert forall|i: int| 0 <= i < index.nodes.len() implies (#[trigger] index@.nodes[i]).layers.len()
                    == linked[i].layers.len() && index@.nodes[i].record_id == linked[i].record_id by {
                    assert(before.nodes[i].layers.len() == linked[i].layers.len());
                    assert(before.nodes[i].record_id == linked[i].record_id);
                }
                let pend = pending(sv, l as int, k as int);
                assert(pend[0] == (p, l));
                assert(pend.drop_first() =~= rest);
                if bounded {
                    assert forall|i: int, b: int|
                        0 <= i < index@.nodes.len() && 0 <= b < index@.nodes[i].layers.len() implies (
                        #[trigger] index@.nodes[i].layers[b]).len() <= g0.m || rest.contains((i as usize, b as usize)) by {
                        if !(i == p && b == l) && index@.nodes[i].layers[b].len() > g0.m {
                            assert(before.nodes[i].layers[b].len() > g0.m);
                            assert(pend.contains((i as usize, b as usize)));
                            let t = choose|t: int| 0 <= t < pend.len() && pend[t] == (i as usize, b as usize);
                            assert(b < index.nodes@[i].neighbours.len());
                            if t == 0 {
                                assert(i as usize == p && b as usize == l);
                                assert(false);
                            }
                            assert(rest[t - 1] == (i as usize, b as usize));
                        }
                    }
                }
            }
            k += 1;
        }
        proof {
            assert(sv[l as int].skip(k as int) =~= Seq::<usize>::empty());
            assert(pending(sv, l as int, k as int) =~= prune_pairs(sv, l - 1));
        }
        if l == 0 {
            proof {
                assert(prune_pairs(sv, -1) =~= Seq::<(usize, usize)>::empty());
                if bounded {
                    assert forall|i: int, b: int|
                        0 <= i < index@.nodes.len() && 0 <= b < index@.nodes[i].layers.len() implies (
                        #[trigger] index@.nodes[i].layers[b]).len() <= g0.m by {
                        assert(!pending(sv, 0, k as int).contains((i as usize, b as usize)));
                    }
                }
            }
            break;
        }
        proof {
            assert(pending(sv, l - 1, 0) =~= prune_pairs(sv, l - 1)) by {
                assert(sv[l - 1].skip(0) =~= sv[l - 1]);
            }
        }
        l -= 1;
    }
    proof {
        assert(index@ =~= insert_spec(g0, record_id, level, sf));
    }
}


/// A node for `record_id` with empty neighbour lists on layers
/// `0..=level`; its id is the number of nodes of `index`.
pub fn create_node(index: &HnswIndex, record_id: usize, level: usize) -> (r: Node)
    requires
        level < usize::MAX,
    ensures
        r.id == index.nodes.len(),
        r@ == new_node(record_id, level, Seq::empty()),
{
    let empty: Vec<Vec<usize>> = Vec::new();
    let neighbours = new_neighbour_lists(level, &empty);
    assert(lists_view(empty@) =~= Seq::<Seq<usize>>::empty());
    let r = Node { id: index.nodes.len(), neighbours, record_id };
    assert(r@ =~= new_node(record_id, level, Seq::empty()));
    r
}

impl HnswIndex {
    /// An empty graph with neighbour bound `m` and search breadth `ef`.
    pub fn new(m: usize, ef: usize) -> (r: Self)
        requires
            m > 1,
        ensures
            r@ == (GraphModel { nodes: Seq::empty(), entry_point: None, max_layer: 0, m, ef }),
            r@.wf(),
            r.ids_wf(),
            r@.degree_bounded(),
            undirected(r@.nodes),
    {
        let r = HnswIndex { nodes: Vec::new(), entry_point: None, max_layer: 0, m, ef };
        assert(r@.nodes =~= Seq::<NodeModel>::empty());
        r
    }

    /// The records most similar to the query that `score` scores, at most
    /// `top_k`, with the graph's own search breadth.
    pub fn search<F: Fn(usize) -> i32>(&self, score: F, top_k: usize) -> (r: Vec<usize>)
        requires
            self@.searchable(),
            self.ids_wf(),
            self.nodes.len() > 0,
            is_scorer(score, self.nodes.len() as nat),
        ensures
            r@ == search_spec(self@, query_fn(score), self.ef, top_k),
            r.len() <= top_k,
            records_distinct(self@) ==> r@.no_duplicates(),
    {
        let scorer = QueryScorer::new(score, self.nodes.len());
        assert(score_fn(&scorer) =~= query_fn(score));
        search(self, &scorer, self.ef, top_k)
    }

    /// Inserts a node for `record_id` on layers `0..=level`; `sim` scores
    /// two node ids, the new node's id being the number of nodes before the
    /// call.
    pub fn insert<G: Fn(usize, usize) -> i32>(&mut self, record_id: usize, level: usize, sim: &G)
        requires
            old(self)@.wf(),
            old(self).ids_wf(),
            old(self).nodes.len() < usize::MAX,
            level < usize::MAX,
            is_similarity(*sim, (old(self).nodes.len() + 1) as nat),
        ensures
            final(self)@ == insert_spec(old(self)@, record_id, level, sim_fn(*sim)),
            final(self)@.wf(),
            final(self).ids_wf(),
            final(self).nodes.len() == old(self).nodes.len() + 1,
            old(self)@.degree_bounded() ==> final(self)@.degree_bounded(),
            forall|i: int| 0 <= i < old(self).nodes.len() ==> #[trigger] final(self)@.nodes[i].record_id
                == old(self)@.nodes[i].record_id,
            final(self)@.nodes[old(self).nodes.len() as int].record_id == record_id,
            undirected(old(self)@.nodes) ==> undirected(final(self)@.nodes),
    {
        insert(self, record_id, level, sim);
    }
}

/// Removing back links to `p` leaves every node that was not dropped as it
/// was, and the number of nodes too.
proof fn lemma_drop_back_edges_other(nodes: Seq<NodeModel>, removed: Seq<usize>, p: usize, layer: int, q: int)
    requires
        0 <= q < nodes.len(),
        forall|k: int| 0 <= k < removed.len() ==> #[trigger] removed[k] < nodes.len() && removed[k] != q,
    ensures
        drop_back_edges(nodes, removed, p, layer).len() == nodes.len(),
        drop_back_edges(nodes, removed, p, layer)[q] == nodes[q],
    decreases removed.len(),
{
    if removed.len() > 0 {
        lemma_drop_back_edges_other(nodes, removed.drop_last(), p, layer, q);
        let r = removed.last();
        assert(removed[removed.len() - 1] == r);
        let prev = drop_back_edges(nodes, removed.drop_last(), p, layer);
        if r as int != q {
            lemma_drop_back_edges_len(nodes, removed.drop_last(), p, layer);
        }
    }
}

/// Removing back links never changes the number of nodes, when every node
/// dropped is a node.
proof fn lemma_drop_back_edges_len(nodes: Seq<NodeModel>, removed: Seq<usize>, p: usize, layer: int)
    requires
        forall|k: int| 0 <= k < removed.len() ==> #[trigger] removed[k] < nodes.len(),
    ensures
        drop_back_edges(nodes, removed, p, layer).len() == nodes.len(),
    decreases removed.len(),
{
    if removed.len() > 0 {
        lemma_drop_back_edges_len(nodes, removed.drop_last(), p, layer);
    }
}

/// Pruning keeps the most similar neighbours: a node with more than `m`
/// neighbours on a layer, none of them itself, is left with exactly `m`
/// there, and each one kept is at least as similar to it as each one
/// dropped.
pub proof fn law_prune_keeps_most_similar(
    nodes: Seq<NodeModel>,
    m: usize,
    sim: spec_fn(usize, usize) -> i32,
    p: usize,
    layer: int,
)
    requires
        p < nodes.len(),
        0 <= layer < nodes[p as int].layers.len(),
        nodes[p as int].layers[layer].len() > m,
        forall|k: int| 0 <= k < nodes[p as int].layers[layer].len() ==> #[trigger] nodes[p as int].layers[layer][k]
            < nodes.len() && nodes[p as int].layers[layer][k] != p,
    ensures
        ({
            let before = nodes[p as int].layers[layer];
            let after = prune_node(nodes, m, sim, p, layer)[p as int].layers[layer];
            &&& after.len() == m
            &&& forall|x: usize, y: usize| #[trigger] after.contains(x) && #[trigger] before.contains(y) && !after.contains(y)
                ==> sim(p, x) >= sim(p, y)
        }),
{
    let before = nodes[p as int].layers[layer];
    let s = |j: usize| sim(p, j);
    let scored = scored_list(before, s);
    let ranked = sort_desc(scored);
    let kept = ids_of(ranked.take(m as int));
    let removed = ids_of(ranked.skip(m as int));
    let pred = |e: ScoredNode| e.0 < nodes.len() && e.0 != p && e.1 == sim(p, e.0);
    assert(all_satisfy(scored, pred)) by {
        assert forall|i: int| 0 <= i < scored.len() implies pred(#[trigger] scored[i]) by {
            assert(scored[i] == (before[i], s(before[i])));
        }
    }
    lemma_sort_desc_facts(scored);
    assert(all_satisfy(ranked, pred));
    let set = set_list(nodes, p, layer, kept);
    assert forall|k: int| 0 <= k < removed.len() implies #[trigger] removed[k] < set.len() && removed[k] != p as int by {
        assert(removed[k] == ranked[m + k].0);
        assert(pred(ranked[m + k]));
    }
    lemma_drop_back_edges_other(set, removed, p, layer, p as int);
    let after = prune_node(nodes, m, sim, p, layer)[p as int].layers[layer];
    assert(after == kept);
    assert forall|x: usize, y: usize| #[trigger] after.contains(x) && #[trigger] before.contains(y) && !after.contains(y)
        implies sim(p, x) >= sim(p, y) by {
        let i = choose|i: int| 0 <= i < after.len() && after[i] == x;
        assert(after[i] == ranked[i].0);
        assert(pred(ranked[i]));
        let j = choose|j: int| 0 <= j < before.len() && before[j] == y;
        let e = (y, s(y));
        assert(scored[j] == e);
        assert(scored.contains(e));
        vstd::seq_lib::to_multiset_contains(scored, e);
        assert(scored.to_multiset().count(e) > 0);
        assert(ranked.to_multiset().count(e) > 0);
        vstd::seq_lib::to_multiset_contains(ranked, e);
        assert(ranked.contains(e));
        let t = choose|t: int| 0 <= t < ranked.len() && ranked[t] == e;
        if t < m {
            assert(after[t] == y);
            assert(after.contains(y));
        }
    }
}

/// Greedy search on a layer ends at a node that is at least as similar as
/// the one it started from, and none of whose neighbours on that layer is
/// more similar.
pub proof fn law_greedy_ends_at_local_best(g: GraphModel, s: spec_fn(usize) -> i32, layer: int, cur: usize)
    requires
        g.on_layer(cur, layer),
        g.graph_wf(),
    ensures
        s(greedy(g, s, layer, cur)) >= s(cur),
        g.on_layer(greedy(g, s, layer, cur), layer),
        forall|k: int| 0 <= k < g.nbrs(greedy(g, s, layer, cur), layer).len() ==> s(
            #[trigger] g.nbrs(greedy(g, s, layer, cur), layer)[k],
        ) <= s(greedy(g, s, layer, cur)),
    decreases 0x7fff_ffffint - s(cur),
{
    let list = g.nbrs(cur, layer);
    let scored = scored_list(list, s);
    let nb = most_similar(g, s, cur, layer);
    let pred = |e: ScoredNode| e.1 == s(e.0) && g.on_layer(e.0, layer);
    assert(all_satisfy(scored, pred)) by {
        assert forall|i: int| 0 <= i < scored.len() implies pred(#[trigger] scored[i]) by {
            assert(scored[i] == (list[i], s(list[i])));
            assert(g.on_layer(g.nodes[cur as int].layers[layer][i], layer));
        }
    }
    lemma_sort_desc_facts(scored);
    assert(all_satisfy(nb, pred));
    if nb.len() > 0 && s(nb[0].0) > s(cur) {
        assert(pred(nb[0]));
        law_greedy_ends_at_local_best(g, s, layer, nb[0].0);
    } else {
        assert forall|k: int| 0 <= k < list.len() implies s(#[trigger] list[k]) <= s(cur) by {
            let e = (list[k], s(list[k]));
            assert(scored[k] == e);
            assert(scored.contains(e));
            vstd::seq_lib::to_multiset_contains(scored, e);
            vstd::seq_lib::to_multiset_contains(nb, e);
            let t = choose|t: int| 0 <= t < nb.len() && nb[t] == e;
            assert(pred(nb[0]));
            if t > 0 {
                assert(nb[0].1 >= nb[t].1);
            }
        }
    }
}

} // verus!
