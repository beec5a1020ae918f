//! What the graph searches give, stated over all graphs and queries: a
//! layer search returns every node it can reach when there are no more of
//! them than its breadth, asking for fewer results only shortens the list,
//! and a new node gets neighbours on every layer it shares with the graph.
use vstd::prelude::*;
use crate::hnsw::{
    chosen, distinct_ids, explore, explore_ok, first_n, found_on, insert_asc, key_lt, layer_result, layer_start,
    lemma_bounded_set_len, lemma_insert_asc_facts, lemma_insert_asc_ids, lemma_visit_all_bounds, search_spec,
    select_layers, sorted_asc, visit, visit_all, GraphModel, LayerState,
};
use crate::ranking::{all_satisfy, ids_of, ScoredNode};

verus! {

/// Asking for fewer results only cuts the list short: with the same breadth
/// `ef`, the records found for `k1 <= k2` are the first records found for
/// `k2`, and they are all of them when fewer than `k1` were found.
pub proof fn law_top_k_only_truncates(g: GraphModel, s: spec_fn(usize) -> i32, ef: usize, k1: usize, k2: usize)
    requires
        k1 <= k2,
    ensures
        search_spec(g, s, ef, k1).len() <= k1,
        search_spec(g, s, ef, k1) == search_spec(g, s, ef, k2).take(search_spec(g, s, ef, k1).len() as int),
        search_spec(g, s, ef, k1).len() == k1 || search_spec(g, s, ef, k1) == search_spec(g, s, ef, k2),
{
    let a = search_spec(g, s, ef, k1);
    let b = search_spec(g, s, ef, k2);
    assert(a =~= b.take(a.len() as int));
    if a.len() < k1 {
        assert(a =~= b);
    }
}

/// Seeing one neighbour on the layer keeps every entry a node of the layer
/// with its own score, keeps at least one node found, and keeps the state
/// one the layer search is defined on.
proof fn lemma_visit_keeps_found(
    g: GraphModel,
    s: spec_fn(usize) -> i32,
    ef: usize,
    layer: int,
    st: LayerState,
    nb: usize,
)
    requires
        explore_ok(g, layer, st),
        all_satisfy(st.1, found_on(g, s, layer)),
        all_satisfy(st.2, found_on(g, s, layer)),
        st.2.len() >= 1,
        g.on_layer(nb, layer),
    ensures
        ({
            let r = visit(s, ef, st, nb);
            &&& explore_ok(g, layer, r)
            &&& all_satisfy(r.1, found_on(g, s, layer))
            &&& all_satisfy(r.2, found_on(g, s, layer))
            &&& r.2.len() >= 1
        }),
{
    let f = found_on(g, s, layer);
    if !st.0.contains(nb) {
        let p = (nb, s(nb));
        assert(f(p));
        lemma_insert_asc_facts(st.1, p);
        lemma_insert_asc_facts(st.2, p);
        let c = insert_asc(st.1, p);
        let b = insert_asc(st.2, p);
        assert(all_satisfy(c, f));
        assert(all_satisfy(b, f));
        assert forall|k: int| 0 <= k < c.len() implies g.on_layer((#[trigger] c[k]).0, layer) by {
            assert(f(c[k]));
        }
        assert(all_satisfy(b.drop_first(), f)) by {
            assert forall|k: int| 0 <= k < b.drop_first().len() implies f(#[trigger] b.drop_first()[k]) by {
                assert(b.drop_first()[k] == b[k + 1]);
            }
        }
        let r = visit(s, ef, st, nb);
        assert(r.0 == st.0.insert(nb));
        assert forall|x: usize| r.0.contains(x) implies x < g.nodes.len() by {}
    }
}

/// Seeing a list of neighbours on the layer keeps what
/// `lemma_visit_keeps_found` keeps.
proof fn lemma_visit_all_keeps_found(
    g: GraphModel,
    s: spec_fn(usize) -> i32,
    ef: usize,
    layer: int,
    st: LayerState,
    list: Seq<usize>,
)
    requires
        explore_ok(g, layer, st),
        all_satisfy(st.1, found_on(g, s, layer)),
        all_satisfy(st.2, found_on(g, s, layer)),
        st.2.len() >= 1,
        forall|t: int| 0 <= t < list.len() ==> g.on_layer(#[trigger] list[t], layer),
    ensures
        ({
            let r = visit_all(s, ef, st, list);
            &&& explore_ok(g, layer, r)
            &&& all_satisfy(r.1, found_on(g, s, layer))
            &&& all_satisfy(r.2, found_on(g, s, layer))
            &&& r.2.len() >= 1
        }),
    decreases list.len(),
{
    if list.len() > 0 {
        let d = list.drop_last();
        assert forall|t: int| 0 <= t < d.len() implies g.on_layer(#[trigger] d[t], layer) by {
            assert(d[t] == list[t]);
        }
        lemma_visit_all_keeps_found(g, s, ef, layer, st, d);
        assert(g.on_layer(list[list.len() - 1], layer));
        lemma_visit_keeps_found(g, s, ef, layer, visit_all(s, ef, st, d), list.last());
    }
}

/// The layer search, from any state it is defined on whose entries are
/// nodes of the layer with their scores and which has found a node, ends
/// with at least one node found, each a node of the layer with its score.
proof fn lemma_explore_keeps_found(g: GraphModel, s: spec_fn(usize) -> i32, ef: usize, layer: int, st: LayerState)
    requires
        explore_ok(g, layer, st),
        all_satisfy(st.1, found_on(g, s, layer)),
        all_satisfy(st.2, found_on(g, s, layer)),
        st.2.len() >= 1,
    ensures
        explore(g, s, ef, layer, st).len() >= 1,
        all_satisfy(explore(g, s, ef, layer, st), found_on(g, s, layer)),
    decreases 2 * (g.nodes.len() - st.0.len()) + st.1.len(),
{
    lemma_bounded_set_len(st.0, g.nodes.len());
    if st.1.len() == 0 || st.2.len() == 0 {
    } else {
        let top = st.1.last();
        if top.1 < st.2[0].1 {
        } else {
            let f = found_on(g, s, layer);
            let before: LayerState = (st.0, st.1.drop_last(), st.2);
            assert(f(st.1[st.1.len() - 1]));
            let list = g.nbrs(top.0, layer);
            assert forall|t: int| 0 <= t < list.len() implies g.on_layer(#[trigger] list[t], layer) by {
                assert(g.on_layer(g.nodes[top.0 as int].layers[layer][t], layer));
            }
            assert forall|t: int| 0 <= t < list.len() implies #[trigger] list[t] < g.nodes.len() by {
                assert(g.on_layer(list[t], layer));
            }
            assert(all_satisfy(before.1, f)) by {
                assert forall|k: int| 0 <= k < before.1.len() implies f(#[trigger] before.1[k]) by {
                    assert(before.1[k] == st.1[k]);
                }
            }
            assert(explore_ok(g, layer, before)) by {
                assert forall|k: int| 0 <= k < before.1.len() implies g.on_layer((#[trigger] before.1[k]).0, layer) by {
                    assert(before.1[k] == st.1[k]);
                }
            }
            lemma_visit_all_keeps_found(g, s, ef, layer, before, list);
            lemma_visit_all_bounds(s, ef, before, list, g.nodes.len());
            let after = visit_all(s, ef, before, list);
            lemma_bounded_set_len(after.0, g.nodes.len());
            vstd::set_lib::lemma_len_subset(st.0, after.0);
            assert(explore(g, s, ef, layer, st) == explore(g, s, ef, layer, after));
            lemma_explore_keeps_found(g, s, ef, layer, after);
        }
    }
}

/// A layer search from a node of the layer finds at least one node, and
/// every node it finds lives on the layer and carries its own score.
pub proof fn lemma_layer_result_found(g: GraphModel, s: spec_fn(usize) -> i32, ep: usize, ef: usize, layer: int)
    requires
        g.graph_wf(),
        g.on_layer(ep, layer),
    ensures
        layer_result(g, s, ep, ef, layer).len() >= 1,
        all_satisfy(layer_result(g, s, ep, ef, layer), found_on(g, s, layer)),
{
    let f = found_on(g, s, layer);
    let st = layer_start(s, ep);
    assert(f((ep, s(ep))));
    assert(all_satisfy(st.1, f));
    assert(all_satisfy(st.2, f));
    assert(explore_ok(g, layer, st)) by {
        assert forall|x: usize| st.0.contains(x) implies x < g.nodes.len() by {}
    }
    lemma_explore_keeps_found(g, s, ef, layer, st);
    let e = explore(g, s, ef, layer, st);
    assert forall|k: int| 0 <= k < e.reverse().len() implies f(#[trigger] e.reverse()[k]) by {
        assert(e.reverse()[k] == e[e.len() - 1 - k]);
    }
}

/// A new node is linked on every layer it shares with the graph: from a
/// node of layer `top`, the neighbours chosen on each layer `l` from `top`
/// down to 0 are at least one and at most `m` nodes, all living on `l`.
pub proof fn law_neighbours_chosen_on_every_layer(g: GraphModel, s: spec_fn(usize) -> i32, cur: usize, top: int)
    requires
        g.graph_wf(),
        g.m >= 1,
        g.on_layer(cur, top),
    ensures
        select_layers(g, s, cur, top).len() == top + 1,
        forall|l: int| 0 <= l <= top ==> 1 <= (#[trigger] select_layers(g, s, cur, top)[l]).len() <= g.m,
        forall|l: int, k: int|
            0 <= l <= top && 0 <= k < select_layers(g, s, cur, top)[l].len() ==> g.on_layer(
                #[trigger] select_layers(g, s, cur, top)[l][k],
                l,
            ),
    decreases top,
{
    let lr = layer_result(g, s, cur, g.ef, top);
    lemma_layer_result_found(g, s, cur, g.ef, top);
    let here = chosen(g, s, cur, top);
    let taken = first_n(lr, g.m as int);
    assert(here == ids_of(taken));
    assert(taken.len() >= 1 && taken.len() <= g.m);
    assert forall|k: int| 0 <= k < here.len() implies g.on_layer(#[trigger] here[k], top) by {
        assert(taken[k] == lr[k]);
        assert(found_on(g, s, top)(lr[k]));
    }
    let res = select_layers(g, s, cur, top);
    if top <= 0 {
        assert(res == seq![here]);
    } else {
        let next = here[0];
        assert(g.on_layer(next, top));
        assert(g.on_layer(next, top - 1));
        law_neighbours_chosen_on_every_layer(g, s, next, top - 1);
        let rec = select_layers(g, s, next, top - 1);
        assert(res == rec.push(here));
        assert forall|l: int| 0 <= l <= top implies 1 <= (#[trigger] res[l]).len() <= g.m by {
            if l < top {
                assert(res[l] == rec[l]);
            }
        }
        assert forall|l: int, k: int| 0 <= l <= top && 0 <= k < res[l].len() implies g.on_layer(
            #[trigger] res[l][k],
            l,
        ) by {
            if l < top {
                assert(res[l] == rec[l]);
                assert(g.on_layer(rec[l][k], l));
            } else {
                assert(res[l] == here);
            }
        }
    }
}

/// `q` holds `x` with its score: the node `x` is in `q`.
pub open spec fn holds(s: spec_fn(usize) -> i32, q: Seq<ScoredNode>, x: usize) -> bool {
    q.contains((x, s(x)))
}

/// Every entry of `q` carries its own score.
pub open spec fn scored(s: spec_fn(usize) -> i32, q: Seq<ScoredNode>) -> bool {
    forall|k: int| 0 <= k < q.len() ==> (#[trigger] q[k]).1 == s(q[k].0)
}

/// `r` is a set of nodes of the layer holding `ep`, with no more nodes than
/// `ef`, and closed under the layer's links.
pub open spec fn small_closed(g: GraphModel, layer: int, ef: usize, r: Set<usize>) -> bool {
    &&& r.finite()
    &&& r.len() <= ef
    &&& forall|x: usize| r.contains(x) ==> g.on_layer(x, layer)
    &&& forall|x: usize, t: int|
        r.contains(x) && 0 <= t < g.nbrs(x, layer).len() ==> r.contains(#[trigger] g.nbrs(x, layer)[t])
}

/// A layer search state inside a small closed set `r` before any node has
/// been evicted: the nodes found are exactly the nodes visited, in
/// ascending order, and every candidate is a visited node, once.
pub open spec fn unevicted(g: GraphModel, s: spec_fn(usize) -> i32, layer: int, r: Set<usize>, ep: usize, st: LayerState) -> bool {
    &&& explore_ok(g, layer, st)
    &&& st.0.subset_of(r)
    &&& st.0.contains(ep)
    &&& st.2.len() == st.0.len()
    &&& sorted_asc(st.2)
    &&& distinct_ids(st.1)
    &&& scored(s, st.1)
    &&& scored(s, st.2)
    &&& forall|x: usize| st.0.contains(x) <==> holds(s, st.2, x)
    &&& forall|k: int| 0 <= k < st.1.len() ==> st.0.contains((#[trigger] st.1[k]).0)
}

/// Every visited node that is no longer a candidate, `ex` aside, has had
/// all its neighbours on the layer visited.
pub open spec fn expanded_except(g: GraphModel, s: spec_fn(usize) -> i32, layer: int, st: LayerState, ex: Set<usize>) -> bool {
    forall|x: usize, t: int|
        st.0.contains(x) && !holds(s, st.1, x) && !ex.contains(x) && 0 <= t < g.nbrs(x, layer).len() ==> st.0.contains(
            #[trigger] g.nbrs(x, layer)[t],
        )
}

/// `insert_asc` holds the inserted element and every element it was given.
proof fn lemma_insert_asc_holds(q: Seq<ScoredNode>, x: ScoredNode)
    ensures
        insert_asc(q, x).contains(x),
        forall|e: ScoredNode| q.contains(e) ==> insert_asc(q, x).contains(e),
    decreases q.len(),
{
    if q.len() == 0 {
        assert(insert_asc(q, x)[0] == x);
    } else if !key_lt(x, q.last()) {
        let r = q.push(x);
        assert(r[q.len() as int] == x);
        assert forall|e: ScoredNode| q.contains(e) implies r.contains(e) by {
            let t = choose|t: int| 0 <= t < q.len() && q[t] == e;
            assert(r[t] == e);
        }
    } else {
        let d = q.drop_last();
        lemma_insert_asc_holds(d, x);
        let r0 = insert_asc(d, x);
        let r = r0.push(q.last());
        let t0 = choose|t: int| 0 <= t < r0.len() && r0[t] == x;
        assert(r[t0] == x);
        assert forall|e: ScoredNode| q.contains(e) implies r.contains(e) by {
            let t = choose|t: int| 0 <= t < q.len() && q[t] == e;
            if t == q.len() - 1 {
                assert(r[r0.len() as int] == e);
            } else {
                assert(d[t] == e);
                assert(d.contains(e));
                let u = choose|u: int| 0 <= u < r0.len() && r0[u] == e;
                assert(r[u] == e);
            }
        }
    }
}

/// Seeing one neighbour inside a small closed set never evicts a node: the
/// state stays unevicted and visited nodes that were expanded stay so.
proof fn lemma_visit_unevicted(
    g: GraphModel,
    s: spec_fn(usize) -> i32,
    ef: usize,
    layer: int,
    r: Set<usize>,
    ep: usize,
    ex: Set<usize>,
    st: LayerState,
    nb: usize,
)
    requires
        small_closed(g, layer, ef, r),
        unevicted(g, s, layer, r, ep, st),
        expanded_except(g, s, layer, st, ex),
        r.contains(nb),
    ensures
        unevicted(g, s, layer, r, ep, visit(s, ef, st, nb)),
        expanded_except(g, s, layer, visit(s, ef, st, nb), ex),
        visit(s, ef, st, nb).0 == st.0.insert(nb),
{
    if st.0.contains(nb) {
        assert(st.0.insert(nb) =~= st.0);
    } else {
        let p = (nb, s(nb));
        let n0 = st.0.insert(nb);
        vstd::set_lib::lemma_len_subset(n0, r);
        assert(n0.len() == st.0.len() + 1);
        assert(st.2.len() < ef);
        let c = insert_asc(st.1, p);
        let b = insert_asc(st.2, p);
        let v = visit(s, ef, st, nb);
        assert(v == (n0, c, b));
        lemma_insert_asc_facts(st.1, p);
        lemma_insert_asc_facts(st.2, p);
        lemma_insert_asc_ids(st.1, p);
        lemma_insert_asc_ids(st.2, p);
        lemma_insert_asc_holds(st.1, p);
        lemma_insert_asc_holds(st.2, p);
        assert forall|k: int| 0 <= k < c.len() implies (#[trigger] c[k]).1 == s(c[k].0) && n0.contains(c[k].0)
            && g.on_layer(c[k].0, layer) by {
            if c[k] != p {
                let t = choose|t: int| 0 <= t < st.1.len() && st.1[t] == c[k];
                assert(st.1[t].1 == s(st.1[t].0));
                assert(st.0.contains(st.1[t].0));
            }
        }
        assert forall|k: int| 0 <= k < b.len() implies (#[trigger] b[k]).1 == s(b[k].0) by {
            if b[k] != p {
                let t = choose|t: int| 0 <= t < st.2.len() && st.2[t] == b[k];
                assert(st.2[t].1 == s(st.2[t].0));
            }
        }
        assert forall|i: int| 0 <= i < st.1.len() implies (#[trigger] st.1[i]).0 != p.0 by {
            assert(st.0.contains(st.1[i].0));
        }
        assert(distinct_ids(c));
        assert forall|x: usize| n0.contains(x) <==> holds(s, b, x) by {
            if holds(s, b, x) {
                let t = choose|t: int| 0 <= t < b.len() && b[t] == (x, s(x));
                if b[t] != p {
                    assert(st.2.contains(b[t]));
                    assert(holds(s, st.2, x));
                }
            }
            if n0.contains(x) && x != nb {
                assert(holds(s, st.2, x));
            }
        }
        assert(explore_ok(g, layer, v)) by {
            assert forall|x: usize| v.0.contains(x) implies x < g.nodes.len() by {
                assert(r.contains(x));
            }
        }
        assert forall|x: usize, t: int|
            n0.contains(x) && !holds(s, c, x) && !ex.contains(x) && 0 <= t < g.nbrs(x, layer).len() implies n0.contains(
            #[trigger] g.nbrs(x, layer)[t],
        ) by {
            if x != nb {
                assert(!holds(s, st.1, x));
            }
        }
    }
}

/// Seeing a list of neighbours inside a small closed set keeps what
/// `lemma_visit_unevicted` keeps, and visits every one of them.
proof fn lemma_visit_all_unevicted(
    g: GraphModel,
    s: spec_fn(usize) -> i32,
    ef: usize,
    layer: int,
    r: Set<usize>,
    ep: usize,
    ex: Set<usize>,
    st: LayerState,
    list: Seq<usize>,
)
    requires
        small_closed(g, layer, ef, r),
        unevicted(g, s, layer, r, ep, st),
        expanded_except(g, s, layer, st, ex),
        forall|t: int| 0 <= t < list.len() ==> r.contains(#[trigger] list[t]),
    ensures
        unevicted(g, s, layer, r, ep, visit_all(s, ef, st, list)),
        expanded_except(g, s, layer, visit_all(s, ef, st, list), ex),
        st.0.subset_of(visit_all(s, ef, st, list).0),
        forall|t: int| 0 <= t < list.len() ==> visit_all(s, ef, st, list).0.contains(#[trigger] list[t]),
    decreases list.len(),
{
    if list.len() > 0 {
        let d = list.drop_last();
        assert forall|t: int| 0 <= t < d.len() implies r.contains(#[trigger] d[t]) by {
            assert(d[t] == list[t]);
        }
        lemma_visit_all_unevicted(g, s, ef, layer, r, ep, ex, st, d);
        let mid = visit_all(s, ef, st, d);
        assert(r.contains(list[list.len() - 1]));
        lemma_visit_unevicted(g, s, ef, layer, r, ep, ex, mid, list.last());
        assert forall|t: int| 0 <= t < list.len() implies visit_all(s, ef, st, list).0.contains(#[trigger] list[t]) by {
            if t < d.len() {
                assert(d[t] == list[t]);
                assert(mid.0.contains(d[t]));
            }
        }
    }
}

/// The layer search from an unevicted state, all of whose visited nodes
/// but the candidates have been expanded, ends with the nodes of a state in
/// which every visited node has been expanded: it holds `ep`, only nodes of
/// the closed set, and every neighbour on the layer of every node it holds.
proof fn lemma_explore_unevicted(
    g: GraphModel,
    s: spec_fn(usize) -> i32,
    ef: usize,
    layer: int,
    r: Set<usize>,
    ep: usize,
    st: LayerState,
)
    requires
        small_closed(g, layer, ef, r),
        unevicted(g, s, layer, r, ep, st),
        expanded_except(g, s, layer, st, Set::empty()),
    ensures
        ({
            let f = explore(g, s, ef, layer, st);
            &&& holds(s, f, ep)
            &&& scored(s, f)
            &&& forall|k: int| 0 <= k < f.len() ==> r.contains((#[trigger] f[k]).0)
            &&& forall|k: int, t: int|
                0 <= k < f.len() && 0 <= t < g.nbrs(f[k].0, layer).len() ==> holds(
                    s,
                    f,
                    #[trigger] g.nbrs(f[k].0, layer)[t],
                )
        }),
    decreases 2 * (g.nodes.len() - st.0.len()) + st.1.len(),
{
    lemma_bounded_set_len(st.0, g.nodes.len());
    assert(holds(s, st.2, ep));
    if st.1.len() == 0 {
        assert forall|k: int| 0 <= k < st.2.len() implies r.contains((#[trigger] st.2[k]).0) by {
            assert(st.2[k] == (st.2[k].0, s(st.2[k].0)));
            assert(holds(s, st.2, st.2[k].0));
        }
        assert forall|k: int, t: int| 0 <= k < st.2.len() && 0 <= t < g.nbrs(st.2[k].0, layer).len() implies holds(
            s,
            st.2,
            #[trigger] g.nbrs(st.2[k].0, layer)[t],
        ) by {
            let x = st.2[k].0;
            assert(st.2[k] == (x, s(x)));
            assert(holds(s, st.2, x));
            assert(!holds(s, st.1, x));
            assert(st.0.contains(g.nbrs(x, layer)[t]));
        }
    } else {
        let top = st.1.last();
        assert(st.1[st.1.len() - 1] == top);
        assert(st.0.contains(top.0));
        assert(top == (top.0, s(top.0)));
        assert(holds(s, st.2, top.0));
        let w = choose|w: int| 0 <= w < st.2.len() && st.2[w] == (top.0, s(top.0));
        if w > 0 {
            assert(!key_lt(st.2[w], st.2[0]));
        }
        assert(!(top.1 < st.2[0].1));
        let before: LayerState = (st.0, st.1.drop_last(), st.2);
        let list = g.nbrs(top.0, layer);
        assert(r.contains(top.0));
        assert forall|t: int| 0 <= t < list.len() implies r.contains(#[trigger] list[t]) by {
            assert(list[t] == g.nbrs(top.0, layer)[t]);
        }
        assert forall|t: int| 0 <= t < list.len() implies #[trigger] list[t] < g.nodes.len() by {
            assert(r.contains(list[t]));
        }
        let d1 = st.1.drop_last();
        assert(unevicted(g, s, layer, r, ep, before)) by {
            assert forall|k: int| 0 <= k < d1.len() implies g.on_layer((#[trigger] d1[k]).0, layer) by {
                assert(d1[k] == st.1[k]);
            }
            assert forall|k: int| 0 <= k < d1.len() implies (#[trigger] d1[k]).1 == s(d1[k].0) && st.0.contains(
                d1[k].0,
            ) by {
                assert(d1[k] == st.1[k]);
            }
            assert forall|i: int, j: int| 0 <= i < j < d1.len() implies (#[trigger] d1[i]).0 != (#[trigger] d1[j]).0 by {
                assert(d1[i] == st.1[i] && d1[j] == st.1[j]);
            }
        }
        let ex = Set::<usize>::empty().insert(top.0);
        assert(expanded_except(g, s, layer, before, ex)) by {
            assert forall|x: usize, t: int|
                st.0.contains(x) && !holds(s, d1, x) && !ex.contains(x) && 0 <= t < g.nbrs(x, layer).len() implies st.0.contains(
                #[trigger] g.nbrs(x, layer)[t],
            ) by {
                if holds(s, st.1, x) {
                    let k = choose|k: int| 0 <= k < st.1.len() && st.1[k] == (x, s(x));
                    if k < st.1.len() - 1 {
                        assert(d1[k] == st.1[k]);
                    }
                }
            }
        }
        lemma_visit_all_unevicted(g, s, ef, layer, r, ep, ex, before, list);
        lemma_visit_all_bounds(s, ef, before, list, g.nodes.len());
        let after = visit_all(s, ef, before, list);
        lemma_bounded_set_len(after.0, g.nodes.len());
        vstd::set_lib::lemma_len_subset(st.0, after.0);
        assert(expanded_except(g, s, layer, after, Set::empty())) by {
            assert forall|x: usize, t: int|
                after.0.contains(x) && !holds(s, after.1, x) && !Set::<usize>::empty().contains(x) && 0 <= t < g.nbrs(
                    x,
                    layer,
                ).len() implies after.0.contains(#[trigger] g.nbrs(x, layer)[t]) by {
                if x == top.0 {
                    assert(list[t] == g.nbrs(x, layer)[t]);
                } else {
                    assert(!ex.contains(x));
                }
            }
        }
        assert(explore(g, s, ef, layer, st) == explore(g, s, ef, layer, after));
        lemma_explore_unevicted(g, s, ef, layer, r, ep, after);
    }
}

/// A layer search finds every node it can reach when they are few: if a
/// set `r` of nodes of the layer holds the start `ep`, is closed under the
/// layer's links and has no more nodes than the breadth `ef`, the search
/// finds `ep`, only nodes of `r`, and every neighbour on the layer of each
/// node it finds. So it finds exactly the nodes reachable from `ep` (the
/// smallest such set), whenever there are at most `ef` of them.
pub proof fn law_layer_search_finds_every_reachable_node(
    g: GraphModel,
    s: spec_fn(usize) -> i32,
    ep: usize,
    ef: usize,
    layer: int,
    r: Set<usize>,
)
    requires
        g.graph_wf(),
        r.finite(),
        r.len() <= ef,
        r.contains(ep),
        forall|x: usize| r.contains(x) ==> g.on_layer(x, layer),
        forall|x: usize, t: int|
            r.contains(x) && 0 <= t < g.nbrs(x, layer).len() ==> r.contains(#[trigger] g.nbrs(x, layer)[t]),
    ensures
        layer_result(g, s, ep, ef, layer).contains((ep, s(ep))),
        forall|k: int|
            0 <= k < layer_result(g, s, ep, ef, layer).len() ==> r.contains(
                (#[trigger] layer_result(g, s, ep, ef, layer)[k]).0,
            ) && layer_result(g, s, ep, ef, layer)[k].1 == s(layer_result(g, s, ep, ef, layer)[k].0),
        forall|k: int, t: int|
            0 <= k < layer_result(g, s, ep, ef, layer).len() && 0 <= t < g.nbrs(
                layer_result(g, s, ep, ef, layer)[k].0,
                layer,
            ).len() ==> layer_result(g, s, ep, ef, layer).contains(
                (
                    #[trigger] g.nbrs(layer_result(g, s, ep, ef, layer)[k].0, layer)[t],
                    s(g.nbrs(layer_result(g, s, ep, ef, layer)[k].0, layer)[t]),
                ),
            ),
{
    let st = layer_start(s, ep);
    assert(g.on_layer(ep, layer));
    assert(st.0.len() == 1) by {
        assert(st.0 =~= Set::<usize>::empty().insert(ep));
    }
    assert(st.1[0] == (ep, s(ep)));
    assert forall|x: usize| st.0.contains(x) <==> holds(s, st.2, x) by {
        if holds(s, st.2, x) {
            let t = choose|t: int| 0 <= t < st.2.len() && st.2[t] == (x, s(x));
            assert(t == 0);
        }
        if x == ep {
            assert(st.2[0] == (ep, s(ep)));
        }
    }
    assert(unevicted(g, s, layer, r, ep, st)) by {
        assert forall|x: usize| st.0.contains(x) implies x < g.nodes.len() by {}
    }
    assert(expanded_except(g, s, layer, st, Set::empty())) by {
        assert forall|x: usize, t: int|
            st.0.contains(x) && !holds(s, st.1, x) && !Set::<usize>::empty().contains(x) && 0 <= t < g.nbrs(x, layer).len() implies st.0.contains(
            #[trigger] g.nbrs(x, layer)[t],
        ) by {
            assert(x == ep);
            assert(st.1[0] == (x, s(x)));
        }
    }
    lemma_explore_unevicted(g, s, ef, layer, r, ep, st);
    let f = explore(g, s, ef, layer, st);
    let res = f.reverse();
    assert(res == layer_result(g, s, ep, ef, layer));
    assert forall|e: ScoredNode| f.contains(e) implies res.contains(e) by {
        let t = choose|t: int| 0 <= t < f.len() && f[t] == e;
        assert(res[f.len() - 1 - t] == e);
    }
    assert forall|k: int| 0 <= k < res.len() implies r.contains((#[trigger] res[k]).0) && res[k].1 == s(res[k].0) by {
        assert(res[k] == f[f.len() - 1 - k]);
    }
    assert forall|k: int, t: int|
        0 <= k < res.len() && 0 <= t < g.nbrs(res[k].0, layer).len() implies res.contains(
        (#[trigger] g.nbrs(res[k].0, layer)[t], s(g.nbrs(res[k].0, layer)[t])),
    ) by {
        assert(res[k] == f[f.len() - 1 - k]);
        assert(holds(s, f, g.nbrs(f[f.len() - 1 - k].0, layer)[t]));
    }
}

} // verus!
