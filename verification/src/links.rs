//! Links both ways: on every layer a node lists each neighbour at most once,
//! never itself, and is listed back by each of them. Linking a new node and
//! pruning a node both keep this, so insertion does.
use vstd::prelude::*;
use crate::hnsw::{add_back_edges, drop_back_edges, link_layers, new_node, prune_node, scored_list, set_list, without, NodeModel};
use crate::ranking::{all_satisfy, ids_of, lemma_sort_desc_facts, sort_desc, ScoredNode};

verus! {

/// Every link on a layer leads to a node on that layer that links back.
pub open spec fn links_both_ways(nodes: Seq<NodeModel>) -> bool {
    forall|i: int, l: int, k: int|
        #![trigger nodes[i].layers[l][k]]
        0 <= i < nodes.len() && 0 <= l < nodes[i].layers.len() && 0 <= k < nodes[i].layers[l].len() ==> {
            &&& nodes[i].layers[l][k] < nodes.len()
            &&& l < nodes[nodes[i].layers[l][k] as int].layers.len()
            &&& nodes[nodes[i].layers[l][k] as int].layers[l].contains(i as usize)
        }
}

/// No list holds a node twice, and no node lists itself.
pub open spec fn lists_simple(nodes: Seq<NodeModel>) -> bool {
    forall|i: int, l: int|
        0 <= i < nodes.len() && 0 <= l < nodes[i].layers.len() ==> (#[trigger] nodes[i].layers[l]).no_duplicates()
            && !nodes[i].layers[l].contains(i as usize)
}

/// The links form an undirected simple graph on every layer.
pub open spec fn undirected(nodes: Seq<NodeModel>) -> bool {
    links_both_ways(nodes) && lists_simple(nodes)
}

/// `without` removes `x` and only `x`, and keeps a list free of repeats.
pub proof fn lemma_without_facts(list: Seq<usize>, x: usize)
    ensures
        forall|y: usize| #[trigger] without(list, x).contains(y) <==> list.contains(y) && y != x,
        list.no_duplicates() ==> without(list, x).no_duplicates(),
    decreases list.len(),
{
    if list.len() > 0 {
        let d = list.drop_last();
        let last = list.last();
        lemma_without_facts(d, x);
        let rest = without(d, x);
        assert forall|y: usize| list.contains(y) <==> d.contains(y) || y == last by {
            if list.contains(y) {
                let t = choose|t: int| 0 <= t < list.len() && list[t] == y;
                if t < d.len() {
                    assert(d[t] == y);
                }
            }
            if d.contains(y) {
                let t = choose|t: int| 0 <= t < d.len() && d[t] == y;
                assert(list[t] == y);
            }
            if y == last {
                assert(list[list.len() - 1] == y);
            }
        }
        if last != x {
            assert forall|y: usize| #[trigger] rest.push(last).contains(y) <==> rest.contains(y) || y == last by {
                if rest.push(last).contains(y) {
                    let t = choose|t: int| 0 <= t < rest.push(last).len() && rest.push(last)[t] == y;
                    if t < rest.len() {
                        assert(rest[t] == y);
                    }
                }
                if rest.contains(y) {
                    let t = choose|t: int| 0 <= t < rest.len() && rest[t] == y;
                    assert(rest.push(last)[t] == y);
                }
                if y == last {
                    assert(rest.push(last)[rest.len() as int] == y);
                }
            }
        }
        if list.no_duplicates() {
            assert(d.no_duplicates()) by {
                assert forall|a: int, b: int| 0 <= a < d.len() && 0 <= b < d.len() && a != b implies d[a] != d[b] by {
                    assert(d[a] == list[a] && d[b] == list[b]);
                }
            }
            if last != x {
                assert(!d.contains(last)) by {
                    if d.contains(last) {
                        let t = choose|t: int| 0 <= t < d.len() && d[t] == last;
                        assert(list[t] == list[list.len() - 1]);
                    }
                }
                assert(!rest.contains(last));
                let r = rest.push(last);
                assert forall|a: int, b: int| 0 <= a < r.len() && 0 <= b < r.len() && a != b implies r[a] != r[b] by {
                    if a < rest.len() && b < rest.len() {
                        assert(r[a] == rest[a] && r[b] == rest[b]);
                    } else if a < rest.len() {
                        assert(r[a] == rest[a]);
                        assert(rest.contains(rest[a]));
                    } else if b < rest.len() {
                        assert(r[b] == rest[b]);
                        assert(rest.contains(rest[b]));
                    }
                }
            }
        }
    }
}

/// Dropping the links to `p` from each node of `removed` changes exactly
/// their lists on `layer`, each of which loses `p`.
pub proof fn lemma_drop_back_edges_facts(nodes: Seq<NodeModel>, removed: Seq<usize>, p: usize, layer: int)
    requires
        nodes.len() <= usize::MAX,
        0 <= layer,
        removed.no_duplicates(),
        forall|k: int| 0 <= k < removed.len() ==> #[trigger] removed[k] < nodes.len(),
    ensures
        drop_back_edges(nodes, removed, p, layer).len() == nodes.len(),
        forall|i: int| 0 <= i < nodes.len() ==> (#[trigger] drop_back_edges(nodes, removed, p, layer)[i]).layers.len()
            == nodes[i].layers.len() && drop_back_edges(nodes, removed, p, layer)[i].record_id == nodes[i].record_id,
        forall|i: int, l: int|
            0 <= i < nodes.len() && 0 <= l < nodes[i].layers.len() ==> #[trigger] drop_back_edges(nodes, removed, p, layer)[i].layers[l]
                == if l == layer && removed.contains(i as usize) {
                without(nodes[i].layers[l], p)
            } else {
                nodes[i].layers[l]
            },
    decreases removed.len(),
{
    if removed.len() > 0 {
        let d = removed.drop_last();
        let rl = removed.last();
        assert(d.no_duplicates()) by {
            assert forall|a: int, b: int| 0 <= a < d.len() && 0 <= b < d.len() && a != b implies d[a] != d[b] by {
                assert(d[a] == removed[a] && d[b] == removed[b]);
            }
        }
        assert forall|k: int| 0 <= k < d.len() implies #[trigger] d[k] < nodes.len() by {
            assert(d[k] == removed[k]);
        }
        lemma_drop_back_edges_facts(nodes, d, p, layer);
        let prev = drop_back_edges(nodes, d, p, layer);
        assert(removed[removed.len() - 1] == rl);
        assert(!d.contains(rl)) by {
            if d.contains(rl) {
                let t = choose|t: int| 0 <= t < d.len() && d[t] == rl;
                assert(removed[t] == removed[removed.len() - 1]);
            }
        }
        assert forall|y: usize| removed.contains(y) <==> d.contains(y) || y == rl by {
            if removed.contains(y) {
                let t = choose|t: int| 0 <= t < removed.len() && removed[t] == y;
                if t < d.len() {
                    assert(d[t] == y);
                }
            }
            if d.contains(y) {
                let t = choose|t: int| 0 <= t < d.len() && d[t] == y;
                assert(removed[t] == y);
            }
        }
        let r = drop_back_edges(nodes, removed, p, layer);
        assert forall|i: int, l: int| 0 <= i < nodes.len() && 0 <= l < nodes[i].layers.len() implies #[trigger] r[i].layers[l]
            == if l == layer && removed.contains(i as usize) {
            without(nodes[i].layers[l], p)
        } else {
            nodes[i].layers[l]
        } by {
            assert(prev[i].layers[l] == if l == layer && d.contains(i as usize) {
                without(nodes[i].layers[l], p)
            } else {
                nodes[i].layers[l]
            });
            if layer < prev[rl as int].layers.len() {
                if i == rl as int {
                    assert(prev[rl as int].layers[layer] == nodes[rl as int].layers[layer]);
                }
            }
        }
    }
}

/// Appending `new_id` to the lists on `layer` of the nodes of `list`
/// changes exactly those lists.
pub proof fn lemma_add_back_edges_facts(nodes: Seq<NodeModel>, list: Seq<usize>, layer: int, new_id: usize)
    requires
        nodes.len() <= usize::MAX,
        0 <= layer,
        list.no_duplicates(),
        forall|k: int| 0 <= k < list.len() ==> #[trigger] list[k] < nodes.len() && layer < nodes[list[k] as int].layers.len(),
    ensures
        add_back_edges(nodes, list, layer, new_id).len() == nodes.len(),
        forall|i: int| 0 <= i < nodes.len() ==> (#[trigger] add_back_edges(nodes, list, layer, new_id)[i]).layers.len()
            == nodes[i].layers.len() && add_back_edges(nodes, list, layer, new_id)[i].record_id == nodes[i].record_id,
        forall|i: int, l: int|
            0 <= i < nodes.len() && 0 <= l < nodes[i].layers.len() ==> #[trigger] add_back_edges(nodes, list, layer, new_id)[i].layers[l]
                == if l == layer && list.contains(i as usize) {
                nodes[i].layers[l].push(new_id)
            } else {
                nodes[i].layers[l]
            },
    decreases list.len(),
{
    if list.len() > 0 {
        let d = list.drop_last();
        let j = list.last();
        assert(d.no_duplicates()) by {
            assert forall|a: int, b: int| 0 <= a < d.len() && 0 <= b < d.len() && a != b implies d[a] != d[b] by {
                assert(d[a] == list[a] && d[b] == list[b]);
            }
        }
        assert forall|k: int| 0 <= k < d.len() implies #[trigger] d[k] < nodes.len() && layer < nodes[d[k] as int].layers.len() by {
            assert(d[k] == list[k]);
        }
        lemma_add_back_edges_facts(nodes, d, layer, new_id);
        let prev = add_back_edges(nodes, d, layer, new_id);
        assert(list[list.len() - 1] == j);
        assert(!d.contains(j)) by {
            if d.contains(j) {
                let t = choose|t: int| 0 <= t < d.len() && d[t] == j;
                assert(list[t] == list[list.len() - 1]);
            }
        }
        assert forall|y: usize| list.contains(y) <==> d.contains(y) || y == j by {
            if list.contains(y) {
                let t = choose|t: int| 0 <= t < list.len() && list[t] == y;
                if t < d.len() {
                    assert(d[t] == y);
                }
            }
            if d.contains(y) {
                let t = choose|t: int| 0 <= t < d.len() && d[t] == y;
                assert(list[t] == y);
            }
        }
        let r = add_back_edges(nodes, list, layer, new_id);
        assert(prev[j as int].layers[layer] == nodes[j as int].layers[layer]);
        assert forall|i: int, l: int| 0 <= i < nodes.len() && 0 <= l < nodes[i].layers.len() implies #[trigger] r[i].layers[l]
            == if l == layer && list.contains(i as usize) {
            nodes[i].layers[l].push(new_id)
        } else {
            nodes[i].layers[l]
        } by {
            assert(prev[i].layers[l] == if l == layer && d.contains(i as usize) {
                nodes[i].layers[l].push(new_id)
            } else {
                nodes[i].layers[l]
            });
        }
    }
}

/// Linking `new_id` back from its chosen neighbours on the layers `0..=layer`
/// appends it to exactly their lists on those layers.
pub proof fn lemma_link_layers_facts(nodes: Seq<NodeModel>, sel: Seq<Seq<usize>>, layer: int, new_id: usize)
    requires
        nodes.len() <= usize::MAX,
        layer < sel.len(),
        forall|l: int| 0 <= l <= layer ==> (#[trigger] sel[l]).no_duplicates(),
        forall|l: int, k: int|
            0 <= l <= layer && 0 <= k < sel[l].len() ==> #[trigger] sel[l][k] < nodes.len() && l < nodes[sel[l][k] as int].layers.len(),
    ensures
        link_layers(nodes, sel, layer, new_id).len() == nodes.len(),
        forall|i: int| 0 <= i < nodes.len() ==> (#[trigger] link_layers(nodes, sel, layer, new_id)[i]).layers.len()
            == nodes[i].layers.len() && link_layers(nodes, sel, layer, new_id)[i].record_id == nodes[i].record_id,
        forall|i: int, l: int|
            0 <= i < nodes.len() && 0 <= l < nodes[i].layers.len() ==> #[trigger] link_layers(nodes, sel, layer, new_id)[i].layers[l]
                == if 0 <= l <= layer && sel[l].contains(i as usize) {
                nodes[i].layers[l].push(new_id)
            } else {
                nodes[i].layers[l]
            },
    decreases layer + 1,
{
    if layer >= 0 {
        assert forall|k: int| 0 <= k < sel[layer].len() implies #[trigger] sel[layer][k] < nodes.len() && layer < nodes[sel[layer][k] as int].layers.len() by {
            assert(sel[layer][k] < nodes.len() && layer < nodes[sel[layer][k] as int].layers.len());
        }
        lemma_add_back_edges_facts(nodes, sel[layer], layer, new_id);
        let mid = add_back_edges(nodes, sel[layer], layer, new_id);
        assert forall|l: int, k: int| 0 <= l <= layer - 1 && 0 <= k < sel[l].len() implies #[trigger] sel[l][k] < mid.len() && l
            < mid[sel[l][k] as int].layers.len() by {
            assert(sel[l][k] < nodes.len() && l < nodes[sel[l][k] as int].layers.len());
        }
        lemma_link_layers_facts(mid, sel, layer - 1, new_id);
        let r = link_layers(nodes, sel, layer, new_id);
        assert(r == link_layers(mid, sel, layer - 1, new_id));
        assert forall|i: int, l: int| 0 <= i < nodes.len() && 0 <= l < nodes[i].layers.len() implies #[trigger] r[i].layers[l]
            == if 0 <= l <= layer && sel[l].contains(i as usize) {
            nodes[i].layers[l].push(new_id)
        } else {
            nodes[i].layers[l]
        } by {
            assert(mid[i].layers[l] == if l == layer && sel[layer].contains(i as usize) {
                nodes[i].layers[l].push(new_id)
            } else {
                nodes[i].layers[l]
            });
        }
        assert forall|i: int| 0 <= i < nodes.len() implies (#[trigger] r[i]).layers.len() == nodes[i].layers.len()
            && r[i].record_id == nodes[i].record_id by {
            assert(mid[i].layers.len() == nodes[i].layers.len());
        }
    }
}

/// The ids of the neighbours of a list without repeats, ranked by score, are
/// the list's ids without repeats.
proof fn lemma_ranked_ids(list: Seq<usize>, sc: spec_fn(usize) -> i32)
    requires
        list.no_duplicates(),
    ensures
        ids_of(sort_desc(scored_list(list, sc))).len() == list.len(),
        ids_of(sort_desc(scored_list(list, sc))).no_duplicates(),
        forall|y: usize| #[trigger] ids_of(sort_desc(scored_list(list, sc))).contains(y) <==> list.contains(y),
{
    let scored = scored_list(list, sc);
    let ranked = sort_desc(scored);
    let ids = ids_of(ranked);
    let tag = |j: usize| (j, sc(j));
    assert(scored == list.map_values(tag));
    assert(vstd::relations::injective(tag)) by {
        assert forall|a: usize, b: usize| #[trigger] tag(a) == #[trigger] tag(b) implies a == b by {}
    }
    list.lemma_no_duplicates_injective(tag);
    scored.lemma_multiset_has_no_duplicates();
    lemma_sort_desc_facts(scored);
    let fits = |e: ScoredNode| e.1 == sc(e.0);
    assert(all_satisfy(scored, fits));
    assert(all_satisfy(ranked, fits));
    assert forall|x: ScoredNode| ranked.to_multiset().contains(x) implies ranked.to_multiset().count(x) == 1 by {
        assert(scored.to_multiset().contains(x));
    }
    ranked.lemma_multiset_has_no_duplicates_conv();
    assert forall|a: int, b: int| 0 <= a < ids.len() && 0 <= b < ids.len() && a != b implies ids[a] != ids[b] by {
        assert(fits(ranked[a]) && fits(ranked[b]));
        assert(ranked[a] != ranked[b]);
    }
    assert forall|y: usize| #[trigger] ids.contains(y) <==> list.contains(y) by {
        if ids.contains(y) {
            let t = choose|t: int| 0 <= t < ids.len() && ids[t] == y;
            let e = ranked[t];
            assert(ranked.contains(e));
            vstd::seq_lib::to_multiset_contains(ranked, e);
            vstd::seq_lib::to_multiset_contains(scored, e);
            let u = choose|u: int| 0 <= u < scored.len() && scored[u] == e;
            assert(list[u] == y);
        }
        if list.contains(y) {
            let u = choose|u: int| 0 <= u < list.len() && list[u] == y;
            let e = (y, sc(y));
            assert(scored[u] == e);
            assert(scored.contains(e));
            vstd::seq_lib::to_multiset_contains(scored, e);
            vstd::seq_lib::to_multiset_contains(ranked, e);
            let t = choose|t: int| 0 <= t < ranked.len() && ranked[t] == e;
            assert(ids[t] == y);
        }
    }
}

/// Pruning a node keeps the links undirected and simple: the node keeps
/// some of its neighbours, and each neighbour it drops drops it too.
pub proof fn lemma_prune_keeps_undirected(
    nodes: Seq<NodeModel>,
    m: usize,
    sim: spec_fn(usize, usize) -> i32,
    p: usize,
    layer: int,
)
    requires
        nodes.len() <= usize::MAX,
        undirected(nodes),
        p < nodes.len(),
        0 <= layer < nodes[p as int].layers.len(),
    ensures
        undirected(prune_node(nodes, m, sim, p, layer)),
        prune_node(nodes, m, sim, p, layer).len() == nodes.len(),
{
    let list = nodes[p as int].layers[layer];
    if list.len() <= m {
        return;
    }
    let sc = |j: usize| sim(p, j);
    let ranked = sort_desc(scored_list(list, sc));
    let ids = ids_of(ranked);
    let kept = ids_of(ranked.take(m as int));
    let removed = ids_of(ranked.skip(m as int));
    lemma_ranked_ids(list, sc);
    lemma_sort_desc_facts(scored_list(list, sc));
    assert(kept =~= ids.take(m as int));
    assert(removed =~= ids.skip(m as int));
    assert forall|y: usize| #[trigger] list.contains(y) <==> kept.contains(y) || removed.contains(y) by {
        if ids.contains(y) {
            let t = choose|t: int| 0 <= t < ids.len() && ids[t] == y;
            if t < m {
                assert(kept[t] == y);
            } else {
                assert(removed[t - m] == y);
            }
        }
        if kept.contains(y) {
            let t = choose|t: int| 0 <= t < kept.len() && kept[t] == y;
            assert(ids[t] == y);
        }
        if removed.contains(y) {
            let t = choose|t: int| 0 <= t < removed.len() && removed[t] == y;
            assert(ids[t + m] == y);
        }
    }
    assert forall|y: usize| kept.contains(y) implies !#[trigger] removed.contains(y) by {
        let a = choose|a: int| 0 <= a < kept.len() && kept[a] == y;
        if removed.contains(y) {
            let b = choose|b: int| 0 <= b < removed.len() && removed[b] == y;
            assert(ids[a] == ids[b + m]);
        }
    }
    assert(kept.no_duplicates()) by {
        assert forall|a: int, b: int| 0 <= a < kept.len() && 0 <= b < kept.len() && a != b implies kept[a] != kept[b] by {
            assert(kept[a] == ids[a] && kept[b] == ids[b]);
        }
    }
    assert(removed.no_duplicates()) by {
        assert forall|a: int, b: int| 0 <= a < removed.len() && 0 <= b < removed.len() && a != b implies removed[a] != removed[b] by {
            assert(removed[a] == ids[a + m] && removed[b] == ids[b + m]);
        }
    }
    assert forall|k: int| 0 <= k < list.len() implies #[trigger] list[k] < nodes.len() && list[k] != p by {
        assert(nodes[p as int].layers[layer][k] < nodes.len());
        assert(list.contains(list[k]));
    }
    assert forall|k: int| 0 <= k < removed.len() implies #[trigger] removed[k] < nodes.len() && removed[k] != p by {
        assert(removed.contains(removed[k]));
        assert(list.contains(removed[k]));
        let u = choose|u: int| 0 <= u < list.len() && list[u] == removed[k];
        assert(list[u] < nodes.len() && list[u] != p);
    }
    let set = set_list(nodes, p, layer, kept);
    lemma_drop_back_edges_facts(set, removed, p, layer);
    let r = drop_back_edges(set, removed, p, layer);
    assert(r == prune_node(nodes, m, sim, p, layer));
    assert(!removed.contains(p));
    // the lists after pruning
    assert forall|i: int, l: int| 0 <= i < nodes.len() && 0 <= l < nodes[i].layers.len() implies #[trigger] r[i].layers[l]
        == if i == p && l == layer {
        kept
    } else if l == layer && removed.contains(i as usize) {
        without(nodes[i].layers[l], p)
    } else {
        nodes[i].layers[l]
    } by {
        assert(set[i].layers.len() == nodes[i].layers.len());
        assert(r[i].layers[l] == if l == layer && removed.contains(i as usize) {
            without(set[i].layers[l], p)
        } else {
            set[i].layers[l]
        });
    }
    assert forall|i: int| 0 <= i < nodes.len() implies (#[trigger] r[i]).layers.len() == nodes[i].layers.len() by {
        assert(set[i].layers.len() == nodes[i].layers.len());
    }
    assert(links_both_ways(r)) by {
        assert forall|i: int, l: int, k: int|
            #![trigger r[i].layers[l][k]]
            0 <= i < r.len() && 0 <= l < r[i].layers.len() && 0 <= k < r[i].layers[l].len() implies {
                &&& r[i].layers[l][k] < r.len()
                &&& l < r[r[i].layers[l][k] as int].layers.len()
                &&& r[r[i].layers[l][k] as int].layers[l].contains(i as usize)
            } by {
            let j = r[i].layers[l][k];
            if i == p && l == layer {
                assert(kept.contains(j));
                assert(list.contains(j));
                let u = choose|u: int| 0 <= u < list.len() && list[u] == j;
                assert(nodes[p as int].layers[layer][u] == j);
                assert(nodes[j as int].layers[layer].contains(p));
                assert(j != p);
                assert(!removed.contains(j));
                assert(r[j as int].layers[layer] == nodes[j as int].layers[layer]);
            } else if l == layer && removed.contains(i as usize) {
                lemma_without_facts(nodes[i].layers[l], p);
                assert(without(nodes[i].layers[l], p).contains(j));
                let u = choose|u: int| 0 <= u < nodes[i].layers[l].len() && nodes[i].layers[l][u] == j;
                assert(nodes[i].layers[l][u] == j);
                assert(nodes[j as int].layers[l].contains(i as usize));
                assert(j != p);
                if removed.contains(j) {
                    lemma_without_facts(nodes[j as int].layers[l], p);
                    assert(i as usize != p);
                }
            } else {
                assert(r[i].layers[l] == nodes[i].layers[l]);
                assert(nodes[i].layers[l][k] == j);
                assert(nodes[j as int].layers[l].contains(i as usize));
                if j == p && l == layer {
                    let u = choose|u: int| 0 <= u < nodes[p as int].layers[layer].len() && nodes[p as int].layers[layer][u] == i as usize;
                    assert(list.contains(i as usize));
                    assert(kept.contains(i as usize));
                } else if l == layer && removed.contains(j) {
                    lemma_without_facts(nodes[j as int].layers[l], p);
                    assert(i as usize != p);
                }
            }
        }
    }
    assert(lists_simple(r)) by {
        assert forall|i: int, l: int| 0 <= i < r.len() && 0 <= l < r[i].layers.len() implies (#[trigger] r[i].layers[l]).no_duplicates()
            && !r[i].layers[l].contains(i as usize) by {
            if i == p && l == layer {
                if kept.contains(p) {
                    assert(list.contains(p));
                }
            } else if l == layer && removed.contains(i as usize) {
                lemma_without_facts(nodes[i].layers[l], p);
            }
        }
    }
}

/// Linking a new node keeps the links undirected and simple, when its chosen
/// neighbours on each layer are distinct nodes of the graph living on that
/// layer.
pub proof fn lemma_link_keeps_undirected(nodes: Seq<NodeModel>, rid: usize, level: usize, sel: Seq<Seq<usize>>)
    requires
        nodes.len() < usize::MAX,
        undirected(nodes),
        1 <= sel.len() <= level + 1,
        forall|l: int, k: int|
            0 <= l < sel.len() && 0 <= k < sel[l].len() ==> #[trigger] sel[l][k] < nodes.len() && l < nodes[sel[l][k] as int].layers.len(),
        forall|l: int| 0 <= l < sel.len() ==> (#[trigger] sel[l]).no_duplicates(),
    ensures
        undirected(link_layers(nodes.push(new_node(rid, level, sel)), sel, sel.len() - 1, nodes.len() as usize)),
{
    let n = nodes.len() as int;
    let nn = new_node(rid, level, sel);
    let pushed = nodes.push(nn);
    let top = sel.len() - 1;
    assert forall|l: int, k: int| 0 <= l <= top && 0 <= k < sel[l].len() implies #[trigger] sel[l][k] < pushed.len() && l
        < pushed[sel[l][k] as int].layers.len() by {
        assert(sel[l][k] < nodes.len() && l < nodes[sel[l][k] as int].layers.len());
        assert(pushed[sel[l][k] as int] == nodes[sel[l][k] as int]);
    }
    lemma_link_layers_facts(pushed, sel, top, n as usize);
    let r = link_layers(pushed, sel, top, n as usize);
    assert(pushed[n] == nn);
    assert forall|l: int| 0 <= l <= top implies !(#[trigger] sel[l]).contains(n as usize) by {
        if sel[l].contains(n as usize) {
            let t = choose|t: int| 0 <= t < sel[l].len() && sel[l][t] == n as usize;
            assert(sel[l][t] < nodes.len());
        }
    }
    assert forall|i: int, l: int| 0 <= i < r.len() && 0 <= l < r[i].layers.len() implies #[trigger] r[i].layers[l] == if i
        == n {
        if l < sel.len() {
            sel[l]
        } else {
            Seq::<usize>::empty()
        }
    } else if l <= top && sel[l].contains(i as usize) {
        nodes[i].layers[l].push(n as usize)
    } else {
        nodes[i].layers[l]
    } by {
        assert(r[i].layers.len() == pushed[i].layers.len());
        if i < n {
            assert(pushed[i] == nodes[i]);
        }
    }
    assert forall|i: int| 0 <= i < r.len() implies (#[trigger] r[i]).layers.len() == pushed[i].layers.len() by {}
    assert forall|i: int, l: int, y: usize| 0 <= i < n && 0 <= l < nodes[i].layers.len() && #[trigger] nodes[i].layers[l].contains(y)
        implies y < n by {
        let u = choose|u: int| 0 <= u < nodes[i].layers[l].len() && nodes[i].layers[l][u] == y;
        assert(nodes[i].layers[l][u] < nodes.len());
    }
    assert(links_both_ways(r)) by {
        assert forall|i: int, l: int, k: int|
            #![trigger r[i].layers[l][k]]
            0 <= i < r.len() && 0 <= l < r[i].layers.len() && 0 <= k < r[i].layers[l].len() implies {
                &&& r[i].layers[l][k] < r.len()
                &&& l < r[r[i].layers[l][k] as int].layers.len()
                &&& r[r[i].layers[l][k] as int].layers[l].contains(i as usize)
            } by {
            let j = r[i].layers[l][k];
            if i == n {
                assert(l < sel.len());
                assert(sel[l][k] == j);
                assert(j < n && l < nodes[j as int].layers.len());
                assert(sel[l].contains(j));
                assert(r[j as int].layers[l] == nodes[j as int].layers[l].push(n as usize));
                assert(r[j as int].layers[l][nodes[j as int].layers[l].len() as int] == n as usize);
            } else if l <= top && sel[l].contains(i as usize) && k == nodes[i].layers[l].len() {
                assert(j == n as usize);
                assert(r[n].layers[l] == sel[l]);
                assert(l < level + 1);
            } else {
                assert(nodes[i].layers[l][k] == j);
                assert(j < n && l < nodes[j as int].layers.len());
                assert(nodes[j as int].layers[l].contains(i as usize));
                let u = choose|u: int| 0 <= u < nodes[j as int].layers[l].len() && nodes[j as int].layers[l][u] == i as usize;
                if l <= top && sel[l].contains(j) {
                    assert(r[j as int].layers[l][u] == i as usize);
                } else {
                    assert(r[j as int].layers[l][u] == i as usize);
                }
            }
        }
    }
    assert(lists_simple(r)) by {
        assert forall|i: int, l: int| 0 <= i < r.len() && 0 <= l < r[i].layers.len() implies (#[trigger] r[i].layers[l]).no_duplicates()
            && !r[i].layers[l].contains(i as usize) by {
            if i == n {
                if l < sel.len() {
                    assert(!sel[l].contains(n as usize));
                }
            } else if l <= top && sel[l].contains(i as usize) {
                let old_list = nodes[i].layers[l];
                let new_list = old_list.push(n as usize);
                assert(!old_list.contains(n as usize));
                assert forall|a: int, b: int| 0 <= a < new_list.len() && 0 <= b < new_list.len() && a != b implies new_list[a]
                    != new_list[b] by {
                    if a < old_list.len() && b < old_list.len() {
                    } else if a < old_list.len() {
                        assert(old_list.contains(old_list[a]));
                    } else if b < old_list.len() {
                        assert(old_list.contains(old_list[b]));
                    }
                }
                if new_list.contains(i as usize) {
                    let t = choose|t: int| 0 <= t < new_list.len() && new_list[t] == i as usize;
                    if t < old_list.len() {
                        assert(old_list.contains(i as usize));
                    }
                }
            }
        }
    }
}

} // verus!
