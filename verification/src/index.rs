//! The graph as it is stored: nodes by position, each with its record and
//! its neighbour lists; no embeddings.
use vstd::prelude::*;
use crate::hnsw::{GraphModel, HnswIndex, Node, NodeModel};

verus! {

/// A stored node: its record and its neighbours on each layer.
#[derive(Debug, PartialEq)]
pub struct PersistedHnswNode {
    pub record_id: usize,
    pub neighbours: Vec<Vec<usize>>,
}

/// The stored graph.
#[derive(Debug, PartialEq)]
pub struct PersistedHnswIndex {
    pub nodes: Vec<PersistedHnswNode>,
    pub entry_point: Option<usize>,
    pub max_layer: usize,
    pub m: usize,
    pub ef: usize,
}

impl View for PersistedHnswNode {
    type V = NodeModel;

    open spec fn view(&self) -> NodeModel {
        NodeModel {
            record_id: self.record_id,
            layers: self.neighbours@.map_values(|l: Vec<usize>| l@),
        }
    }
}

impl View for PersistedHnswIndex {
    type V = GraphModel;

    open spec fn view(&self) -> GraphModel {
        GraphModel {
            nodes: self.nodes@.map_values(|n: PersistedHnswNode| n@),
            entry_point: self.entry_point,
            max_layer: self.max_layer,
            m: self.m,
            ef: self.ef,
        }
    }
}

/// The graph in its stored form.
pub fn to_persisted(index: HnswIndex) -> (r: PersistedHnswIndex)
    ensures
        r@ == index@,
{
    let ghost g = index@;
    let HnswIndex { nodes, entry_point, max_layer, m, ef } = index;
    let mut persisted_nodes: Vec<PersistedHnswNode> = Vec::new();
    let mut remaining = nodes;
    let mut taken: Vec<PersistedHnswNode> = Vec::new();
    // nodes are moved out from the back, then put in order
    while remaining.len() > 0
        invariant
            g.nodes == remaining@.map_values(|n: Node| n@) + taken@.map_values(|n: PersistedHnswNode| n@).reverse(),
        decreases remaining.len(),
    {
        let ghost before_r = remaining@;
        let ghost before_t = taken@;
        let node = remaining.pop().unwrap();
        let Node { id: _, neighbours, record_id } = node;
        taken.push(PersistedHnswNode { record_id, neighbours });
        proof {
            assert(before_r =~= remaining@.push(node));
            assert(remaining@.push(node).map_values(|n: Node| n@) =~= remaining@.map_values(|n: Node| n@).push(node@));
            assert(taken@.map_values(|n: PersistedHnswNode| n@) =~= before_t.map_values(|n: PersistedHnswNode| n@).push(node@));
            assert(taken@.map_values(|n: PersistedHnswNode| n@).reverse() =~= seq![node@] + before_t.map_values(|n: PersistedHnswNode| n@).reverse());
            assert(g.nodes =~= remaining@.map_values(|n: Node| n@) + taken@.map_values(|n: PersistedHnswNode| n@).reverse());
        }
    }
    while taken.len() > 0
        invariant
            g.nodes == persisted_nodes@.map_values(|n: PersistedHnswNode| n@) + taken@.map_values(|n: PersistedHnswNode| n@).reverse(),
        decreases taken.len(),
    {
        let ghost before_p = persisted_nodes@;
        let ghost before_t = taken@;
        let node = taken.pop().unwrap();
        let ghost v = node@;
        persisted_nodes.push(node);
        proof {
            assert(before_t =~= taken@.push(node));
            assert(before_t.map_values(|n: PersistedHnswNode| n@) =~= taken@.map_values(|n: PersistedHnswNode| n@).push(v));
            assert(before_t.map_values(|n: PersistedHnswNode| n@).reverse() =~= seq![v] + taken@.map_values(|n: PersistedHnswNode| n@).reverse());
            assert(persisted_nodes@.map_values(|n: PersistedHnswNode| n@) =~= before_p.map_values(|n: PersistedHnswNode| n@).push(v));
            assert(g.nodes =~= persisted_nodes@.map_values(|n: PersistedHnswNode| n@) + taken@.map_values(|n: PersistedHnswNode| n@).reverse());
        }
    }
    let r = PersistedHnswIndex { nodes: persisted_nodes, entry_point, max_layer, m, ef };
    proof {
        assert(taken@.map_values(|n: PersistedHnswNode| n@).reverse() =~= Seq::<NodeModel>::empty());
        assert(r@.nodes =~= g.nodes);
    }
    r
}


/// Whether the stored graph can be searched (see
/// [`GraphModel::searchable`]).
pub fn persisted_graph_searchable(p: &PersistedHnswIndex) -> (r: bool)
    ensures
        r == p@.searchable(),
{
    let ghost g = p@;
    let n = p.nodes.len();
    let mut i: usize = 0;
    while i < n
        invariant
            g == p@,
            n == g.nodes.len(),
            i <= n,
            forall|a: int| 0 <= a < i ==> #[trigger] g.nodes[a].layers.len() >= 1,
            forall|a: int, l: int, k: int|
                0 <= a < i && 0 <= l < g.nodes[a].layers.len() && 0 <= k < g.nodes[a].layers[l].len()
                    ==> g.on_layer(#[trigger] g.nodes[a].layers[l][k], l),
        decreases n - i,
    {
        let node = &p.nodes[i];
        assert(node@ == g.nodes[i as int]);
        if node.neighbours.len() == 0 {
            assert(!g.graph_wf()) by {
                assert(g.nodes[i as int].layers.len() == 0);
            }
            return false;
        }
        let mut l: usize = 0;
        while l < node.neighbours.len()
            invariant
                g == p@,
                n == g.nodes.len(),
                i < n,
                node@ == g.nodes[i as int],
                l <= node.neighbours.len(),
                forall|b: int, k: int|
                    0 <= b < l && 0 <= k < g.nodes[i as int].layers[b].len() ==> g.on_layer(
                        #[trigger] g.nodes[i as int].layers[b][k],
                        b,
                    ),
            decreases node.neighbours.len() - l,
        {
            let list = &node.neighbours[l];
            assert(list@ == g.nodes[i as int].layers[l as int]);
            let mut k: usize = 0;
            while k < list.len()
                invariant
                    g == p@,
                    n == g.nodes.len(),
                    i < n,
                    node@ == g.nodes[i as int],
                    l < node.neighbours.len(),
                    list@ == g.nodes[i as int].layers[l as int],
                    k <= list.len(),
                    forall|c: int| 0 <= c < k ==> g.on_layer(#[trigger] list@[c], l as int),
                decreases list.len() - k,
            {
                let j = list[k];
                if j >= n {
                    assert(!g.graph_wf()) by {
                        assert(!g.on_layer(g.nodes[i as int].layers[l as int][k as int], l as int));
                    }
                    return false;
                }
                assert(p.nodes@[j as int]@ == g.nodes[j as int]);
                if l >= p.nodes[j].neighbours.len() {
                    assert(!g.graph_wf()) by {
                        assert(!g.on_layer(g.nodes[i as int].layers[l as int][k as int], l as int));
                    }
                    return false;
                }
                k += 1;
            }
            l += 1;
        }
        i += 1;
    }
    match p.entry_point {
        None => n == 0,
        Some(e) => {
            if e >= n {
                false
            } else {
                assert(p.nodes@[e as int]@ == g.nodes[e as int]);
                let levels = p.nodes[e].neighbours.len();
                levels >= 1 && levels - 1 >= p.max_layer
            }
        },
    }
}

/// Whether no stored node lives above the top layer.
fn persisted_within_top_layer(p: &PersistedHnswIndex) -> (r: bool)
    ensures
        r == p@.within_top_layer(),
{
    let ghost g = p@;
    let n = p.nodes.len();
    let mut i: usize = 0;
    while i < n
        invariant
            g == p@,
            n == g.nodes.len(),
            i <= n,
            forall|a: int| 0 <= a < i ==> #[trigger] g.nodes[a].layers.len() <= g.max_layer + 1,
        decreases n - i,
    {
        assert(p.nodes@[i as int]@ == g.nodes[i as int]);
        if p.nodes[i].neighbours.len() > p.max_layer && p.nodes[i].neighbours.len() - p.max_layer > 1 {
            assert(g.nodes[i as int].layers.len() > g.max_layer + 1);
            return false;
        }
        i += 1;
    }
    true
}

/// Whether the stored graph is well formed (see [`GraphModel::wf`]).
pub fn persisted_graph_wf(p: &PersistedHnswIndex) -> (r: bool)
    ensures
        r == p@.wf(),
{
    persisted_graph_searchable(p) && persisted_within_top_layer(p)
}

/// The graph rebuilt from its stored form, each node's id being its
/// position; `None` when the stored graph cannot be searched.
pub fn from_persisted(p: PersistedHnswIndex) -> (r: Option<HnswIndex>)
    ensures
        r is Some <==> p@.searchable(),
        r matches Some(index) ==> index@ == p@ && index.ids_wf(),
{
    if !persisted_graph_searchable(&p) {
        return None;
    }
    let ghost g = p@;
    let PersistedHnswIndex { nodes, entry_point, max_layer, m, ef } = p;
    let mut remaining = nodes;
    let mut taken: Vec<PersistedHnswNode> = Vec::new();
    while remaining.len() > 0
        invariant
            g.nodes == remaining@.map_values(|n: PersistedHnswNode| n@) + taken@.map_values(|n: PersistedHnswNode| n@).reverse(),
        decreases remaining.len(),
    {
        let ghost before_r = remaining@;
        let ghost before_t = taken@;
        let node = remaining.pop().unwrap();
        let ghost v = node@;
        taken.push(node);
        proof {
            assert(before_r =~= remaining@.push(node));
            assert(before_r.map_values(|n: PersistedHnswNode| n@) =~= remaining@.map_values(|n: PersistedHnswNode| n@).push(v));
            assert(taken@.map_values(|n: PersistedHnswNode| n@) =~= before_t.map_values(|n: PersistedHnswNode| n@).push(v));
            assert(taken@.map_values(|n: PersistedHnswNode| n@).reverse() =~= seq![v] + before_t.map_values(|n: PersistedHnswNode| n@).reverse());
            assert(g.nodes =~= remaining@.map_values(|n: PersistedHnswNode| n@) + taken@.map_values(|n: PersistedHnswNode| n@).reverse());
        }
    }
    let mut runtime_nodes: Vec<Node> = Vec::new();
    while taken.len() > 0
        invariant
            g.nodes == runtime_nodes@.map_values(|n: Node| n@) + taken@.map_values(|n: PersistedHnswNode| n@).reverse(),
            forall|a: int| 0 <= a < runtime_nodes.len() ==> (#[trigger] runtime_nodes@[a]).id == a,
        decreases taken.len(),
    {
        let ghost before_p = runtime_nodes@;
        let ghost before_t = taken@;
        let node = taken.pop().unwrap();
        let ghost v = node@;
        let PersistedHnswNode { record_id, neighbours } = node;
        let id = runtime_nodes.len();
        runtime_nodes.push(Node { id, neighbours, record_id });
        proof {
            assert(before_t =~= taken@.push(node));
            assert(before_t.map_values(|n: PersistedHnswNode| n@) =~= taken@.map_values(|n: PersistedHnswNode| n@).push(v));
            assert(before_t.map_values(|n: PersistedHnswNode| n@).reverse() =~= seq![v] + taken@.map_values(|n: PersistedHnswNode| n@).reverse());
            assert(runtime_nodes@.map_values(|n: Node| n@) =~= before_p.map_values(|n: Node| n@).push(v));
            assert(g.nodes =~= runtime_nodes@.map_values(|n: Node| n@) + taken@.map_values(|n: PersistedHnswNode| n@).reverse());
        }
    }
    let r = HnswIndex { nodes: runtime_nodes, entry_point, max_layer, m, ef };
    proof {
        assert(taken@.map_values(|n: PersistedHnswNode| n@).reverse() =~= Seq::<NodeModel>::empty());
        assert(r@.nodes =~= g.nodes);
        assert(r@ =~= g);
    }
    Some(r)
}

#[verifier::external_type_specification]
#[verifier::external_body]
pub struct ExPostcardError(postcard::Error);

/// Why the stored graph could not be written or read.
#[derive(Debug)]
pub enum IndexError {
    /// The graph could not be encoded.
    Encode(postcard::Error),
    /// The bytes are not an encoded graph.
    Decode(postcard::Error),
}

/// The bytes that `postcard` writes for a stored graph: its nodes (each a
/// record id and its neighbour lists), entry point, top layer, `m` and
/// `ef`, in that order.
pub uninterp spec fn graph_bytes(g: GraphModel) -> Seq<u8>;

/// `postcard::to_allocvec` of the graph's fields, in the order of its
/// declaration: the graph's encoding. It succeeds: the growable output
/// never refuses a byte, and every field is an integer, an `Option` of one,
/// or a list whose length is known before it is written.
#[verifier::external_body]
fn encode_graph(p: &PersistedHnswIndex) -> (r: Result<Vec<u8>, postcard::Error>)
    ensures
        r is Ok,
        r matches Ok(bytes) ==> bytes@ == graph_bytes(p@),
{
    let nodes: Vec<(usize, &Vec<Vec<usize>>)> = p.nodes.iter().map(|n| (n.record_id, &n.neighbours)).collect();
    postcard::to_allocvec(&(nodes, p.entry_point, p.max_layer, p.m, p.ef))
}

/// `postcard::from_bytes` of a graph's fields, in the order of its
/// declaration. Bytes that encode a graph decode to that graph; of other
/// bytes nothing is stated.
#[verifier::external_body]
fn decode_graph(bytes: &[u8]) -> (r: Result<PersistedHnswIndex, postcard::Error>)
    ensures
        r matches Ok(q) ==> forall|g: GraphModel| #[trigger] graph_bytes(g) == bytes@ ==> q@ == g,
        r is Err ==> forall|g: GraphModel| #[trigger] graph_bytes(g) != bytes@,
{
    let (nodes, entry_point, max_layer, m, ef): (Vec<(usize, Vec<Vec<usize>>)>, Option<usize>, usize, usize, usize) =
        postcard::from_bytes(bytes)?;
    let nodes = nodes.into_iter().map(|(record_id, neighbours)| PersistedHnswNode { record_id, neighbours }).collect();
    Ok(PersistedHnswIndex { nodes, entry_point, max_layer, m, ef })
}

/// The bytes to store for the graph; encoding always succeeds.
pub fn save_hnsw_index(persisted_hnsw_index: &PersistedHnswIndex) -> (r: Result<Vec<u8>, IndexError>)
    ensures
        r matches Ok(bytes) && bytes@ == graph_bytes(persisted_hnsw_index@),
{
    match encode_graph(persisted_hnsw_index) {
        Ok(bytes) => Ok(bytes),
        Err(e) => Err(IndexError::Encode(e)),
    }
}

/// The graph stored in `bytes`: the bytes saved for a graph load as that
/// graph.
pub fn load_hnsw_index(bytes: &[u8]) -> (r: Result<PersistedHnswIndex, IndexError>)
    ensures
        forall|g: GraphModel| #[trigger] graph_bytes(g) == bytes@ ==> (r matches Ok(q) && q@ == g),
{
    match decode_graph(bytes) {
        Ok(q) => Ok(q),
        Err(e) => Err(IndexError::Decode(e)),
    }
}

} // verus!
