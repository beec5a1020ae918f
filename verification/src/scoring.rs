//! Similarity scores as the graph search sees them.
//!
//! The graph never holds embeddings. The caller supplies a score for a node
//! id: an `i32` key whose integer order is the order of the cosine
//! similarity it stands for. A query is scored by a one-argument function
//! over node ids; two nodes of the graph by a two-argument one.
use vstd::prelude::*;

verus! {

/// The key that a scoring function gives id `i`.
pub open spec fn score_of<F: Fn(usize) -> i32>(f: F, i: usize) -> i32 {
    choose|r: i32| call_ensures(f, (i,), r)
}

/// `f` may be called on every id below `n` and always gives the same key
/// for the same id.
pub open spec fn is_scorer<F: Fn(usize) -> i32>(f: F, n: nat) -> bool {
    &&& forall|i: usize| i < n ==> call_requires(f, (i,))
    &&& forall|i: usize, r: i32| i < n && #[trigger] call_ensures(f, (i,), r) ==> r == score_of(f, i)
}

/// The key that a similarity function gives the pair `(a, b)`.
pub open spec fn sim_of<G: Fn(usize, usize) -> i32>(g: G, a: usize, b: usize) -> i32 {
    choose|r: i32| call_ensures(g, (a, b), r)
}

/// The keys of a scoring function as a function of the id.
pub open spec fn query_fn<F: Fn(usize) -> i32>(f: F) -> spec_fn(usize) -> i32 {
    |i: usize| score_of(f, i)
}

/// The keys of a similarity function as a function of the pair.
pub open spec fn sim_fn<G: Fn(usize, usize) -> i32>(g: G) -> spec_fn(usize, usize) -> i32 {
    |a: usize, b: usize| sim_of(g, a, b)
}

/// `g` may be called on every pair of ids below `n` and always gives the
/// same key for the same pair.
pub open spec fn is_similarity<G: Fn(usize, usize) -> i32>(g: G, n: nat) -> bool {
    &&& forall|a: usize, b: usize| a < n && b < n ==> call_requires(g, (a, b))
    &&& forall|a: usize, b: usize, r: i32|
        a < n && b < n && #[trigger] call_ensures(g, (a, b), r) ==> r == sim_of(g, a, b)
}

/// Something that scores node ids against one fixed target.
pub trait Scorer {
    /// Ids below this bound may be scored.
    spec fn bound(&self) -> nat;

    /// The key of id `i`.
    spec fn score_spec(&self, i: usize) -> i32;

    fn score(&self, i: usize) -> (r: i32)
        requires
            i < self.bound(),
        ensures
            r == self.score_spec(i),
    ;
}

/// The keys of a scorer as a function.
pub open spec fn score_fn<S: Scorer>(sc: &S) -> spec_fn(usize) -> i32 {
    |i: usize| sc.score_spec(i)
}

/// Scores node ids against a query, through a function of the id.
pub struct QueryScorer<F> {
    pub f: F,
    pub n: usize,
}

impl<F: Fn(usize) -> i32> QueryScorer<F> {
    /// A scorer over the ids below `n`.
    pub fn new(f: F, n: usize) -> (r: Self)
        ensures
            r.f == f,
            r.n == n,
    {
        QueryScorer { f, n }
    }
}

impl<F: Fn(usize) -> i32> Scorer for QueryScorer<F> {
    open spec fn bound(&self) -> nat {
        if is_scorer(self.f, self.n as nat) {
            self.n as nat
        } else {
            0
        }
    }

    open spec fn score_spec(&self, i: usize) -> i32 {
        score_of(self.f, i)
    }

    fn score(&self, i: usize) -> (r: i32) {
        (self.f)(i)
    }
}

/// Scores node ids against the node `target`, through a similarity of two
/// ids.
pub struct NodeScorer<'a, G> {
    pub sim: &'a G,
    pub target: usize,
    pub n: usize,
}

impl<'a, G: Fn(usize, usize) -> i32> Scorer for NodeScorer<'a, G> {
    open spec fn bound(&self) -> nat {
        if is_similarity(*self.sim, self.n as nat) && self.target < self.n {
            self.n as nat
        } else {
            0
        }
    }

    open spec fn score_spec(&self, i: usize) -> i32 {
        sim_of(*self.sim, self.target, i)
    }

    fn score(&self, i: usize) -> (r: i32) {
        (self.sim)(self.target, i)
    }
}

} // verus!
