//! Stable descending ordering of scored items.
//!
//! A score is an `i32` key whose integer order is the order of the
//! similarity it stands for, so every "most similar first" ordering of the
//! search code is a stable sort by descending key.
use vstd::prelude::*;

verus! {

broadcast use vstd::seq_lib::group_to_multiset_ensures;

/// A node id (or a position) paired with its score key: `(id, score)`.
pub type ScoredNode = (usize, i32);

/// `sorted` with `x` placed after every element whose score is at least
/// `x`'s, scanning from the back.
pub open spec fn insert_desc(sorted: Seq<ScoredNode>, x: ScoredNode) -> Seq<ScoredNode>
    decreases sorted.len(),
{
    if sorted.len() == 0 {
        seq![x]
    } else if sorted.last().1 >= x.1 {
        sorted.push(x)
    } else {
        insert_desc(sorted.drop_last(), x).push(sorted.last())
    }
}

/// The stable sort of `s` by descending score: higher scores first, and
/// equal scores in their original order.
pub open spec fn sort_desc(s: Seq<ScoredNode>) -> Seq<ScoredNode>
    decreases s.len(),
{
    if s.len() == 0 {
        Seq::empty()
    } else {
        insert_desc(sort_desc(s.drop_last()), s.last())
    }
}

/// Scores never increase along `s`.
pub open spec fn is_desc(s: Seq<ScoredNode>) -> bool {
    forall|i: int, j: int| 0 <= i < j < s.len() ==> s[i].1 >= s[j].1
}

/// Every element of `s` satisfies `p`.
pub open spec fn all_satisfy(s: Seq<ScoredNode>, p: spec_fn(ScoredNode) -> bool) -> bool {
    forall|i: int| 0 <= i < s.len() ==> p(#[trigger] s[i])
}

/// The ids of a scored sequence, in order.
pub open spec fn ids_of(s: Seq<ScoredNode>) -> Seq<usize> {
    s.map_values(|e: ScoredNode| e.0)
}

/// Each position of `scores` paired with its score.
pub open spec fn enumerate_scores(scores: Seq<i32>) -> Seq<ScoredNode> {
    Seq::new(scores.len(), |i: int| (i as usize, scores[i]))
}

/// Inserting into a sequence whose tail from `k` on scores below `x`
/// leaves that tail behind the insertion point.
pub proof fn lemma_insert_desc_split(s: Seq<ScoredNode>, x: ScoredNode, k: int)
    requires
        0 <= k <= s.len(),
        forall|t: int| k <= t < s.len() ==> s[t].1 < x.1,
    ensures
        insert_desc(s, x) == insert_desc(s.take(k), x) + s.skip(k),
    decreases s.len() - k,
{
    if k == s.len() {
        assert(s.take(k) =~= s);
        assert(s.skip(k) =~= Seq::<ScoredNode>::empty());
        assert(insert_desc(s.take(k), x) + s.skip(k) =~= insert_desc(s, x));
    } else {
        let d = s.drop_last();
        lemma_insert_desc_split(d, x, k);
        assert(d.take(k) =~= s.take(k));
        assert(d.skip(k).push(s.last()) =~= s.skip(k));
        assert((insert_desc(d.take(k), x) + d.skip(k)).push(s.last()) =~= insert_desc(s.take(k), x)
            + s.skip(k));
    }
}

/// `insert_desc` keeps the length, the elements and every property of them.
pub proof fn lemma_insert_desc_facts(s: Seq<ScoredNode>, x: ScoredNode)
    ensures
        insert_desc(s, x).len() == s.len() + 1,
        insert_desc(s, x).to_multiset() =~= s.to_multiset().insert(x),
        forall|p: spec_fn(ScoredNode) -> bool|
            all_satisfy(s, p) && p(x) ==> all_satisfy(#[trigger] insert_desc(s, x), p),
        is_desc(s) ==> is_desc(insert_desc(s, x)),
    decreases s.len(),
{
    if s.len() == 0 {
        assert(seq![x] =~= Seq::<ScoredNode>::empty().push(x));
    } else if s.last().1 >= x.1 {
    } else {
        let d = s.drop_last();
        lemma_insert_desc_facts(d, x);
        assert(d.push(s.last()) =~= s);
        assert forall|p: spec_fn(ScoredNode) -> bool|
            all_satisfy(s, p) && p(x) implies all_satisfy(#[trigger] insert_desc(s, x), p) by {
            assert(all_satisfy(d, p));
            let r = insert_desc(d, x);
            assert(all_satisfy(r, p));
            assert forall|i: int| 0 <= i < r.push(s.last()).len() implies p(
                #[trigger] r.push(s.last())[i],
            ) by {
                if i < r.len() {
                    assert(r.push(s.last())[i] == r[i]);
                } else {
                    assert(p(s[s.len() - 1]));
                }
            }
        }
        if is_desc(s) {
            let r = insert_desc(d, x);
            assert(is_desc(d));
            // every element of r is either x or an element of d, all of which score at least s.last()
            let q = |e: ScoredNode| e.1 >= s.last().1;
            assert(all_satisfy(d, q));
            assert(q(x));
            assert(all_satisfy(r, q));
            assert forall|i: int, j: int| 0 <= i < j < r.push(s.last()).len() implies r.push(
                s.last(),
            )[i].1 >= r.push(s.last())[j].1 by {
                if j < r.len() {
                } else {
                    assert(q(r[i]));
                }
            }
        }
    }
}

/// `sort_desc` keeps the length and the elements, and yields a sequence in
/// descending order.
pub proof fn lemma_sort_desc_facts(s: Seq<ScoredNode>)
    ensures
        sort_desc(s).len() == s.len(),
        sort_desc(s).to_multiset() =~= s.to_multiset(),
        is_desc(sort_desc(s)),
        forall|p: spec_fn(ScoredNode) -> bool| all_satisfy(s, p) ==> all_satisfy(#[trigger] sort_desc(s), p),
    decreases s.len(),
{
    if s.len() > 0 {
        let d = s.drop_last();
        lemma_sort_desc_facts(d);
        lemma_insert_desc_facts(sort_desc(d), s.last());
        assert(d.push(s.last()) =~= s);
        assert forall|p: spec_fn(ScoredNode) -> bool| all_satisfy(s, p) implies all_satisfy(
            #[trigger] sort_desc(s),
            p,
        ) by {
            assert(all_satisfy(d, p));
            assert(p(s[s.len() - 1]));
        }
    }
}

/// For a descending sequence, truncating before or after an insertion gives
/// the same first `k` elements.
pub proof fn lemma_insert_desc_take(s: Seq<ScoredNode>, x: ScoredNode, k: int)
    requires
        is_desc(s),
        0 <= k,
    ensures
        insert_desc(s.take(min_int(k, s.len() as int)), x).take(min_int(k, s.len() + 1int))
            == insert_desc(s, x).take(min_int(k, s.len() + 1int)),
{
    let kk = min_int(k, s.len() as int);
    let k1 = min_int(k, s.len() + 1int);
    // j: number of elements scoring at least x
    let j = insertion_point(s, x);
    lemma_insertion_point(s, x);
    lemma_insert_desc_split(s, x, j);
    assert(insert_desc(s.take(j), x) == s.take(j).push(x)) by {
        if j > 0 {
            assert(s.take(j).drop_last() =~= s.take(j - 1));
        }
    }
    let t = s.take(kk);
    let jt = if j < kk { j } else { kk };
    assert forall|u: int| jt <= u < t.len() implies t[u].1 < x.1 by {}
    lemma_insert_desc_split(t, x, jt);
    assert(insert_desc(t.take(jt), x) == t.take(jt).push(x)) by {
        if jt > 0 {
            assert(t.take(jt)[jt - 1] == s[jt - 1]);
        }
    }
    assert(t.take(jt) =~= s.take(jt));
    if j <= kk {
        assert((s.take(j).push(x) + t.skip(j)).take(k1) =~= (s.take(j).push(x) + s.skip(j)).take(
            k1,
        ));
    } else {
        assert((s.take(kk).push(x) + t.skip(kk)).take(k1) =~= (s.take(j).push(x) + s.skip(
            j,
        )).take(k1));
    }
}

/// The smaller of two integers.
pub open spec fn min_int(a: int, b: int) -> int {
    if a < b { a } else { b }
}

/// The number of leading elements of a descending sequence that score at
/// least `x`.
pub open spec fn insertion_point(s: Seq<ScoredNode>, x: ScoredNode) -> int
    decreases s.len(),
{
    if s.len() == 0 {
        0
    } else if s.last().1 >= x.1 {
        s.len() as int
    } else {
        insertion_point(s.drop_last(), x)
    }
}

pub proof fn lemma_insertion_point(s: Seq<ScoredNode>, x: ScoredNode)
    requires
        is_desc(s),
    ensures
        0 <= insertion_point(s, x) <= s.len(),
        forall|t: int| 0 <= t < insertion_point(s, x) ==> s[t].1 >= x.1,
        forall|t: int| insertion_point(s, x) <= t < s.len() ==> s[t].1 < x.1,
    decreases s.len(),
{
    if s.len() > 0 {
        if s.last().1 >= x.1 {
            assert forall|t: int| 0 <= t < s.len() implies s[t].1 >= x.1 by {
                if t < s.len() - 1 {
                    assert(s[t].1 >= s[s.len() - 1].1);
                }
            }
        } else {
            let d = s.drop_last();
            assert(is_desc(d));
            lemma_insertion_point(d, x);
            assert(insertion_point(s, x) == insertion_point(d, x));
            assert forall|t: int| 0 <= t < insertion_point(s, x) implies s[t].1 >= x.1 by {
                assert(s[t] == d[t]);
            }
            assert forall|t: int| insertion_point(s, x) <= t < s.len() implies s[t].1 < x.1 by {
                if t < s.len() - 1 {
                    assert(s[t] == d[t]);
                }
            }
        }
    }
}

/// Inserts `x` into `out` the way `insert_desc` says.
pub fn insert_desc_exec(out: &mut Vec<ScoredNode>, x: ScoredNode)
    ensures
        final(out)@ == insert_desc(old(out)@, x),
{
    let mut j = out.len();
    while j > 0 && out[j - 1].1 < x.1
        invariant
            j <= out.len(),
            out@ == old(out)@,
            forall|t: int| j <= t < out.len() ==> out@[t].1 < x.1,
        decreases j,
    {
        j -= 1;
    }
    proof {
        let s = out@;
        lemma_insert_desc_split(s, x, j as int);
        if j > 0 {
            assert(s.take(j as int).drop_last() =~= s.take(j - 1));
        }
        assert(insert_desc(s.take(j as int), x) == s.take(j as int).push(x));
        assert(s.insert(j as int, x) =~= s.take(j as int).push(x) + s.skip(j as int));
    }
    out.insert(j, x);
}

/// Sorts `items` stably by descending score.
pub fn sort_desc_exec(items: &Vec<ScoredNode>) -> (r: Vec<ScoredNode>)
    ensures
        r@ == sort_desc(items@),
{
    let mut out: Vec<ScoredNode> = Vec::new();
    let mut i: usize = 0;
    while i < items.len()
        invariant
            i <= items.len(),
            out@ == sort_desc(items@.take(i as int)),
        decreases items.len() - i,
    {
        assert(items@.take(i + 1).drop_last() =~= items@.take(i as int));
        insert_desc_exec(&mut out, items[i]);
        i += 1;
    }
    assert(items@.take(items.len() as int) =~= items@);
    out
}

/// The positions of the `top_k` highest scores, highest first; equal scores
/// keep their order of position.
pub open spec fn top_positions(scores: Seq<i32>, top_k: nat) -> Seq<usize> {
    let sorted = sort_desc(enumerate_scores(scores));
    ids_of(sorted.take(if top_k < sorted.len() { top_k as int } else { sorted.len() as int }))
}

/// Ranks positions by descending score and keeps the first `top_k`: the
/// stable sort of every position by its score, truncated.
pub fn rank_top_k(scores: &Vec<i32>, top_k: usize) -> (r: Vec<usize>)
    ensures
        r@ == top_positions(scores@, top_k as nat),
        r.len() == if top_k < scores.len() { top_k } else { scores.len() },
{
    let ghost all = enumerate_scores(scores@);
    let mut buffer: Vec<ScoredNode> = Vec::new();
    let mut i: usize = 0;
    while i < scores.len()
        invariant
            i <= scores.len(),
            all == enumerate_scores(scores@),
            buffer@ == sort_desc(all.take(i as int)).take(
                if top_k < i { top_k as int } else { i as int },
            ),
        decreases scores.len() - i,
    {
        let ghost before = sort_desc(all.take(i as int));
        proof {
            lemma_sort_desc_facts(all.take(i as int));
            lemma_insert_desc_take(before, (i, scores@[i as int]), top_k as int);
            assert(all.take(i + 1).drop_last() =~= all.take(i as int));
            assert(all.take(i + 1).last() == (i, scores@[i as int]));
        }
        let ghost kept = buffer@;
        insert_desc_exec(&mut buffer, (i, scores[i]));
        proof {
            lemma_insert_desc_facts(kept, (i, scores@[i as int]));
            let after = sort_desc(all.take(i + 1));
            assert(after == insert_desc(before, (i, scores@[i as int])));
            assert(kept == before.take(min_int(top_k as int, before.len() as int)));
        }
        if buffer.len() > top_k {
            buffer.truncate(top_k);
        }
        proof {
            let after = sort_desc(all.take(i + 1));
            lemma_sort_desc_facts(all.take(i + 1));
            assert(buffer@ =~= after.take(if top_k < i + 1 { top_k as int } else { i + 1 }));
        }
        i += 1;
    }
    assert(all.take(scores.len() as int) =~= all);
    let mut r: Vec<usize> = Vec::new();
    let mut k: usize = 0;
    while k < buffer.len()
        invariant
            k <= buffer.len(),
            r@ == ids_of(buffer@.take(k as int)),
        decreases buffer.len() - k,
    {
        r.push(buffer[k].0);
        k += 1;
        assert(ids_of(buffer@.take(k as int)) =~= ids_of(buffer@.take(k - 1)).push(buffer@[k - 1].0));
    }
    assert(buffer@.take(buffer.len() as int) =~= buffer@);
    proof {
        lemma_sort_desc_facts(all);
    }
    r
}

/// Exact ranking returns the best scores, best first: the positions it
/// returns are positions of `scores`, their scores never increase along the
/// result, and no position left out scores higher than one returned.
pub proof fn law_top_positions_are_best(scores: Seq<i32>, top_k: nat)
    requires
        scores.len() <= usize::MAX,
    ensures
        ({
            let r = top_positions(scores, top_k);
            &&& r.len() == if top_k < scores.len() { top_k } else { scores.len() }
            &&& forall|i: int| 0 <= i < r.len() ==> #[trigger] r[i] < scores.len()
            &&& forall|i: int, j: int| 0 <= i < j < r.len() ==> scores[r[i] as int] >= scores[r[j] as int]
            &&& forall|q: usize, i: int|
                #![trigger r[i], scores[q as int]]
                0 <= i < r.len() && q < scores.len() && !r.contains(q) ==> scores[r[i] as int] >= scores[q as int]
        }),
{
    let e = enumerate_scores(scores);
    let sorted = sort_desc(e);
    let p = |x: ScoredNode| x.0 < scores.len() && x.1 == scores[x.0 as int];
    assert(all_satisfy(e, p)) by {
        assert forall|i: int| 0 <= i < e.len() implies p(#[trigger] e[i]) by {
            assert(e[i] == (i as usize, scores[i]));
        }
    }
    lemma_sort_desc_facts(e);
    assert(all_satisfy(sorted, p));
    let k = if top_k < sorted.len() { top_k as int } else { sorted.len() as int };
    let r = top_positions(scores, top_k);
    assert(r == ids_of(sorted.take(k)));
    assert forall|i: int| 0 <= i < r.len() implies #[trigger] r[i] < scores.len() && scores[r[i] as int] == sorted[i].1 by {
        assert(p(sorted[i]));
    }
    assert forall|i: int, j: int| 0 <= i < j < r.len() implies scores[r[i] as int] >= scores[r[j] as int] by {
        assert(p(sorted[i]));
        assert(p(sorted[j]));
    }
    assert forall|q: usize, i: int|
        #![trigger r[i], scores[q as int]]
        0 <= i < r.len() && q < scores.len() && !r.contains(q) implies scores[r[i] as int] >= scores[q as int] by {
        let x = (q, scores[q as int]);
        assert(e[q as int] == x);
        assert(e.contains(x));
        assert(e.to_multiset().count(x) > 0);
        assert(sorted.to_multiset().count(x) > 0);
        assert(sorted.contains(x));
        let t = choose|t: int| 0 <= t < sorted.len() && sorted[t] == x;
        if t < k {
            assert(r[t] == q);
            assert(r.contains(q));
        }
        assert(p(sorted[i]));
    }
}

} // verus!
