use vstd::prelude::*;

use crate::sums::{
    lemma_sum_add, lemma_sum_ext, lemma_sum_le, lemma_sum_nonneg, lemma_sum_scale, lemma_sum_update,
    lemma_sum_zero, sum,
};

verus! {

/// An edge in index space: (rank on the swappable side, rank on the static side, weight).
pub type IndexEdge = (usize, usize, usize);

/// Weight with which edge `e` crosses edge `f` when `e` starts above `f` and ends below it.
pub open spec fn crosses(e: IndexEdge, f: IndexEdge) -> int {
    if e.0 < f.0 && e.1 > f.1 {
        e.2 as int * f.2 as int
    } else {
        0
    }
}

/// Weighted crossings of edge `q` with the edges that start above it.
pub open spec fn crossings_of(edges: Seq<IndexEdge>, q: int) -> int {
    sum(edges.len() as int, |p: int| crosses(edges[p], edges[q]))
}

/// Per edge, its weighted crossings with the edges that start above it.
pub open spec fn crossing_rows(edges: Seq<IndexEdge>) -> spec_fn(int) -> int {
    |q: int| crossings_of(edges, q)
}

/// The number of weighted crossings: over all ordered pairs of edges `(e1, e2)` with
/// `i(e1) < i(e2)` and `j(e1) > j(e2)`, the sum of `w(e1) * w(e2)`.
pub open spec fn crossing_count(edges: Seq<IndexEdge>) -> int {
    sum(edges.len() as int, crossing_rows(edges))
}

/// Per edge, its weight.
pub open spec fn weights_of(edges: Seq<IndexEdge>) -> spec_fn(int) -> int {
    |p: int| edges[p].2 as int
}

/// Sum of all weights.
pub open spec fn total_weight(edges: Seq<IndexEdge>) -> int {
    sum(edges.len() as int, weights_of(edges))
}

/// Every edge starts below `left` and ends below `right`.
pub open spec fn edges_within(edges: Seq<IndexEdge>, left: int, right: int) -> bool {
    forall|p: int| 0 <= p < edges.len() ==> (#[trigger] edges[p]).0 < left && edges[p].1 < right
}

spec fn above_terms(edges: Seq<IndexEdge>, q: int) -> spec_fn(int) -> int {
    |p: int|
        if edges[p].0 < edges[q].0 && edges[p].1 > edges[q].1 {
            edges[p].2 as int
        } else {
            0
        }
}

/// Weight of the edges that start above edge `q` and end below it.
spec fn weight_above(edges: Seq<IndexEdge>, q: int) -> int {
    sum(edges.len() as int, above_terms(edges, q))
}

spec fn seen_terms(edges: Seq<IndexEdge>, i: int, q: int, k: int) -> spec_fn(int) -> int {
    |p: int|
        if (edges[p].0 < i || (edges[p].0 == i && p < q)) && edges[p].1 == k {
            edges[p].2 as int
        } else {
            0
        }
}

/// Weight reaching static rank `k` from the edges that start above rank `i`, and from
/// the first `q` edges that start at rank `i`.
spec fn seen_weight(edges: Seq<IndexEdge>, i: int, q: int, k: int) -> int {
    sum(edges.len() as int, seen_terms(edges, i, q, k))
}

spec fn between_terms(edges: Seq<IndexEdge>, i: int, lo: int, hi: int) -> spec_fn(int) -> int {
    |p: int|
        if edges[p].0 < i && lo <= edges[p].1 < hi {
            edges[p].2 as int
        } else {
            0
        }
}

/// Weight reaching static ranks in `[lo, hi)` from the edges that start above rank `i`.
spec fn weight_between(edges: Seq<IndexEdge>, i: int, lo: int, hi: int) -> int {
    sum(edges.len() as int, between_terms(edges, i, lo, hi))
}

spec fn counted_terms(edges: Seq<IndexEdge>, i: int, q: int) -> spec_fn(int) -> int {
    |r: int|
        if edges[r].0 < i || (edges[r].0 == i && r < q) {
            edges[r].2 as int * weight_above(edges, r)
        } else {
            0
        }
}

/// Crossings counted once the edges that start above rank `i`, and the first `q` edges
/// that start at rank `i`, have been processed.
spec fn counted(edges: Seq<IndexEdge>, i: int, q: int) -> int {
    sum(edges.len() as int, counted_terms(edges, i, q))
}

proof fn lemma_crossings_of(edges: Seq<IndexEdge>, q: int)
    requires
        0 <= q < edges.len(),
    ensures
        crossings_of(edges, q) == edges[q].2 as int * weight_above(edges, q),
        0 <= weight_above(edges, q) <= total_weight(edges),
{
    let n = edges.len() as int;
    let f = above_terms(edges, q);
    let g = |p: int| crosses(edges[p], edges[q]);
    assert forall|p: int| 0 <= p < n implies #[trigger] g(p) == edges[q].2 as int * f(p) by {
        if edges[p].0 < edges[q].0 && edges[p].1 > edges[q].1 {
            assert(edges[p].2 as int * edges[q].2 as int == edges[q].2 as int * edges[p].2 as int)
                by (nonlinear_arith);
        }
    }
    lemma_sum_scale(n, edges[q].2 as int, f, g);
    lemma_sum_nonneg(n, f);
    lemma_sum_le(n, f, weights_of(edges));
}

/// The count once every edge has been processed.
proof fn lemma_counted_all(edges: Seq<IndexEdge>, n: int)
    requires
        edges_within(edges, n, usize::MAX as int + 1),
    ensures
        counted(edges, n, 0) == crossing_count(edges),
{
    let len = edges.len() as int;
    let rows = crossing_rows(edges);
    let terms = counted_terms(edges, n, 0);
    assert forall|r: int| 0 <= r < len implies #[trigger] rows(r) == terms(r) by {
        lemma_crossings_of(edges, r);
        assert(edges[r].0 < n);
    }
    lemma_sum_ext(len, rows, terms);
}

/// Every partial count lies between 0 and the full count.
proof fn lemma_counted_bounds(edges: Seq<IndexEdge>, i: int, q: int)
    ensures
        0 <= counted(edges, i, q) <= crossing_count(edges),
{
    let len = edges.len() as int;
    let part = counted_terms(edges, i, q);
    let rows = crossing_rows(edges);
    assert forall|r: int| 0 <= r < len implies 0 <= #[trigger] part(r) <= rows(r) by {
        lemma_crossings_of(edges, r);
        assert(0 <= edges[r].2 as int * weight_above(edges, r)) by (nonlinear_arith)
            requires
                0 <= weight_above(edges, r),
        ;
    }
    lemma_sum_nonneg(len, part);
    lemma_sum_le(len, part, rows);
}

/// The number of weighted crossings between the swappable side (ranks below
/// `swappable_count`) and the static side (ranks below `static_count`): edges are taken
/// rank by rank on the swappable side, and each one crosses the weight already seen
/// at higher static ranks.
pub fn count_index_crossings(
    swappable_count: usize,
    static_count: usize,
    edges: &Vec<IndexEdge>,
) -> (r: u64)
    requires
        edges_within(edges@, swappable_count as int, static_count as int),
        total_weight(edges@) <= u64::MAX,
        crossing_count(edges@) <= u64::MAX,
    ensures
        r == crossing_count(edges@),
{
    let ghost e = edges@;
    let ghost len = e.len() as int;
    let mut seen: Vec<u64> = Vec::new();
    let mut k: usize = 0;
    while k < static_count
        invariant
            k <= static_count,
            seen@.len() == k,
            forall|m: int| 0 <= m < k ==> #[trigger] seen@[m] == 0,
        decreases static_count - k,
    {
        seen.push(0);
        k = k + 1;
    }
    proof {
        assert forall|m: int| 0 <= m < static_count implies #[trigger] seen@[m] == seen_weight(
            e,
            0,
            0,
            m,
        ) by {
            lemma_sum_zero(len, seen_terms(e, 0, 0, m));
        }
        lemma_sum_zero(len, counted_terms(e, 0, 0));
    }
    let mut crossings: u64 = 0;
    let mut i: usize = 0;
    while i < swappable_count
        invariant
            e == edges@,
            len == e.len(),
            i <= swappable_count,
            edges_within(e, swappable_count as int, static_count as int),
            total_weight(e) <= u64::MAX,
            crossing_count(e) <= u64::MAX,
            seen@.len() == static_count,
            forall|m: int|
                0 <= m < static_count ==> #[trigger] seen@[m] == seen_weight(e, i as int, 0, m),
            crossings == counted(e, i as int, 0),
        decreases swappable_count - i,
    {
        // Crossings of the edges at rank i with the weight seen so far.
        let mut q: usize = 0;
        while q < edges.len()
            invariant
                e == edges@,
                len == e.len(),
                q <= len,
                i < swappable_count,
                edges_within(e, swappable_count as int, static_count as int),
                total_weight(e) <= u64::MAX,
                crossing_count(e) <= u64::MAX,
                seen@.len() == static_count,
                forall|m: int|
                    0 <= m < static_count ==> #[trigger] seen@[m] == seen_weight(e, i as int, 0, m),
                crossings == counted(e, i as int, q as int),
            decreases len - q,
        {
            let (node, rank, weight) = edges[q];
            assert(e[q as int] == (node, rank, weight));
            let ghost before = counted_terms(e, i as int, q as int);
            let ghost after = counted_terms(e, i as int, q + 1);
            if node == i {
                let mut above: u64 = 0;
                let mut m: usize = rank + 1;
                proof {
                    lemma_sum_zero(len, between_terms(e, i as int, rank + 1, m as int));
                }
                while m < static_count
                    invariant
                        e == edges@,
                        len == e.len(),
                        rank < static_count,
                        rank + 1 <= m <= static_count,
                        total_weight(e) <= u64::MAX,
                        seen@.len() == static_count,
                        forall|t: int|
                            0 <= t < static_count ==> #[trigger] seen@[t] == seen_weight(
                                e,
                                i as int,
                                0,
                                t,
                            ),
                        above == weight_between(e, i as int, rank + 1, m as int),
                    decreases static_count - m,
                {
                    proof {
                        let cur = between_terms(e, i as int, rank + 1, m as int);
                        let at_m = seen_terms(e, i as int, 0, m as int);
                        let next = between_terms(e, i as int, rank + 1, m + 1);
                        assert forall|p: int| 0 <= p < len implies #[trigger] next(p) == cur(p) + at_m(
                            p,
                        ) by {}
                        lemma_sum_add(len, cur, at_m, next);
                        assert forall|p: int| 0 <= p < len implies #[trigger] next(p) <= weights_of(e)(
                            p,
                        ) by {}
                        lemma_sum_le(len, next, weights_of(e));
                    }
                    above = above + seen[m];
                    m = m + 1;
                }
                proof {
                    let upto = between_terms(e, i as int, rank + 1, static_count as int);
                    let higher = above_terms(e, q as int);
                    assert forall|p: int| 0 <= p < len implies #[trigger] upto(p) == higher(p) by {
                        assert(e[p].1 < static_count);
                    }
                    lemma_sum_ext(len, upto, higher);
                    assert(above == weight_above(e, q as int));
                    assert forall|r: int| 0 <= r < len && r != q implies #[trigger] before(r) == after(
                        r,
                    ) by {}
                    lemma_sum_update(len, before, after, q as int);
                    lemma_counted_bounds(e, i as int, q + 1);
                    lemma_crossings_of(e, q as int);
                    assert(weight as int * above as int == after(q as int));
                }
                crossings = crossings + (weight as u64) * above;
            } else {
                proof {
                    assert forall|r: int| 0 <= r < len implies #[trigger] before(r) == after(r) by {}
                    lemma_sum_ext(len, before, after);
                }
            }
            q = q + 1;
        }
        // Record the weight of the edges at rank i.
        let mut q: usize = 0;
        while q < edges.len()
            invariant
                e == edges@,
                len == e.len(),
                q <= len,
                i < swappable_count,
                edges_within(e, swappable_count as int, static_count as int),
                total_weight(e) <= u64::MAX,
                seen@.len() == static_count,
                forall|m: int|
                    0 <= m < static_count ==> #[trigger] seen@[m] == seen_weight(
                        e,
                        i as int,
                        q as int,
                        m,
                    ),
            decreases len - q,
        {
            let (node, rank, weight) = edges[q];
            assert(e[q as int] == (node, rank, weight));
            let ghost old_seen_view = seen@;
            proof {
                assert(e[q as int].1 < static_count);
            }
            if node == i {
                proof {
                    let before = seen_terms(e, i as int, q as int, rank as int);
                    let after = seen_terms(e, i as int, q + 1, rank as int);
                    assert forall|p: int| 0 <= p < len && p != q implies #[trigger] before(p) == after(
                        p,
                    ) by {}
                    lemma_sum_update(len, before, after, q as int);
                    assert forall|p: int| 0 <= p < len implies #[trigger] after(p) <= weights_of(e)(
                        p,
                    ) by {}
                    lemma_sum_le(len, after, weights_of(e));
                }
                let old_seen = seen[rank];
                seen.set(rank, old_seen + weight as u64);
            }
            proof {
                assert forall|m: int| 0 <= m < static_count implies #[trigger] seen@[m] == seen_weight(
                    e,
                    i as int,
                    q + 1,
                    m,
                ) by {
                    if m != rank || node != i {
                        let before = seen_terms(e, i as int, q as int, m);
                        let after = seen_terms(e, i as int, q + 1, m);
                        assert forall|p: int| 0 <= p < len implies #[trigger] before(p) == after(p) by {}
                        lemma_sum_ext(len, before, after);
                        assert(seen@[m] == old_seen_view[m]);
                    }
                }
            }
            q = q + 1;
        }
        proof {
            assert forall|m: int| 0 <= m < static_count implies #[trigger] seen@[m] == seen_weight(
                e,
                i + 1,
                0,
                m,
            ) by {
                let done = seen_terms(e, i as int, len, m);
                let next = seen_terms(e, i + 1, 0, m);
                assert forall|p: int| 0 <= p < len implies #[trigger] done(p) == next(p) by {}
                lemma_sum_ext(len, done, next);
            }
            let done = counted_terms(e, i as int, len);
            let next = counted_terms(e, i + 1, 0);
            assert forall|r: int| 0 <= r < len implies #[trigger] done(r) == next(r) by {}
            lemma_sum_ext(len, done, next);
        }
        i = i + 1;
    }
    proof {
        lemma_counted_all(e, swappable_count as int);
    }
    crossings
}

/// Crossings never exceed the square of the total weight.
pub proof fn lemma_crossings_bounded(edges: Seq<IndexEdge>)
    ensures
        0 <= total_weight(edges),
        0 <= crossing_count(edges) <= total_weight(edges) * total_weight(edges),
{
    lemma_sum_nonneg(edges.len() as int, weights_of(edges));
    let len = edges.len() as int;
    let tw = total_weight(edges);
    let rows = crossing_rows(edges);
    let hi = |q: int| tw * (edges[q].2 as int);
    assert forall|q: int| 0 <= q < len implies 0 <= #[trigger] rows(q) <= hi(q) by {
        lemma_crossings_of(edges, q);
        let wq = edges[q].2 as int;
        let wa = weight_above(edges, q);
        assert(0 <= wq * wa <= tw * wq) by (nonlinear_arith)
            requires
                0 <= wa <= tw,
                0 <= wq,
        ;
    }
    lemma_sum_nonneg(len, rows);
    lemma_sum_le(len, rows, hi);
    lemma_sum_scale(len, tw, weights_of(edges), hi);
}

} // verus!
