use vstd::prelude::*;

use crate::crossings::{
    crosses, crossing_count, crossing_rows, edges_within, lemma_crossings_bounded, total_weight,
    weights_of, IndexEdge,
};
use crate::layers::{lemma_rank_in_permutation, lemma_rank_onto, rank_of};
use crate::reducer::{fits_i64, is_permutation, swap_adjacent, tracks};
use crate::pairwise::{
    balance, balance_terms, is_pairwise_matrix, lemma_pair_as_double_sum, pair_contribution,
    pair_kernel, pair_terms, sign_of, MAX_LAYER_WEIGHT,
};
use crate::sums::{
    col_sum, lemma_sum_add, lemma_sum_ext, lemma_sum_single, lemma_sum_swap, lemma_sum_zero, row_sum,
    sum,
};

verus! {

/// Rank `r` with ranks `j` and `j + 1` exchanged.
pub open spec fn swapped_rank(r: usize, j: int) -> usize {
    if r == j {
        (j + 1) as usize
    } else if r == j + 1 {
        j as usize
    } else {
        r
    }
}

/// The edges after the swappable nodes at ranks `j` and `j + 1` change places.
pub open spec fn swap_ranks(edges: Seq<IndexEdge>, j: int) -> Seq<IndexEdge> {
    Seq::new(edges.len(), |p: int| (swapped_rank(edges[p].0, j), edges[p].1, edges[p].2))
}

/// `sum_q sum_p f(q, p)` over `0..n` in both indices.
pub open spec fn double_sum(n: int, f: spec_fn(int, int) -> int) -> int {
    sum(n, |q: int| row_sum(f, q, n))
}

proof fn lemma_double_sum_add(
    n: int,
    f: spec_fn(int, int) -> int,
    g: spec_fn(int, int) -> int,
    h: spec_fn(int, int) -> int,
)
    requires
        forall|q: int, p: int| 0 <= q < n && 0 <= p < n ==> #[trigger] h(q, p) == f(q, p) + g(q, p),
    ensures
        double_sum(n, h) == double_sum(n, f) + double_sum(n, g),
{
    let rf = |q: int| row_sum(f, q, n);
    let rg = |q: int| row_sum(g, q, n);
    let rh = |q: int| row_sum(h, q, n);
    assert forall|q: int| 0 <= q < n implies #[trigger] rh(q) == rf(q) + rg(q) by {
        lemma_sum_add(n, |p: int| f(q, p), |p: int| g(q, p), |p: int| h(q, p));
    }
    lemma_sum_add(n, rf, rg, rh);
}

/// A double sum equals the double sum of the transposed terms.
pub proof fn lemma_double_sum_transpose(n: int, f: spec_fn(int, int) -> int, g: spec_fn(int, int) -> int)
    requires
        0 <= n,
        forall|q: int, p: int| 0 <= q < n && 0 <= p < n ==> #[trigger] g(q, p) == f(p, q),
    ensures
        double_sum(n, g) == double_sum(n, f),
{
    lemma_sum_swap(n, n, g);
    let cols = |p: int| col_sum(g, p, n);
    let rows = |p: int| row_sum(f, p, n);
    assert forall|p: int| 0 <= p < n implies #[trigger] cols(p) == rows(p) by {
        lemma_sum_ext(n, |q: int| g(q, p), |q: int| f(p, q));
    }
    lemma_sum_ext(n, cols, rows);
}

/// The crossing count as a double sum.
proof fn lemma_crossings_as_double_sum(edges: Seq<IndexEdge>)
    ensures
        crossing_count(edges) == double_sum(
            edges.len() as int,
            |q: int, p: int| crosses(edges[p], edges[q]),
        ),
{
    let n = edges.len() as int;
    let k = |q: int, p: int| crosses(edges[p], edges[q]);
    let rows = crossing_rows(edges);
    let dr = |q: int| row_sum(k, q, n);
    assert forall|q: int| 0 <= q < n implies #[trigger] rows(q) == dr(q) by {
        lemma_sum_ext(n, |p: int| crosses(edges[p], edges[q]), |p: int| k(q, p));
    }
    lemma_sum_ext(n, rows, dr);
}

/// Exchanging the swappable nodes at ranks `j` and `j + 1` changes the crossing count by
/// `-P[j][j + 1]`.
pub proof fn lemma_rank_swap(edges: Seq<IndexEdge>, j: int)
    requires
        0 <= j,
        j + 1 <= usize::MAX,
    ensures
        crossing_count(swap_ranks(edges, j)) - crossing_count(edges) == -pair_contribution(
            edges,
            j,
            j + 1,
        ),
{
    let n = edges.len() as int;
    let swapped = swap_ranks(edges, j);
    let before = |q: int, p: int| crosses(edges[p], edges[q]);
    let after = |q: int, p: int| crosses(swapped[p], swapped[q]);
    // Pairs with the edge `p` at rank j, the edge `q` at rank j + 1, `p` ending below `q`.
    let k1 = |q: int, p: int|
        if edges[p].0 == j && edges[q].0 == j + 1 && edges[p].1 > edges[q].1 {
            edges[p].2 as int * edges[q].2 as int
        } else {
            0
        };
    // Pairs with the edge `p` at rank j + 1, the edge `q` at rank j, `p` ending below `q`.
    let k2 = |q: int, p: int|
        if edges[p].0 == j + 1 && edges[q].0 == j && edges[p].1 > edges[q].1 {
            edges[p].2 as int * edges[q].2 as int
        } else {
            0
        };
    let neg_k1 = |q: int, p: int| -k1(q, p);
    let change = |q: int, p: int| neg_k1(q, p) + k2(q, p);
    assert forall|q: int, p: int| 0 <= q < n && 0 <= p < n implies #[trigger] after(q, p) == before(
        q,
        p,
    ) + change(q, p) by {
        assert(swapped[p] == (swapped_rank(edges[p].0, j), edges[p].1, edges[p].2));
        assert(swapped[q] == (swapped_rank(edges[q].0, j), edges[q].1, edges[q].2));
    }
    lemma_double_sum_add(n, before, change, after);
    lemma_double_sum_add(n, neg_k1, k2, change);
    lemma_crossings_as_double_sum(edges);
    lemma_crossings_as_double_sum(swapped);
    // The pair kernel splits into k1 and the transpose of k2.
    let kernel = pair_kernel(edges, j, j + 1);
    let k2t = |q: int, p: int| k2(p, q);
    let neg_k2t = |q: int, p: int| -k2t(q, p);
    assert forall|q: int, p: int| 0 <= q < n && 0 <= p < n implies #[trigger] kernel(q, p) == k1(
        q,
        p,
    ) + neg_k2t(q, p) by {
        let wq = edges[q].2 as int;
        let wp = edges[p].2 as int;
        let s = sign_of(edges[p].1 as int, edges[q].1 as int);
        if edges[q].0 == j + 1 && edges[p].0 == j {
            if s == 1 {
                assert(wq * (wp * s) == wp * wq) by (nonlinear_arith)
                    requires
                        s == 1,
                ;
            } else if s == -1 {
                assert(wq * (wp * s) == -(wq * wp)) by (nonlinear_arith)
                    requires
                        s == -1,
                ;
            } else {
                assert(wq * (wp * s) == 0) by (nonlinear_arith)
                    requires
                        s == 0,
                ;
            }
        }
    }
    lemma_double_sum_add(n, k1, neg_k2t, kernel);
    lemma_pair_as_double_sum(edges, j, j + 1);
    lemma_double_sum_transpose(n, k2, k2t);
    lemma_double_sum_negate(n, k1, neg_k1);
    lemma_double_sum_negate(n, k2t, neg_k2t);
}

pub proof fn lemma_double_sum_negate(n: int, f: spec_fn(int, int) -> int, g: spec_fn(int, int) -> int)
    requires
        forall|q: int, p: int| 0 <= q < n && 0 <= p < n ==> #[trigger] g(q, p) == -f(q, p),
    ensures
        double_sum(n, g) == -double_sum(n, f),
{
    let z = |q: int, p: int| 0int;
    assert forall|q: int, p: int| 0 <= q < n && 0 <= p < n implies #[trigger] z(q, p) == f(q, p) + g(
        q,
        p,
    ) by {}
    lemma_double_sum_add(n, f, g, z);
    let zr = |q: int| row_sum(z, q, n);
    assert forall|q: int| 0 <= q < n implies #[trigger] zr(q) == 0 by {
        crate::sums::lemma_sum_zero(n, |p: int| z(q, p));
    }
    crate::sums::lemma_sum_zero(n, zr);
}

/// Rank `r` after the group of ranks `[s, s + la)` and the group of ranks
/// `[s + la, s + la + lb)` that follows it change places.
pub open spec fn block_rank(r: usize, s: int, la: int, lb: int) -> usize {
    if s <= r < s + la {
        (r + lb) as usize
    } else if s + la <= r < s + la + lb {
        (r - la) as usize
    } else {
        r
    }
}

/// The edges after two neighbouring groups of the swappable side change places.
pub open spec fn swap_blocks(edges: Seq<IndexEdge>, s: int, la: int, lb: int) -> Seq<IndexEdge> {
    Seq::new(edges.len(), |p: int| (block_rank(edges[p].0, s, la, lb), edges[p].1, edges[p].2))
}

/// The sum of `P[a][b]` over `a` in `[s, s + la)` and `b` in `[s + la, s + la + lb)`.
pub open spec fn group_contribution(edges: Seq<IndexEdge>, s: int, la: int, lb: int) -> int {
    sum(la, |a: int| sum(lb, |b: int| pair_contribution(edges, s + a, s + la + b)))
}

pub proof fn lemma_double_sum_ext(n: int, f: spec_fn(int, int) -> int, g: spec_fn(int, int) -> int)
    requires
        forall|q: int, p: int| 0 <= q < n && 0 <= p < n ==> #[trigger] f(q, p) == g(q, p),
    ensures
        double_sum(n, f) == double_sum(n, g),
{
    let rf = |q: int| row_sum(f, q, n);
    let rg = |q: int| row_sum(g, q, n);
    assert forall|q: int| 0 <= q < n implies #[trigger] rf(q) == rg(q) by {
        lemma_sum_ext(n, |p: int| f(q, p), |p: int| g(q, p));
    }
    lemma_sum_ext(n, rf, rg);
}

/// A sum of double sums is the double sum of the sums.
proof fn lemma_sum_of_double_sums(m: int, n: int, g: spec_fn(int, int, int) -> int)
    requires
        0 <= m,
    ensures
        sum(m, |x: int| double_sum(n, |q: int, p: int| g(x, q, p))) == double_sum(
            n,
            |q: int, p: int| sum(m, |x: int| g(x, q, p)),
        ),
    decreases m,
{
    if m == 0 {
        let z = |q: int, p: int| sum(0, |x: int| g(x, q, p));
        let zr = |q: int| row_sum(z, q, n);
        assert forall|q: int| 0 <= q < n implies #[trigger] zr(q) == 0 by {
            lemma_sum_zero(n, |p: int| z(q, p));
        }
        lemma_sum_zero(n, zr);
    } else {
        lemma_sum_of_double_sums(m - 1, n, g);
        let prev = |q: int, p: int| sum(m - 1, |x: int| g(x, q, p));
        let last = |q: int, p: int| g(m - 1, q, p);
        let whole = |q: int, p: int| sum(m, |x: int| g(x, q, p));
        assert forall|q: int, p: int| 0 <= q < n && 0 <= p < n implies #[trigger] whole(q, p) == prev(
            q,
            p,
        ) + last(q, p) by {}
        lemma_double_sum_add(n, prev, last, whole);
    }
}

/// The summand of the group contribution for the edge pair `(q, p)`.
pub open spec fn group_kernel(edges: Seq<IndexEdge>, s: int, la: int, lb: int) -> spec_fn(int, int) -> int {
    |q: int, p: int|
        if s + la <= edges[q].0 < s + la + lb && s <= edges[p].0 < s + la {
            edges[q].2 as int * (edges[p].2 as int * sign_of(edges[p].1 as int, edges[q].1 as int))
        } else {
            0
        }
}

/// The group contribution as a double sum over edge pairs.
proof fn lemma_group_as_double_sum(edges: Seq<IndexEdge>, s: int, la: int, lb: int)
    requires
        0 <= la,
        0 <= lb,
    ensures
        group_contribution(edges, s, la, lb) == double_sum(
            edges.len() as int,
            group_kernel(edges, s, la, lb),
        ),
{
    let n = edges.len() as int;
    let pk = |a: int, b: int, q: int, p: int| pair_kernel(edges, s + a, s + la + b)(q, p);
    // Per source group member `a`: the inner sum over `b` as one double sum.
    let inner = |a: int, q: int, p: int| sum(lb, |b: int| pk(a, b, q, p));
    let rows = |a: int| sum(lb, |b: int| pair_contribution(edges, s + a, s + la + b));
    let rows2 = |a: int| double_sum(n, |q: int, p: int| inner(a, q, p));
    assert forall|a: int| 0 <= a < la implies #[trigger] rows(a) == rows2(a) by {
        let per_b = |b: int| pair_contribution(edges, s + a, s + la + b);
        let per_b2 = |b: int| double_sum(n, |q: int, p: int| pk(a, b, q, p));
        assert forall|b: int| 0 <= b < lb implies #[trigger] per_b(b) == per_b2(b) by {
            lemma_pair_as_double_sum(edges, s + a, s + la + b);
            lemma_double_sum_ext(n, pair_kernel(edges, s + a, s + la + b), |q: int, p: int| pk(a, b, q, p));
        }
        lemma_sum_ext(lb, per_b, per_b2);
        let g = |b: int, q: int, p: int| pk(a, b, q, p);
        lemma_sum_of_double_sums(lb, n, g);
        let lhs = |x: int| double_sum(n, |q: int, p: int| g(x, q, p));
        assert forall|b: int| 0 <= b < lb implies #[trigger] per_b2(b) == lhs(b) by {
            lemma_double_sum_ext(n, |q: int, p: int| pk(a, b, q, p), |q: int, p: int| g(b, q, p));
        }
        lemma_sum_ext(lb, per_b2, lhs);
        let rhs = |q: int, p: int| sum(lb, |x: int| g(x, q, p));
        assert forall|q: int, p: int| 0 <= q < n && 0 <= p < n implies #[trigger] rhs(q, p) == inner(
            a,
            q,
            p,
        ) by {
            lemma_sum_ext(lb, |x: int| g(x, q, p), |b: int| pk(a, b, q, p));
        }
        lemma_double_sum_ext(n, rhs, |q: int, p: int| inner(a, q, p));
    }
    lemma_sum_ext(la, rows, rows2);
    lemma_sum_of_double_sums(la, n, inner);
    let total = |q: int, p: int| sum(la, |a: int| inner(a, q, p));
    let gk = group_kernel(edges, s, la, lb);
    assert forall|q: int, p: int| 0 <= q < n && 0 <= p < n implies #[trigger] total(q, p) == gk(q, p) by {
        let ip = edges[p].0 as int;
        let iq = edges[q].0 as int;
        let over_a = |a: int| inner(a, q, p);
        assert forall|a: int| 0 <= a < la implies #[trigger] over_a(a) == (if s + a == ip && s + la <= iq
            < s + la + lb {
            gk(q, p)
        } else {
            0
        }) by {
            let over_b = |b: int| pk(a, b, q, p);
            if s + a == ip && s + la <= iq < s + la + lb {
                assert forall|b: int| 0 <= b < lb && b != iq - s - la implies #[trigger] over_b(b) == 0 by {}
                lemma_sum_single(lb, over_b, iq - s - la);
            } else {
                assert forall|b: int| 0 <= b < lb implies #[trigger] over_b(b) == 0 by {}
                lemma_sum_zero(lb, over_b);
            }
        }
        let picked = |a: int| if s + a == ip && s + la <= iq < s + la + lb { gk(q, p) } else { 0 };
        lemma_sum_ext(la, over_a, picked);
        if s <= ip < s + la && s + la <= iq < s + la + lb {
            assert forall|a: int| 0 <= a < la && a != ip - s implies #[trigger] picked(a) == 0 by {}
            lemma_sum_single(la, picked, ip - s);
        } else {
            assert forall|a: int| 0 <= a < la implies #[trigger] picked(a) == 0 by {}
            lemma_sum_zero(la, picked);
        }
    }
    lemma_double_sum_ext(n, total, gk);
}

/// Exchanging two neighbouring groups of the swappable side, ranks `[s, s + la)` and
/// `[s + la, s + la + lb)`, changes the crossing count by minus the sum of `P[a][b]` over
/// the nodes `a` of the first group and `b` of the second: the entry that the aggregated
/// matrix holds for the pair of groups.
pub proof fn lemma_group_swap(edges: Seq<IndexEdge>, s: int, la: int, lb: int)
    requires
        0 <= s,
        0 <= la,
        0 <= lb,
        s + la + lb <= usize::MAX,
    ensures
        crossing_count(swap_blocks(edges, s, la, lb)) - crossing_count(edges)
            == -group_contribution(edges, s, la, lb),
{
    let n = edges.len() as int;
    let swapped = swap_blocks(edges, s, la, lb);
    let before = |q: int, p: int| crosses(edges[p], edges[q]);
    let after = |q: int, p: int| crosses(swapped[p], swapped[q]);
    let k1 = |q: int, p: int|
        if s <= edges[p].0 < s + la && s + la <= edges[q].0 < s + la + lb && edges[p].1
            > edges[q].1 {
            edges[p].2 as int * edges[q].2 as int
        } else {
            0
        };
    let k2 = |q: int, p: int|
        if s + la <= edges[p].0 < s + la + lb && s <= edges[q].0 < s + la && edges[p].1
            > edges[q].1 {
            edges[p].2 as int * edges[q].2 as int
        } else {
            0
        };
    let neg_k1 = |q: int, p: int| -k1(q, p);
    let change = |q: int, p: int| neg_k1(q, p) + k2(q, p);
    assert forall|q: int, p: int| 0 <= q < n && 0 <= p < n implies #[trigger] after(q, p) == before(
        q,
        p,
    ) + change(q, p) by {
        assert(swapped[p] == (block_rank(edges[p].0, s, la, lb), edges[p].1, edges[p].2));
        assert(swapped[q] == (block_rank(edges[q].0, s, la, lb), edges[q].1, edges[q].2));
    }
    lemma_double_sum_add(n, before, change, after);
    lemma_double_sum_add(n, neg_k1, k2, change);
    lemma_crossings_as_double_sum(edges);
    lemma_crossings_as_double_sum(swapped);
    let kernel = group_kernel(edges, s, la, lb);
    let k2t = |q: int, p: int| k2(p, q);
    let neg_k2t = |q: int, p: int| -k2t(q, p);
    assert forall|q: int, p: int| 0 <= q < n && 0 <= p < n implies #[trigger] kernel(q, p) == k1(
        q,
        p,
    ) + neg_k2t(q, p) by {
        let wq = edges[q].2 as int;
        let wp = edges[p].2 as int;
        let sg = sign_of(edges[p].1 as int, edges[q].1 as int);
        if s + la <= edges[q].0 < s + la + lb && s <= edges[p].0 < s + la {
            if sg == 1 {
                assert(wq * (wp * sg) == wp * wq) by (nonlinear_arith)
                    requires
                        sg == 1,
                ;
            } else if sg == -1 {
                assert(wq * (wp * sg) == -(wq * wp)) by (nonlinear_arith)
                    requires
                        sg == -1,
                ;
            } else {
                assert(wq * (wp * sg) == 0) by (nonlinear_arith)
                    requires
                        sg == 0,
                ;
            }
        }
    }
    lemma_double_sum_add(n, k1, neg_k2t, kernel);
    lemma_group_as_double_sum(edges, s, la, lb);
    lemma_double_sum_transpose(n, k2, k2t);
    lemma_double_sum_negate(n, k1, neg_k1);
    lemma_double_sum_negate(n, k2t, neg_k2t);
}

/// The edges with the swappable side laid out in `order`: each swappable endpoint is
/// replaced by its position in `order`.
pub open spec fn reordered_edges(edges: Seq<IndexEdge>, order: Seq<usize>) -> Seq<IndexEdge> {
    Seq::new(edges.len(), |p: int| (rank_of(order, edges[p].0 as int), edges[p].1, edges[p].2))
}

/// The crossings with the swappable side laid out in `order`.
pub open spec fn order_cost(edges: Seq<IndexEdge>, order: Seq<usize>) -> int {
    crossing_count(reordered_edges(edges, order))
}

/// Reading the pair contributions through an order: the entry of ranks `j` and `j + 1`
/// is that of the nodes at those ranks.
proof fn lemma_pair_through_order(edges: Seq<IndexEdge>, n: int, order: Seq<usize>, j: int)
    requires
        edges_within(edges, n, usize::MAX as int + 1),
        is_permutation(order, n),
        n <= usize::MAX,
        0 <= j,
        j + 1 < n,
    ensures
        pair_contribution(reordered_edges(edges, order), j, j + 1) == pair_contribution(
            edges,
            order[j] as int,
            order[j + 1] as int,
        ),
{
    let f = reordered_edges(edges, order);
    let len = edges.len() as int;
    let a = order[j] as int;
    let b = order[j + 1] as int;
    lemma_rank_in_permutation(order, n, j);
    lemma_rank_in_permutation(order, n, j + 1);
    // A node sits at rank `r < n` exactly when it is `order[r]`.
    assert forall|p: int, r: int|
        #![trigger f[p], order[r]]
        0 <= p < len && 0 <= r < n implies f[p].0 == r <==> edges[p].0 == order[r] by {
        lemma_rank_onto(order, n, edges[p].0 as int);
        lemma_rank_in_permutation(order, n, r);
    }
    assert forall|x: int| #[trigger] balance(f, j, x) == balance(edges, a, x) by {
        let lhs = balance_terms(f, j, x, len);
        let rhs = balance_terms(edges, a, x, len);
        assert forall|p: int| 0 <= p < len implies #[trigger] lhs(p) == rhs(p) by {
            assert(f[p].0 == j <==> edges[p].0 == order[j]);
        }
        lemma_sum_ext(len, lhs, rhs);
    }
    let lhs = pair_terms(f, j, j + 1, len);
    let rhs = pair_terms(edges, a, b, len);
    assert forall|q: int| 0 <= q < len implies #[trigger] lhs(q) == rhs(q) by {
        assert(f[q].0 == j + 1 <==> edges[q].0 == order[j + 1]);
        assert(balance(f, j, f[q].1 as int) == balance(edges, a, edges[q].1 as int));
    }
    lemma_sum_ext(len, lhs, rhs);
}

/// Exchanging the nodes at positions `j` and `j + 1` of an order lowers its crossings by
/// `P[a][b]`, where `a` and `b` are those nodes.
pub proof fn lemma_order_swap(edges: Seq<IndexEdge>, n: int, order: Seq<usize>, j: int)
    requires
        edges_within(edges, n, usize::MAX as int + 1),
        is_permutation(order, n),
        n <= usize::MAX,
        0 <= j,
        j + 1 < n,
    ensures
        order_cost(edges, swap_adjacent(order, j)) == order_cost(edges, order) - pair_contribution(
            edges,
            order[j] as int,
            order[j + 1] as int,
        ),
{
    let swapped = swap_adjacent(order, j);
    crate::reducer::lemma_swap_keeps_permutation(order, n, j);
    let f = reordered_edges(edges, order);
    assert(reordered_edges(edges, swapped) =~= swap_ranks(f, j)) by {
        assert forall|p: int| 0 <= p < edges.len() implies #[trigger] rank_of(swapped, edges[p].0 as int)
            == swapped_rank(rank_of(order, edges[p].0 as int), j) by {
            let u = edges[p].0 as int;
            lemma_rank_onto(order, n, u);
            let k = rank_of(order, u) as int;
            let k2 = if k == j { j + 1 } else if k == j + 1 { j } else { k };
            assert(swapped[k2] == u);
            lemma_rank_in_permutation(swapped, n, k2);
        }
    }
    lemma_rank_swap(f, j);
    lemma_pair_through_order(edges, n, order, j);
}

/// The pairwise matrix of `edges` tracks the crossings of every order of the swappable
/// side: exchanging the neighbours `a`, `b` lowers them by `P[a][b]`.
pub proof fn lemma_pairwise_tracks_crossings(edges: Seq<IndexEdge>, n: int, matrix: Seq<Vec<i64>>)
    requires
        edges_within(edges, n, usize::MAX as int + 1),
        is_pairwise_matrix(matrix, n, edges),
        n <= usize::MAX,
    ensures
        tracks(matrix, n, |order: Seq<usize>| order_cost(edges, order)),
{
    let cost = |order: Seq<usize>| order_cost(edges, order);
    assert forall|order: Seq<usize>, j: int|
        is_permutation(order, n) && 0 <= j && j + 1 < n implies #[trigger] cost(
        swap_adjacent(order, j),
    ) == cost(order) - matrix[order[j] as int]@[order[j + 1] as int] by {
        lemma_order_swap(edges, n, order, j);
        assert(order[j] < n && order[j + 1] < n);
    }
}

/// Crossings of any order stay within the square of the total weight.
pub proof fn lemma_order_cost_bounded(edges: Seq<IndexEdge>, n: int)
    requires
        total_weight(edges) <= MAX_LAYER_WEIGHT,
    ensures
        fits_i64(n, |order: Seq<usize>| order_cost(edges, order)),
{
    let cost = |order: Seq<usize>| order_cost(edges, order);
    assert forall|order: Seq<usize>| is_permutation(order, n) implies i64::MIN <= #[trigger] cost(order)
        <= i64::MAX by {
        let f = reordered_edges(edges, order);
        lemma_sum_ext(edges.len() as int, weights_of(edges), weights_of(f));
        lemma_crossings_bounded(f);
        let tw = total_weight(f);
        assert(tw * tw <= 0x7fff_ffff * 0x7fff_ffff) by (nonlinear_arith)
            requires
                0 <= tw <= 0x7fff_ffff,
        ;
    }
}

/// Laid out in the identity order, the edges are unchanged.
pub proof fn lemma_identity_cost(edges: Seq<IndexEdge>, n: int)
    requires
        edges_within(edges, n, usize::MAX as int + 1),
        0 <= n <= usize::MAX,
    ensures
        order_cost(edges, crate::reducer::identity(n)) == crossing_count(edges),
{
    let id = crate::reducer::identity(n);
    assert forall|k: int| 0 <= k < n implies #[trigger] id[k] == k by {}
    assert(is_permutation(id, n));
    assert forall|p: int| 0 <= p < edges.len() implies #[trigger] rank_of(id, edges[p].0 as int)
        == edges[p].0 by {
        lemma_rank_in_permutation(id, n, edges[p].0 as int);
    }
    assert(reordered_edges(edges, id) =~= edges);
}

/// Exchanging the two ends of every edge keeps the crossing count.
pub proof fn lemma_invert_crossings(edges: Seq<IndexEdge>)
    ensures
        crossing_count(crate::layers::invert(edges)) == crossing_count(edges),
{
    let n = edges.len() as int;
    let inv = crate::layers::invert(edges);
    let f = |q: int, p: int| crosses(edges[p], edges[q]);
    let g = |q: int, p: int| crosses(inv[p], inv[q]);
    assert forall|q: int, p: int| 0 <= q < n && 0 <= p < n implies #[trigger] g(q, p) == f(p, q) by {
        assert(inv[p] == (edges[p].1, edges[p].0, edges[p].2));
        assert(inv[q] == (edges[q].1, edges[q].0, edges[q].2));
        assert(edges[q].2 as int * edges[p].2 as int == edges[p].2 as int * edges[q].2 as int) by (nonlinear_arith);
    }
    lemma_double_sum_transpose(n, f, g);
    lemma_crossings_as_double_sum(edges);
    lemma_crossings_as_double_sum(inv);
}

/// Rearranging an order by a permutation is a permutation.
pub proof fn lemma_compose_permutation(order: Seq<usize>, perm: Seq<usize>, n: int)
    requires
        is_permutation(order, n),
        is_permutation(perm, n),
    ensures
        is_permutation(crate::optimizer::compose(order, perm), n),
{
    let c = crate::optimizer::compose(order, perm);
    assert forall|k: int, m: int| 0 <= k < m < n implies #[trigger] c[k] != #[trigger] c[m] by {
        assert(perm[k] != perm[m]);
        if perm[k] < perm[m] {
            assert(order[perm[k] as int] != order[perm[m] as int]);
        } else {
            assert(order[perm[m] as int] != order[perm[k] as int]);
        }
    }
}

/// The rank of a node after its layer is rearranged by `perm` is the rank, in `perm`, of
/// its rank before.
pub proof fn lemma_compose_rank(order: Seq<usize>, perm: Seq<usize>, n: int, u: int)
    requires
        is_permutation(order, n),
        is_permutation(perm, n),
        n <= usize::MAX,
        0 <= u < n,
    ensures
        rank_of(crate::optimizer::compose(order, perm), u) == rank_of(perm, rank_of(order, u) as int),
{
    let c = crate::optimizer::compose(order, perm);
    lemma_compose_permutation(order, perm, n);
    lemma_rank_onto(order, n, u);
    let r = rank_of(order, u) as int;
    lemma_rank_onto(perm, n, r);
    let k = rank_of(perm, r) as int;
    assert(c[k] == u);
    lemma_rank_in_permutation(c, n, k);
}

/// Crossings of an order lie between 0 and the square of the total weight.
pub proof fn lemma_order_cost_range(edges: Seq<IndexEdge>, order: Seq<usize>)
    ensures
        0 <= order_cost(edges, order) <= total_weight(edges) * total_weight(edges),
{
    let f = reordered_edges(edges, order);
    lemma_sum_ext(edges.len() as int, weights_of(edges), weights_of(f));
    lemma_crossings_bounded(f);
}

/// Tracking carries over to an equal cost.
pub proof fn lemma_tracks_ext(
    matrix: Seq<Vec<i64>>,
    n: int,
    c1: spec_fn(Seq<usize>) -> int,
    c2: spec_fn(Seq<usize>) -> int,
)
    requires
        tracks(matrix, n, c1),
        forall|order: Seq<usize>| #[trigger] c2(order) == c1(order),
    ensures
        tracks(matrix, n, c2),
{
    assert forall|order: Seq<usize>, j: int|
        is_permutation(order, n) && 0 <= j && j + 1 < n implies #[trigger] c2(swap_adjacent(order, j))
        == c2(order) - matrix[order[j] as int]@[order[j + 1] as int] by {
        assert(c1(swap_adjacent(order, j)) == c1(order) - matrix[order[j] as int]@[order[j + 1] as int]);
    }
}

/// The entrywise sum of two matrices tracks the sum of their costs.
pub proof fn lemma_tracks_sum(
    a: Seq<Vec<i64>>,
    b: Seq<Vec<i64>>,
    s: Seq<Vec<i64>>,
    n: int,
    ca: spec_fn(Seq<usize>) -> int,
    cb: spec_fn(Seq<usize>) -> int,
    c: spec_fn(Seq<usize>) -> int,
)
    requires
        tracks(a, n, ca),
        tracks(b, n, cb),
        forall|x: int, y: int| 0 <= x < n && 0 <= y < n ==> #[trigger] s[x]@[y] == a[x]@[y] + b[x]@[y],
        forall|order: Seq<usize>| #[trigger] c(order) == ca(order) + cb(order),
    ensures
        tracks(s, n, c),
{
    assert forall|order: Seq<usize>, j: int|
        is_permutation(order, n) && 0 <= j && j + 1 < n implies #[trigger] c(swap_adjacent(order, j))
        == c(order) - s[order[j] as int]@[order[j + 1] as int] by {
        assert(ca(swap_adjacent(order, j)) == ca(order) - a[order[j] as int]@[order[j + 1] as int]);
        assert(cb(swap_adjacent(order, j)) == cb(order) - b[order[j] as int]@[order[j + 1] as int]);
        assert(order[j] < n && order[j + 1] < n);
    }
}

} // verus!
