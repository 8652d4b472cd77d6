use vstd::prelude::*;

use crate::crossings::{edges_within, total_weight, weights_of, IndexEdge};
use crate::sums::{
    col_sum, lemma_sum_ext, lemma_sum_le, lemma_sum_scale, lemma_sum_swap, lemma_sum_update,
    lemma_sum_zero, row_sum, sum,
};

verus! {

/// Largest total weight of all edges of a graph together (and so of any one edge set):
/// crossing counts and pair contributions then fit in an `i64`, also summed over both
/// neighbours of a layer and over all pairs of neighbouring layers.
pub const MAX_LAYER_WEIGHT: usize = 0x7fff_ffff;

/// `+w` when edge `e` ends below static rank `j`, `-w` when it ends above it, else 0.
pub open spec fn signed_weight(e: IndexEdge, j: int) -> int {
    if e.1 > j {
        e.2 as int
    } else if e.1 < j {
        -(e.2 as int)
    } else {
        0
    }
}

pub open spec fn balance_terms(edges: Seq<IndexEdge>, a: int, j: int, t: int) -> spec_fn(int) -> int {
    |p: int|
        if p < t && edges[p].0 == a {
            signed_weight(edges[p], j)
        } else {
            0
        }
}

/// `C[a][j]`: the weight from node `a` to static ranks after `j`, minus the weight to
/// static ranks before `j`.
pub open spec fn balance(edges: Seq<IndexEdge>, a: int, j: int) -> int {
    sum(edges.len() as int, balance_terms(edges, a, j, edges.len() as int))
}

pub open spec fn pair_terms(edges: Seq<IndexEdge>, a: int, b: int, t: int) -> spec_fn(int) -> int {
    |q: int|
        if q < t && edges[q].0 == b {
            edges[q].2 as int * balance(edges, a, edges[q].1 as int)
        } else {
            0
        }
}

/// `P[a][b]`, the entry at row `a` and column `b` of `C * W^T`: the crossings between the
/// edges of `a` and `b` with `a` placed before `b`, minus those with `b` placed before `a`.
pub open spec fn pair_contribution(edges: Seq<IndexEdge>, a: int, b: int) -> int {
    sum(edges.len() as int, pair_terms(edges, a, b, edges.len() as int))
}

/// `matrix` is the `n` by `n` pairwise matrix of `edges`.
pub open spec fn is_pairwise_matrix(matrix: Seq<Vec<i64>>, n: int, edges: Seq<IndexEdge>) -> bool {
    &&& matrix.len() == n
    &&& forall|a: int| 0 <= a < n ==> (#[trigger] matrix[a])@.len() == n
    &&& forall|a: int, b: int|
        0 <= a < n && 0 <= b < n ==> #[trigger] matrix[a]@[b] == pair_contribution(edges, a, b)
}

proof fn lemma_balance_bound(edges: Seq<IndexEdge>, a: int, j: int, t: int)
    ensures
        -total_weight(edges) <= sum(edges.len() as int, balance_terms(edges, a, j, t))
            <= total_weight(edges),
{
    let len = edges.len() as int;
    let f = balance_terms(edges, a, j, t);
    let w = weights_of(edges);
    let neg = |p: int| -(edges[p].2 as int);
    assert forall|p: int| 0 <= p < len implies #[trigger] f(p) <= w(p) by {}
    assert forall|p: int| 0 <= p < len implies #[trigger] neg(p) <= f(p) by {}
    assert forall|p: int| 0 <= p < len implies #[trigger] neg(p) == -1 * w(p) by {}
    lemma_sum_le(len, f, w);
    lemma_sum_le(len, neg, f);
    lemma_sum_scale(len, -1, w, neg);
}

pub proof fn lemma_pair_bound(edges: Seq<IndexEdge>, a: int, b: int, t: int)
    ensures
        -(total_weight(edges) * total_weight(edges)) <= sum(
            edges.len() as int,
            pair_terms(edges, a, b, t),
        ) <= total_weight(edges) * total_weight(edges),
{
    let len = edges.len() as int;
    let tw = total_weight(edges);
    let f = pair_terms(edges, a, b, t);
    let hi = |q: int| tw * (edges[q].2 as int);
    let lo = |q: int| -tw * (edges[q].2 as int);
    assert forall|q: int| 0 <= q < len implies lo(q) <= #[trigger] f(q) <= hi(q) by {
        lemma_balance_bound(edges, a, edges[q].1 as int, len);
        let c = balance(edges, a, edges[q].1 as int);
        let wq = edges[q].2 as int;
        if q < t && edges[q].0 == b {
            assert(-tw * wq <= wq * c <= tw * wq) by (nonlinear_arith)
                requires
                    -tw <= c <= tw,
                    0 <= wq,
            ;
        } else {
            assert(-tw * wq <= 0 <= tw * wq) by (nonlinear_arith)
                requires
                    0 <= tw,
                    0 <= wq,
            ;
        }
    }
    lemma_sum_le(len, f, hi);
    lemma_sum_le(len, lo, f);
    lemma_sum_scale(len, tw, weights_of(edges), hi);
    lemma_sum_scale(len, -tw, weights_of(edges), lo);
    assert(-tw * tw == -(tw * tw)) by (nonlinear_arith);
}

/// Row `a` of `C`.
fn balance_row(edges: &Vec<IndexEdge>, a: usize, static_count: usize) -> (row: Vec<i64>)
    requires
        edges_within(edges@, usize::MAX as int + 1, static_count as int),
        total_weight(edges@) <= MAX_LAYER_WEIGHT,
    ensures
        row@.len() == static_count,
        forall|j: int| 0 <= j < static_count ==> #[trigger] row@[j] == balance(edges@, a as int, j),
{
    let ghost e = edges@;
    let ghost len = e.len() as int;
    let mut row: Vec<i64> = Vec::new();
    let mut j: usize = 0;
    while j < static_count
        invariant
            j <= static_count,
            row@.len() == j,
            forall|m: int| 0 <= m < j ==> #[trigger] row@[m] == 0,
        decreases static_count - j,
    {
        row.push(0);
        j = j + 1;
    }
    proof {
        assert forall|m: int| 0 <= m < static_count implies #[trigger] row@[m] == sum(
            len,
            balance_terms(e, a as int, m, 0),
        ) by {
            lemma_sum_zero(len, balance_terms(e, a as int, m, 0));
        }
    }
    let mut p: usize = 0;
    while p < edges.len()
        invariant
            e == edges@,
            len == e.len(),
            p <= len,
            edges_within(e, usize::MAX as int + 1, static_count as int),
            total_weight(e) <= MAX_LAYER_WEIGHT,
            row@.len() == static_count,
            forall|m: int|
                0 <= m < static_count ==> #[trigger] row@[m] == sum(
                    len,
                    balance_terms(e, a as int, m, p as int),
                ),
        decreases len - p,
    {
        let (node, rank, weight) = edges[p];
        assert(e[p as int] == (node, rank, weight));
        let ghost row_before = row@;
        if node == a {
        let mut j: usize = 0;
        while j < static_count
            invariant
                node == a,
                e == edges@,
                len == e.len(),
                p < len,
                e[p as int] == (node, rank, weight),
                j <= static_count,
                total_weight(e) <= MAX_LAYER_WEIGHT,
                row@.len() == static_count,
                forall|m: int|
                    0 <= m < j ==> #[trigger] row@[m] == sum(
                        len,
                        balance_terms(e, a as int, m, p + 1),
                    ),
                forall|m: int| j <= m < static_count ==> #[trigger] row@[m] == row_before[m],
                forall|m: int|
                    0 <= m < static_count ==> #[trigger] row_before[m] == sum(
                        len,
                        balance_terms(e, a as int, m, p as int),
                    ),
            decreases static_count - j,
        {
            proof {
                let before = balance_terms(e, a as int, j as int, p as int);
                let after = balance_terms(e, a as int, j as int, p + 1);
                assert forall|r: int| 0 <= r < len && r != p implies #[trigger] before(r) == after(r) by {}
                lemma_sum_update(len, before, after, p as int);
                lemma_balance_bound(e, a as int, j as int, p + 1);
                lemma_weight_bound(e, p as int);
            }
            if rank > j {
                let v = row[j];
                row.set(j, v + weight as i64);
            } else if rank < j {
                let v = row[j];
                row.set(j, v - weight as i64);
            }
            j = j + 1;
        }
        } else {
            proof {
                assert forall|m: int| 0 <= m < static_count implies #[trigger] row@[m] == sum(
                    len,
                    balance_terms(e, a as int, m, p + 1),
                ) by {
                    let before = balance_terms(e, a as int, m, p as int);
                    let after = balance_terms(e, a as int, m, p + 1);
                    assert forall|r: int| 0 <= r < len implies #[trigger] before(r) == after(r) by {}
                    lemma_sum_ext(len, before, after);
                }
            }
        }
        p = p + 1;
    }
    row
}

/// No single weight exceeds the total.
proof fn lemma_weight_bound(edges: Seq<IndexEdge>, p: int)
    requires
        0 <= p < edges.len(),
    ensures
        edges[p].2 as int <= total_weight(edges),
{
    let len = edges.len() as int;
    let single = |r: int| if r == p { edges[r].2 as int } else { 0 };
    assert forall|r: int| 0 <= r < len && r != p implies #[trigger] single(r) == 0 by {}
    crate::sums::lemma_sum_single(len, single, p);
    assert forall|r: int| 0 <= r < len implies #[trigger] single(r) <= weights_of(edges)(r) by {}
    lemma_sum_le(len, single, weights_of(edges));
}

/// Row `a` of `P`, from row `a` of `C`.
fn pair_row(edges: &Vec<IndexEdge>, a: usize, n: usize, static_count: usize, balances: &Vec<i64>) -> (row:
    Vec<i64>)
    requires
        edges_within(edges@, n as int, static_count as int),
        total_weight(edges@) <= MAX_LAYER_WEIGHT,
        balances@.len() == static_count,
        forall|j: int|
            0 <= j < static_count ==> #[trigger] balances@[j] == balance(edges@, a as int, j),
    ensures
        row@.len() == n,
        forall|b: int| 0 <= b < n ==> #[trigger] row@[b] == pair_contribution(edges@, a as int, b),
{
    let ghost e = edges@;
    let ghost len = e.len() as int;
    let mut row: Vec<i64> = Vec::new();
    let mut b: usize = 0;
    while b < n
        invariant
            b <= n,
            row@.len() == b,
            forall|m: int| 0 <= m < b ==> #[trigger] row@[m] == 0,
        decreases n - b,
    {
        row.push(0);
        b = b + 1;
    }
    proof {
        assert forall|m: int| 0 <= m < n implies #[trigger] row@[m] == sum(
            len,
            pair_terms(e, a as int, m, 0),
        ) by {
            lemma_sum_zero(len, pair_terms(e, a as int, m, 0));
        }
    }
    let mut q: usize = 0;
    while q < edges.len()
        invariant
            e == edges@,
            len == e.len(),
            q <= len,
            edges_within(e, n as int, static_count as int),
            total_weight(e) <= MAX_LAYER_WEIGHT,
            balances@.len() == static_count,
            forall|j: int| 0 <= j < static_count ==> #[trigger] balances@[j] == balance(e, a as int, j),
            row@.len() == n,
            forall|m: int|
                0 <= m < n ==> #[trigger] row@[m] == sum(len, pair_terms(e, a as int, m, q as int)),
        decreases len - q,
    {
        let (node, rank, weight) = edges[q];
        assert(e[q as int] == (node, rank, weight));
        assert(node < n && rank < static_count);
        proof {
            let before = pair_terms(e, a as int, node as int, q as int);
            let after = pair_terms(e, a as int, node as int, q + 1);
            assert forall|r: int| 0 <= r < len && r != q implies #[trigger] before(r) == after(r) by {}
            lemma_sum_update(len, before, after, q as int);
            lemma_pair_bound(e, a as int, node as int, q + 1);
            lemma_pair_bound(e, a as int, node as int, q as int);
            lemma_balance_bound(e, a as int, rank as int, len);
            lemma_weight_bound(e, q as int);
            let c = balances@[rank as int];
            assert(-(0x7fff_ffff * 0x7fff_ffff) <= weight as int * c <= 0x7fff_ffff * 0x7fff_ffff)
                by (nonlinear_arith)
                requires
                    -0x7fff_ffff <= c <= 0x7fff_ffff,
                    0 <= weight <= 0x7fff_ffff,
            ;
            let tw = total_weight(e);
            assert(tw * tw <= 0x7fff_ffff * 0x7fff_ffff) by (nonlinear_arith)
                requires
                    0 <= tw <= 0x7fff_ffff,
            ;
        }
        let v = row[node];
        row.set(node, v + (weight as i64) * balances[rank]);
        proof {
            assert forall|m: int| 0 <= m < n implies #[trigger] row@[m] == sum(
                len,
                pair_terms(e, a as int, m, q + 1),
            ) by {
                if m != node {
                    let before = pair_terms(e, a as int, m, q as int);
                    let after = pair_terms(e, a as int, m, q + 1);
                    assert forall|r: int| 0 <= r < len implies #[trigger] before(r) == after(r) by {}
                    lemma_sum_ext(len, before, after);
                }
            }
        }
        q = q + 1;
    }
    row
}

/// The pairwise contribution matrix `P = C * W^T` of a swappable side of `swappable_count`
/// nodes against a static side of `static_count` nodes, as rows.
pub fn get_pairwise_matrix(swappable_count: usize, static_count: usize, edges: &Vec<IndexEdge>) -> (r:
    Vec<Vec<i64>>)
    requires
        edges_within(edges@, swappable_count as int, static_count as int),
        total_weight(edges@) <= MAX_LAYER_WEIGHT,
    ensures
        is_pairwise_matrix(r@, swappable_count as int, edges@),
{
    let mut matrix: Vec<Vec<i64>> = Vec::new();
    let mut a: usize = 0;
    while a < swappable_count
        invariant
            a <= swappable_count,
            edges_within(edges@, swappable_count as int, static_count as int),
            total_weight(edges@) <= MAX_LAYER_WEIGHT,
            matrix@.len() == a,
            forall|m: int| 0 <= m < a ==> (#[trigger] matrix@[m])@.len() == swappable_count,
            forall|m: int, b: int|
                0 <= m < a && 0 <= b < swappable_count ==> #[trigger] matrix@[m]@[b]
                    == pair_contribution(edges@, m, b),
        decreases swappable_count - a,
    {
        proof {
            assert forall|p: int| 0 <= p < edges@.len() implies (#[trigger] edges@[p]).0 < usize::MAX
                as int + 1 && edges@[p].1 < static_count by {}
        }
        let balances = balance_row(edges, a, static_count);
        let row = pair_row(edges, a, swappable_count, static_count, &balances);
        matrix.push(row);
        a = a + 1;
    }
    matrix
}

/// `+1` when `x > y`, `-1` when `x < y`, else 0.
pub open spec fn sign_of(x: int, y: int) -> int {
    if x > y {
        1
    } else if x < y {
        -1
    } else {
        0
    }
}

/// The summand of `P[a][b]` for the edge pair `(q, p)`, with `q` leaving `b` and `p` leaving `a`.
pub open spec fn pair_kernel(edges: Seq<IndexEdge>, a: int, b: int) -> spec_fn(int, int) -> int {
    |q: int, p: int|
        if edges[q].0 == b && edges[p].0 == a {
            edges[q].2 as int * (edges[p].2 as int * sign_of(edges[p].1 as int, edges[q].1 as int))
        } else {
            0
        }
}

/// `P[a][b]` as a double sum over edge pairs.
pub proof fn lemma_pair_as_double_sum(edges: Seq<IndexEdge>, a: int, b: int)
    ensures
        pair_contribution(edges, a, b) == sum(
            edges.len() as int,
            |q: int| row_sum(pair_kernel(edges, a, b), q, edges.len() as int),
        ),
{
    let len = edges.len() as int;
    let k = pair_kernel(edges, a, b);
    let outer = |q: int| row_sum(k, q, len);
    let terms = pair_terms(edges, a, b, len);
    assert forall|q: int| 0 <= q < len implies #[trigger] terms(q) == outer(q) by {
        let inner = |p: int| k(q, p);
        if edges[q].0 == b {
            let bt = balance_terms(edges, a, edges[q].1 as int, len);
            assert forall|p: int| 0 <= p < len implies #[trigger] inner(p) == edges[q].2 as int * bt(
                p,
            ) by {
                let wp = edges[p].2 as int;
                let sg = sign_of(edges[p].1 as int, edges[q].1 as int);
                if sg == 1 {
                    assert(wp * sg == wp);
                } else if sg == -1 {
                    assert(wp * sg == -wp);
                } else {
                    assert(wp * sg == 0);
                }
                assert(signed_weight(edges[p], edges[q].1 as int) == wp * sg);
            }
            lemma_sum_scale(len, edges[q].2 as int, bt, inner);
        } else {
            assert forall|p: int| 0 <= p < len implies #[trigger] inner(p) == 0 by {}
            lemma_sum_zero(len, inner);
        }
    }
    lemma_sum_ext(len, terms, outer);
}

/// The pairwise matrix is antisymmetric: `P[a][b] == -P[b][a]`, and `P[a][a] == 0`.
pub proof fn lemma_pairwise_antisymmetric(edges: Seq<IndexEdge>, a: int, b: int)
    ensures
        pair_contribution(edges, a, b) == -pair_contribution(edges, b, a),
        pair_contribution(edges, a, a) == 0,
{
    lemma_pair_antisymmetric(edges, a, b);
    lemma_pair_antisymmetric(edges, a, a);
}

proof fn lemma_pair_antisymmetric(edges: Seq<IndexEdge>, a: int, b: int)
    ensures
        pair_contribution(edges, a, b) == -pair_contribution(edges, b, a),
{
    let len = edges.len() as int;
    let kab = pair_kernel(edges, a, b);
    let kba = pair_kernel(edges, b, a);
    lemma_pair_as_double_sum(edges, a, b);
    lemma_pair_as_double_sum(edges, b, a);
    lemma_sum_swap(len, len, kab);
    let cols = |p: int| col_sum(kab, p, len);
    let rows_ba = |p: int| row_sum(kba, p, len);
    let neg_rows_ba = |p: int| -1 * rows_ba(p);
    assert forall|p: int| 0 <= p < len implies #[trigger] cols(p) == neg_rows_ba(p) by {
        let c = |q: int| kab(q, p);
        let r = |q: int| kba(p, q);
        assert forall|q: int| 0 <= q < len implies #[trigger] c(q) == -1 * r(q) by {
            let wq = edges[q].2 as int;
            let wp = edges[p].2 as int;
            let s = sign_of(edges[p].1 as int, edges[q].1 as int);
            let t = sign_of(edges[q].1 as int, edges[p].1 as int);
            assert(s == -t);
            assert(wq * (wp * s) == -1 * (wp * (wq * t))) by (nonlinear_arith)
                requires
                    s == -t,
            ;
        }
        lemma_sum_scale(len, -1, r, c);
    }
    lemma_sum_ext(len, cols, neg_rows_ba);
    lemma_sum_scale(len, -1, rows_ba, neg_rows_ba);
}

} // verus!
