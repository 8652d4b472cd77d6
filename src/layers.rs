use vstd::prelude::*;

use crate::crossings::{edges_within, total_weight, weights_of, IndexEdge};
use crate::reducer::is_square;

verus! {

/// `k` is the last position of `u` in `order`.
pub open spec fn is_last_position(order: Seq<usize>, u: int, k: int) -> bool {
    &&& 0 <= k < order.len()
    &&& order[k] == u
    &&& forall|m: int| k < m < order.len() ==> order[m] != u
}

/// The position of node `u` in `order` (its last one; 0 when `order` does not hold it).
pub open spec fn rank_of(order: Seq<usize>, u: int) -> usize {
    if exists|k: int| is_last_position(order, u, k) {
        (choose|k: int| is_last_position(order, u, k)) as usize
    } else {
        0
    }
}

/// For each node of `0..n`, its position in `order`.
pub open spec fn ranks(order: Seq<usize>, n: int) -> Seq<usize> {
    Seq::new(n as nat, |u: int| rank_of(order, u))
}

/// The edges with each endpoint renamed through `left` and `right`.
pub open spec fn relabel(edges: Seq<IndexEdge>, left: Seq<usize>, right: Seq<usize>) -> Seq<IndexEdge> {
    Seq::new(
        edges.len(),
        |p: int| (left[edges[p].0 as int], right[edges[p].1 as int], edges[p].2),
    )
}

/// The edges with their two endpoints exchanged.
pub open spec fn invert(edges: Seq<IndexEdge>) -> Seq<IndexEdge> {
    Seq::new(edges.len(), |p: int| (edges[p].1, edges[p].0, edges[p].2))
}

/// `order` has `n` entries, each below `n`.
pub open spec fn order_within(order: Seq<usize>, n: int) -> bool {
    &&& order.len() == n
    &&& forall|k: int| 0 <= k < n ==> #[trigger] order[k] < n
}

proof fn lemma_rank_push(order: Seq<usize>, x: usize, u: int)
    ensures
        rank_of(order.push(x), u) == if u == x {
            order.len() as usize
        } else {
            rank_of(order, u)
        },
{
    let s = order.push(x);
    if u == x {
        assert(is_last_position(s, u, order.len() as int));
        let c = choose|k: int| is_last_position(s, u, k);
        assert(c == order.len());
    } else {
        assert forall|k: int| is_last_position(s, u, k) <==> is_last_position(order, u, k) by {
            if is_last_position(s, u, k) {
                assert(k < order.len());
                assert forall|m: int| k < m < order.len() implies order[m] != u by {
                    assert(s[m] == order[m]);
                }
            }
            if is_last_position(order, u, k) {
                assert forall|m: int| k < m < s.len() implies s[m] != u by {
                    if m < order.len() {
                        assert(s[m] == order[m]);
                    }
                }
            }
        }
    }
}

proof fn lemma_rank_bound(order: Seq<usize>, u: int)
    ensures
        rank_of(order, u) < order.len() || rank_of(order, u) == 0,
{
}

/// The rank table of `order` over the nodes `0..n`.
pub fn rank_table(order: &Vec<usize>, n: usize) -> (r: Vec<usize>)
    ensures
        r@ == ranks(order@, n as int),
{
    let mut r: Vec<usize> = Vec::new();
    let mut u: usize = 0;
    while u < n
        invariant
            u <= n,
            r@.len() == u,
            forall|m: int| 0 <= m < u ==> #[trigger] r@[m] == 0,
        decreases n - u,
    {
        r.push(0);
        u = u + 1;
    }
    proof {
        assert forall|m: int| 0 <= m < n implies #[trigger] r@[m] == rank_of(order@.take(0), m) by {}
    }
    let mut k: usize = 0;
    while k < order.len()
        invariant
            k <= order@.len(),
            r@.len() == n,
            forall|m: int| 0 <= m < n ==> #[trigger] r@[m] == rank_of(order@.take(k as int), m),
        decreases order@.len() - k,
    {
        let x = order[k];
        if x < n {
            r.set(x, k);
        }
        proof {
            assert(order@.take(k + 1) == order@.take(k as int).push(x));
            assert forall|m: int| 0 <= m < n implies #[trigger] r@[m] == rank_of(order@.take(k + 1), m) by {
                lemma_rank_push(order@.take(k as int), x, m);
            }
        }
        k = k + 1;
    }
    assert(order@.take(order@.len() as int) =~= order@);
    assert(r@ =~= ranks(order@, n as int));
    r
}

/// Ranks drawn from an order of `0..n` lie below `n`.
pub proof fn lemma_ranks_within(order: Seq<usize>, n: int)
    requires
        order_within(order, n),
    ensures
        forall|u: int| 0 <= u < n ==> #[trigger] ranks(order, n)[u] < n,
{
    assert forall|u: int| 0 <= u < n implies #[trigger] ranks(order, n)[u] < n by {
        lemma_rank_bound(order, u);
    }
}

/// The edges renamed through `left` and `right`.
pub fn relabel_edges(edges: &Vec<IndexEdge>, left: &Vec<usize>, right: &Vec<usize>) -> (r: Vec<
    IndexEdge,
>)
    requires
        edges_within(edges@, left@.len() as int, right@.len() as int),
    ensures
        r@ == relabel(edges@, left@, right@),
{
    let mut r: Vec<IndexEdge> = Vec::new();
    let mut p: usize = 0;
    while p < edges.len()
        invariant
            p <= edges@.len(),
            edges_within(edges@, left@.len() as int, right@.len() as int),
            r@ == relabel(edges@, left@, right@).take(p as int),
        decreases edges@.len() - p,
    {
        let (a, b, w) = edges[p];
        assert(edges@[p as int] == (a, b, w));
        r.push((left[a], right[b], w));
        p = p + 1;
        assert(r@ =~= relabel(edges@, left@, right@).take(p as int));
    }
    assert(relabel(edges@, left@, right@).take(edges@.len() as int) =~= relabel(edges@, left@, right@));
    r
}

/// The edges with their endpoints exchanged.
pub fn invert_edges(edges: &Vec<IndexEdge>) -> (r: Vec<IndexEdge>)
    ensures
        r@ == invert(edges@),
{
    let mut r: Vec<IndexEdge> = Vec::new();
    let mut p: usize = 0;
    while p < edges.len()
        invariant
            p <= edges@.len(),
            r@ == invert(edges@).take(p as int),
        decreases edges@.len() - p,
    {
        let (a, b, w) = edges[p];
        r.push((b, a, w));
        p = p + 1;
        assert(r@ =~= invert(edges@).take(p as int));
    }
    assert(invert(edges@).take(edges@.len() as int) =~= invert(edges@));
    r
}

/// Relabelled edges stay inside the renamed layers and keep their weights.
pub proof fn lemma_relabel_shape(
    edges: Seq<IndexEdge>,
    left: Seq<usize>,
    right: Seq<usize>,
    nl: int,
    nr: int,
)
    requires
        edges_within(edges, left.len() as int, right.len() as int),
        forall|u: int| 0 <= u < left.len() ==> #[trigger] left[u] < nl,
        forall|u: int| 0 <= u < right.len() ==> #[trigger] right[u] < nr,
    ensures
        edges_within(relabel(edges, left, right), nl, nr),
        total_weight(relabel(edges, left, right)) == total_weight(edges),
{
    let m = relabel(edges, left, right);
    assert forall|p: int| 0 <= p < m.len() implies (#[trigger] m[p]).0 < nl && m[p].1 < nr by {
        assert(edges[p].0 < left.len());
    }
    crate::sums::lemma_sum_ext(edges.len() as int, weights_of(edges), weights_of(m));
}

/// Inverted edges stay inside the exchanged layers and keep their weights.
pub proof fn lemma_invert_shape(edges: Seq<IndexEdge>, nl: int, nr: int)
    requires
        edges_within(edges, nl, nr),
    ensures
        edges_within(invert(edges), nr, nl),
        total_weight(invert(edges)) == total_weight(edges),
{
    let m = invert(edges);
    assert forall|p: int| 0 <= p < m.len() implies (#[trigger] m[p]).0 < nr && m[p].1 < nl by {
        assert(edges[p].0 < nl);
    }
    crate::sums::lemma_sum_ext(edges.len() as int, weights_of(edges), weights_of(m));
}

/// The entrywise sum of two `n` by `n` matrices.
pub fn add_matrix(matrix1: &Vec<Vec<i64>>, matrix2: &Vec<Vec<i64>>, n: usize) -> (r: Vec<Vec<i64>>)
    requires
        is_square(matrix1@, n as int),
        is_square(matrix2@, n as int),
        forall|a: int, b: int|
            0 <= a < n && 0 <= b < n ==> i64::MIN <= #[trigger] matrix1@[a]@[b] + matrix2@[a]@[b]
                <= i64::MAX,
    ensures
        is_square(r@, n as int),
        forall|a: int, b: int|
            0 <= a < n && 0 <= b < n ==> #[trigger] r@[a]@[b] == matrix1@[a]@[b] + matrix2@[a]@[b],
{
    let mut r: Vec<Vec<i64>> = Vec::new();
    let mut a: usize = 0;
    while a < n
        invariant
            a <= n,
            is_square(matrix1@, n as int),
            is_square(matrix2@, n as int),
            forall|x: int, y: int|
                0 <= x < n && 0 <= y < n ==> i64::MIN <= #[trigger] matrix1@[x]@[y] + matrix2@[x]@[y]
                    <= i64::MAX,
            r@.len() == a,
            forall|x: int| 0 <= x < a ==> (#[trigger] r@[x])@.len() == n,
            forall|x: int, y: int|
                0 <= x < a && 0 <= y < n ==> #[trigger] r@[x]@[y] == matrix1@[x]@[y] + matrix2@[x]@[y],
        decreases n - a,
    {
        let row1 = &matrix1[a];
        let row2 = &matrix2[a];
        assert(row1@.len() == n && row2@.len() == n);
        let mut row: Vec<i64> = Vec::new();
        let mut b: usize = 0;
        while b < n
            invariant
                b <= n,
                a < n,
                *row1 == matrix1@[a as int],
                *row2 == matrix2@[a as int],
                row1@.len() == n,
                row2@.len() == n,
                forall|y: int|
                    0 <= y < n ==> i64::MIN <= #[trigger] matrix1@[a as int]@[y] + matrix2@[a as int]@[y]
                        <= i64::MAX,
                row@.len() == b,
                forall|y: int| 0 <= y < b ==> #[trigger] row@[y] == row1@[y] + row2@[y],
            decreases n - b,
        {
            row.push(row1[b] + row2[b]);
            b = b + 1;
        }
        r.push(row);
        a = a + 1;
    }
    r
}

/// In a permutation, the rank of the entry at `k` is `k`.
pub proof fn lemma_rank_in_permutation(order: Seq<usize>, n: int, k: int)
    requires
        crate::reducer::is_permutation(order, n),
        n <= usize::MAX,
        0 <= k < n,
    ensures
        rank_of(order, order[k] as int) == k,
{
    let u = order[k] as int;
    assert forall|m: int| k < m < order.len() implies order[m] != u by {
        assert(order[k] != order[m]);
    }
    assert(is_last_position(order, u, k));
    let c = choose|c: int| is_last_position(order, u, c);
    assert(is_last_position(order, u, c));
    if c < k {
        assert(order[c] != order[k]);
    } else if c > k {
        assert(order[k] != order[c]);
    }
}

/// In a permutation of `0..n`, every node below `n` sits at its rank.
pub proof fn lemma_rank_onto(order: Seq<usize>, n: int, u: int)
    requires
        crate::reducer::is_permutation(order, n),
        n <= usize::MAX,
        0 <= u < n,
    ensures
        0 <= rank_of(order, u) < n,
        order[rank_of(order, u) as int] == u,
{
    crate::reducer::lemma_permutation_onto(order, n, u);
    let k = choose|k: int| 0 <= k < n && #[trigger] order[k] == u;
    lemma_rank_in_permutation(order, n, k);
}

} // verus!
