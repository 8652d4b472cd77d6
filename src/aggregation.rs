use vstd::prelude::*;

use crate::consistency::{
    double_sum, group_contribution, lemma_double_sum_negate, lemma_double_sum_transpose,
    lemma_group_swap, swap_blocks,
};
use crate::crossings::{crossing_count, IndexEdge};
use crate::pairwise::{is_pairwise_matrix, pair_contribution};
use crate::reducer::is_square;
use crate::sums::{lemma_sum_ext, lemma_sum_zero, row_sum, sum};

verus! {

/// Group ends: strictly increasing node indices, the last one `size - 1`.
pub open spec fn are_group_ends(borders: Seq<usize>, size: int) -> bool {
    &&& borders.len() > 0
    &&& borders.last() + 1 == size
    &&& forall|k: int, m: int| 0 <= k < m < borders.len() ==> borders[k] < borders[m]
}

/// Node `x` belongs to group `g`, whose nodes run from just after `borders[g - 1]` to `borders[g]`.
pub open spec fn in_group(borders: Seq<usize>, x: int, g: int) -> bool {
    &&& 0 <= g < borders.len()
    &&& (g == 0 || borders[g - 1] < x)
    &&& x <= borders[g]
}

/// The term for the node pair `(a, b)` of the group-level entry `[ga][gb]`.
pub open spec fn aggregate_terms(
    matrix: Seq<Vec<i64>>,
    borders: Seq<usize>,
    ga: int,
    gb: int,
) -> spec_fn(int, int) -> int {
    |a: int, b: int|
        if ga != gb && in_group(borders, a, ga) && in_group(borders, b, gb) {
            matrix[a]@[b] as int
        } else {
            0
        }
}

/// The group-level entry `[ga][gb]`: the sum of `matrix[a][b]` over `a` in group `ga` and
/// `b` in group `gb`, or 0 on the diagonal.
pub open spec fn aggregate_entry(matrix: Seq<Vec<i64>>, borders: Seq<usize>, ga: int, gb: int) -> int {
    let size = borders.last() + 1;
    sum(size, |a: int| row_sum(aggregate_terms(matrix, borders, ga, gb), a, size))
}

/// `v` clamped to the range of `i64`.
pub open spec fn clamp_i64(v: int) -> i64 {
    if v < i64::MIN {
        i64::MIN
    } else if v > i64::MAX {
        i64::MAX
    } else {
        v as i64
    }
}

/// The first `a` rows of the double sum of `aggregate_entry`.
pub open spec fn aggregate_rows(
    matrix: Seq<Vec<i64>>,
    borders: Seq<usize>,
    ga: int,
    gb: int,
    a: int,
    n: int,
) -> int {
    sum(a, |x: int| row_sum(aggregate_terms(matrix, borders, ga, gb), x, n))
}

/// The first `b` terms of row `a` of the double sum of `aggregate_entry`.
pub open spec fn aggregate_row_prefix(
    matrix: Seq<Vec<i64>>,
    borders: Seq<usize>,
    ga: int,
    gb: int,
    a: int,
    b: int,
) -> int {
    sum(b, |y: int| aggregate_terms(matrix, borders, ga, gb)(a, y))
}

proof fn lemma_partial_bound(
    matrix: Seq<Vec<i64>>,
    borders: Seq<usize>,
    ga: int,
    gb: int,
    a: int,
    b: int,
    n: int,
)
    requires
        0 <= a < n,
        0 <= b <= n,
        n <= 0xffff_ffff,
        is_square(matrix, n),
    ensures
        -0x8000_0000_0000_0000_0000_0000_0000_0000 < aggregate_rows(matrix, borders, ga, gb, a, n)
            + aggregate_row_prefix(matrix, borders, ga, gb, a, b)
            < 0x8000_0000_0000_0000_0000_0000_0000_0000,
{
    let f = aggregate_terms(matrix, borders, ga, gb);
    let c = 0x8000_0000_0000_0000int;
    assert forall|y: int| 0 <= y < n implies -c <= #[trigger] f(a, y) <= c by {
        assert(matrix[a]@.len() == n);
    }
    lemma_sum_abs_bound(b, |y: int| f(a, y), c);
    assert forall|x: int| 0 <= x < a implies -(n * c) <= #[trigger] row_sum(f, x, n) <= n * c by {
        assert forall|y: int| 0 <= y < n implies -c <= #[trigger] f(x, y) <= c by {
            assert(matrix[x]@.len() == n);
        }
        lemma_sum_abs_bound(n, |y: int| f(x, y), c);
    }
    lemma_sum_abs_bound(a, |x: int| row_sum(f, x, n), n * c);
    assert(a * (n * c) + b * c <= n * n * c) by (nonlinear_arith)
        requires
            0 <= a < n,
            0 <= b <= n,
            0 <= c,
    ;
    assert(n * n * c <= 0xffff_ffff * 0xffff_ffff * c) by (nonlinear_arith)
        requires
            0 <= n <= 0xffff_ffff,
            0 <= c,
    ;
}

proof fn lemma_group_unique(borders: Seq<usize>, x: int, g: int, h: int)
    requires
        forall|k: int, m: int| 0 <= k < m < borders.len() ==> borders[k] < borders[m],
        in_group(borders, x, g),
        in_group(borders, x, h),
    ensures
        g == h,
{
    if g < h {
        assert(borders[g] <= borders[h - 1]) by {
            if g < h - 1 {
                assert(borders[g] < borders[h - 1]);
            }
        }
    } else if h < g {
        assert(borders[h] <= borders[g - 1]) by {
            if h < g - 1 {
                assert(borders[h] < borders[g - 1]);
            }
        }
    }
}

proof fn lemma_sum_abs_bound(n: int, f: spec_fn(int) -> int, c: int)
    requires
        0 <= n,
        0 <= c,
        forall|i: int| 0 <= i < n ==> -c <= #[trigger] f(i) <= c,
    ensures
        -(n * c) <= sum(n, f) <= n * c,
    decreases n,
{
    if n > 0 {
        lemma_sum_abs_bound(n - 1, f, c);
        assert((n - 1) * c + c == n * c) by (nonlinear_arith);
    }
}

/// Collapses a node-level pairwise matrix to group level: entry `[ga][gb]` adds
/// `matrix[a][b]` over the nodes `a` of group `ga` and `b` of group `gb` (0 on the
/// diagonal, where the antisymmetric entries cancel), clamped to the range of `i64`.
pub fn aggregate_pairwise_matrix(pairwise_matrix: &Vec<Vec<i64>>, borders: &Vec<usize>) -> (r: Vec<
    Vec<i64>,
>)
    requires
        borders@.len() == 0 || are_group_ends(borders@, pairwise_matrix@.len() as int),
        is_square(pairwise_matrix@, pairwise_matrix@.len() as int),
        pairwise_matrix@.len() <= 0xffff_ffff,
    ensures
        is_square(r@, borders@.len() as int),
        forall|ga: int, gb: int|
            0 <= ga < borders@.len() && 0 <= gb < borders@.len() ==> #[trigger] r@[ga]@[gb]
                == clamp_i64(aggregate_entry(pairwise_matrix@, borders@, ga, gb)),
{
    let ghost m = pairwise_matrix@;
    let ghost bs = borders@;
    let size = pairwise_matrix.len();
    let groups = borders.len();
    if groups == 0 {
        return Vec::new();
    }
    // The group of each node.
    let mut group_of: Vec<usize> = Vec::new();
    let mut g: usize = 0;
    let mut x: usize = 0;
    while x < size
        invariant
            x <= size,
            size == m.len(),
            bs == borders@,
            m == pairwise_matrix@,
            groups == bs.len(),
            are_group_ends(bs, size as int),
            g < groups,
            g == 0 || bs[g - 1] < x,
            x == 0 || x - 1 <= bs[g as int],
            group_of@.len() == x,
            forall|y: int| 0 <= y < x ==> #[trigger] group_of@[y] < groups && in_group(bs, y, group_of@[y] as int),
        decreases size - x,
    {
        if x > borders[g] {
            assert(g + 1 < groups) by {
                if g + 1 >= groups {
                    assert(bs[g as int] == bs.last());
                    assert(bs.last() + 1 == size);
                }
            }
            g = g + 1;
        }
        assert(x <= bs[g as int]) by {
            if g > 0 {
                assert(bs[g - 1] < bs[g as int]);
            }
        }
        group_of.push(g);
        x = x + 1;
    }
    let ghost n = size as int;
    let mut result: Vec<Vec<i64>> = Vec::new();
    let mut ga: usize = 0;
    while ga < groups
        invariant
            ga <= groups,
            m == pairwise_matrix@,
            bs == borders@,
            n == size,
            size == m.len(),
            size <= 0xffff_ffff,
            groups == bs.len(),
            are_group_ends(bs, n),
            is_square(m, n),
            group_of@.len() == size,
            forall|y: int| 0 <= y < size ==> #[trigger] group_of@[y] < groups && in_group(bs, y, group_of@[y] as int),
            result@.len() == ga,
            forall|x: int| 0 <= x < ga ==> (#[trigger] result@[x])@.len() == groups,
            forall|x: int, y: int|
                0 <= x < ga && 0 <= y < groups ==> #[trigger] result@[x]@[y] == clamp_i64(
                    aggregate_entry(m, bs, x, y),
                ),
        decreases groups - ga,
    {
        let mut acc: Vec<i128> = Vec::new();
        let mut t: usize = 0;
        while t < groups
            invariant
                t <= groups,
                acc@.len() == t,
                forall|y: int| 0 <= y < t ==> #[trigger] acc@[y] == 0,
            decreases groups - t,
        {
            acc.push(0);
            t = t + 1;
        }
        proof {
            assert forall|gb: int| 0 <= gb < groups implies #[trigger] acc@[gb] == aggregate_rows(m, bs, ga as int, gb, 0, n) by {}
        }
        let mut a: usize = 0;
        while a < size
            invariant
                a <= size,
                ga < groups,
                m == pairwise_matrix@,
                bs == borders@,
                n == size,
                size == m.len(),
                size <= 0xffff_ffff,
                groups == bs.len(),
                are_group_ends(bs, n),
                is_square(m, n),
                group_of@.len() == size,
                forall|y: int| 0 <= y < size ==> #[trigger] group_of@[y] < groups && in_group(bs, y, group_of@[y] as int),
                acc@.len() == groups,
                forall|gb: int|
                    0 <= gb < groups ==> #[trigger] acc@[gb] == aggregate_rows(m, bs, ga as int, gb, a as int, n),
            decreases size - a,
        {
            let row = &pairwise_matrix[a];
            assert(row@.len() == size);
            proof {
                assert forall|gb: int| 0 <= gb < groups implies #[trigger] acc@[gb] == aggregate_rows(m, bs, ga as int, gb, a as int, n)
                    + aggregate_row_prefix(m, bs, ga as int, gb, a as int, 0) by {}
            }
            let mut b: usize = 0;
            while b < size
                invariant
                    a < size,
                    b <= size,
                    ga < groups,
                    m == pairwise_matrix@,
                    *row == m[a as int],
                    row@.len() == size,
                    bs == borders@,
                    n == size,
                    size == m.len(),
                    size <= 0xffff_ffff,
                    groups == bs.len(),
                    is_square(m, n),
                    forall|k: int, j: int| 0 <= k < j < bs.len() ==> bs[k] < bs[j],
                    group_of@.len() == size,
                    forall|y: int| 0 <= y < size ==> #[trigger] group_of@[y] < groups && in_group(bs, y, group_of@[y] as int),
                    acc@.len() == groups,
                    forall|gb: int|
                        0 <= gb < groups ==> #[trigger] acc@[gb] == aggregate_rows(m, bs, ga as int, gb, a as int, n)
                            + aggregate_row_prefix(m, bs, ga as int, gb, a as int, b as int),
                decreases size - b,
            {
                let gb = group_of[b];
                proof {
                    if group_of@[a as int] != ga && in_group(bs, a as int, ga as int) {
                        lemma_group_unique(bs, a as int, ga as int, group_of@[a as int] as int);
                    }
                    lemma_partial_bound(m, bs, ga as int, gb as int, a as int, b + 1, n);
                }
                if group_of[a] == ga && gb != ga {
                    let v = acc[gb];
                    acc.set(gb, v + row[b] as i128);
                }
                proof {
                    assert forall|h: int| 0 <= h < groups implies #[trigger] acc@[h] == aggregate_rows(m, bs, ga as int, h, a as int, n)
                        + aggregate_row_prefix(m, bs, ga as int, h, a as int, b + 1) by {
                        if h != gb && in_group(bs, b as int, h) {
                            lemma_group_unique(bs, b as int, h, gb as int);
                        }
                    }
                }
                b = b + 1;
            }
            proof {
                assert forall|gb: int| 0 <= gb < groups implies #[trigger] acc@[gb] == aggregate_rows(m, bs, ga as int, gb, a + 1, n) by {
                    let f = aggregate_terms(m, bs, ga as int, gb);
                    lemma_sum_ext(n, |y: int| f(a as int, y), |y: int| f(a as int, y));
                }
            }
            a = a + 1;
        }
        let mut row: Vec<i64> = Vec::new();
        let mut t: usize = 0;
        while t < groups
            invariant
                t <= groups,
                acc@.len() == groups,
                row@.len() == t,
                forall|y: int| 0 <= y < t ==> #[trigger] row@[y] == clamp_i64(acc@[y] as int),
            decreases groups - t,
        {
            let v = acc[t];
            let clamped: i64 = if v < i64::MIN as i128 {
                i64::MIN
            } else if v > i64::MAX as i128 {
                i64::MAX
            } else {
                v as i64
            };
            row.push(clamped);
            t = t + 1;
        }
        proof {
            assert forall|gb: int| 0 <= gb < groups implies #[trigger] row@[gb] == clamp_i64(
                aggregate_entry(m, bs, ga as int, gb),
            ) by {
                assert(bs.last() + 1 == n);
            }
        }
        result.push(row);
        ga = ga + 1;
    }
    result
}

/// The first node of group `g`.
pub open spec fn group_start(borders: Seq<usize>, g: int) -> int {
    if g == 0 {
        0
    } else {
        borders[g - 1] + 1
    }
}

/// A sum that keeps only the terms in `[lo, hi)` is the sum over that range.
proof fn lemma_sum_range(n: int, lo: int, hi: int, f: spec_fn(int) -> int, g: spec_fn(int) -> int)
    requires
        0 <= lo <= hi <= n,
        forall|x: int| 0 <= x < n ==> #[trigger] g(x) == if lo <= x < hi { f(x) } else { 0 },
    ensures
        sum(n, g) == sum(hi - lo, |y: int| f(lo + y)),
    decreases n,
{
    if n == 0 {
    } else if n > hi {
        lemma_sum_range(n - 1, lo, hi, f, g);
    } else if n > lo {
        lemma_sum_range_prefix(n, lo, f, g);
    } else {
        assert forall|x: int| 0 <= x < n implies #[trigger] g(x) == 0 by {}
        lemma_sum_zero(n, g);
    }
}

proof fn lemma_sum_range_prefix(n: int, lo: int, f: spec_fn(int) -> int, g: spec_fn(int) -> int)
    requires
        0 <= lo <= n,
        forall|x: int| 0 <= x < n ==> #[trigger] g(x) == if lo <= x { f(x) } else { 0 },
    ensures
        sum(n, g) == sum(n - lo, |y: int| f(lo + y)),
    decreases n,
{
    if n == lo {
        assert forall|x: int| 0 <= x < n implies #[trigger] g(x) == 0 by {}
        lemma_sum_zero(n, g);
    } else {
        lemma_sum_range_prefix(n - 1, lo, f, g);
    }
}

/// For two neighbouring groups, the aggregated entry before clamping is the sum of the pair
/// contributions between their nodes, which is how much exchanging the two groups changes
/// the crossing count.
pub proof fn lemma_aggregate_neighbours(
    edges: Seq<IndexEdge>,
    matrix: Seq<Vec<i64>>,
    borders: Seq<usize>,
    ga: int,
)
    requires
        is_pairwise_matrix(matrix, matrix.len() as int, edges),
        are_group_ends(borders, matrix.len() as int),
        0 <= ga,
        ga + 1 < borders.len(),
    ensures
        aggregate_entry(matrix, borders, ga, ga + 1) == group_contribution(
            edges,
            group_start(borders, ga),
            borders[ga] + 1 - group_start(borders, ga),
            borders[ga + 1] - borders[ga],
        ),
{
    let n = matrix.len() as int;
    let gb = ga + 1;
    let s = group_start(borders, ga);
    let la = borders[ga] + 1 - s;
    let lb = borders[gb] - borders[ga];
    let t = aggregate_terms(matrix, borders, ga, gb);
    if ga > 0 {
        assert(borders[ga - 1] < borders[ga]);
    }
    assert(borders[ga] < borders[gb]);
    assert(borders[gb] <= borders.last()) by {
        if gb < borders.len() - 1 {
            assert(borders[gb] < borders[borders.len() - 1]);
        }
    }
    let rows = |a: int| row_sum(t, a, n);
    let per_a = |a: int| sum(lb, |b: int| pair_contribution(edges, a, s + la + b));
    assert forall|a: int| 0 <= a < n implies #[trigger] rows(a) == if s <= a < s + la {
        per_a(a)
    } else {
        0
    } by {
        let terms = |b: int| t(a, b);
        if s <= a < s + la {
            assert(in_group(borders, a, ga));
            let f = |b: int| pair_contribution(edges, a, b);
            assert forall|b: int| 0 <= b < n implies #[trigger] terms(b) == if s + la <= b < s + la
                + lb {
                f(b)
            } else {
                0
            } by {
                assert(matrix[a]@[b] == pair_contribution(edges, a, b));
            }
            lemma_sum_range(n, s + la, s + la + lb, f, terms);
            lemma_sum_ext(lb, |y: int| f(s + la + y), |b: int| pair_contribution(edges, a, s + la + b));
        } else {
            assert(!in_group(borders, a, ga));
            assert forall|b: int| 0 <= b < n implies #[trigger] terms(b) == 0 by {}
            lemma_sum_zero(n, terms);
        }
    }
    lemma_sum_range(n, s, s + la, per_a, rows);
    lemma_sum_ext(
        la,
        |y: int| per_a(s + y),
        |a: int| sum(lb, |b: int| pair_contribution(edges, s + a, s + la + b)),
    );
}

/// Aggregation keeps the totals along groups: exchanging two neighbouring groups of the
/// swappable side changes the crossing count by minus their entry in the aggregated
/// matrix (before clamping), as exchanging two nodes does with the node-level matrix.
pub proof fn lemma_aggregation_preserves_totals(
    edges: Seq<IndexEdge>,
    matrix: Seq<Vec<i64>>,
    borders: Seq<usize>,
    ga: int,
)
    requires
        is_pairwise_matrix(matrix, matrix.len() as int, edges),
        are_group_ends(borders, matrix.len() as int),
        matrix.len() <= usize::MAX,
        0 <= ga,
        ga + 1 < borders.len(),
    ensures
        crossing_count(
            swap_blocks(
                edges,
                group_start(borders, ga),
                borders[ga] + 1 - group_start(borders, ga),
                borders[ga + 1] - borders[ga],
            ),
        ) - crossing_count(edges) == -aggregate_entry(matrix, borders, ga, ga + 1),
{
    lemma_aggregate_neighbours(edges, matrix, borders, ga);
    if ga > 0 {
        assert(borders[ga - 1] < borders[ga]);
    }
    assert(borders[ga] < borders[ga + 1]);
    assert(borders[ga + 1] <= borders.last()) by {
        if ga + 1 < borders.len() - 1 {
            assert(borders[ga + 1] < borders[borders.len() - 1]);
        }
    }
    lemma_group_swap(
        edges,
        group_start(borders, ga),
        borders[ga] + 1 - group_start(borders, ga),
        borders[ga + 1] - borders[ga],
    );
}

/// Aggregating an antisymmetric matrix gives an antisymmetric matrix, with zeros on the
/// diagonal (before clamping).
pub proof fn lemma_aggregate_antisymmetric(matrix: Seq<Vec<i64>>, borders: Seq<usize>, ga: int, gb: int)
    requires
        is_square(matrix, matrix.len() as int),
        are_group_ends(borders, matrix.len() as int),
        forall|a: int, b: int|
            0 <= a < matrix.len() && 0 <= b < matrix.len() ==> #[trigger] matrix[a]@[b]
                == -matrix[b]@[a],
    ensures
        aggregate_entry(matrix, borders, ga, gb) == -aggregate_entry(matrix, borders, gb, ga),
        aggregate_entry(matrix, borders, ga, ga) == 0,
{
    let n = matrix.len() as int;
    let tab = aggregate_terms(matrix, borders, ga, gb);
    let tba = aggregate_terms(matrix, borders, gb, ga);
    let tbat = |a: int, b: int| tba(b, a);
    let neg = |a: int, b: int| -tab(a, b);
    assert(borders.last() + 1 == n);
    // Each entry is a double sum over node pairs.
    assert(aggregate_entry(matrix, borders, ga, gb) == double_sum(n, tab));
    assert(aggregate_entry(matrix, borders, gb, ga) == double_sum(n, tba));
    lemma_double_sum_transpose(n, tba, tbat);
    assert forall|a: int, b: int| 0 <= a < n && 0 <= b < n implies #[trigger] tbat(a, b) == neg(a, b) by {}
    crate::consistency::lemma_double_sum_ext(n, tbat, neg);
    lemma_double_sum_negate(n, tab, neg);
    let taa = aggregate_terms(matrix, borders, ga, ga);
    let zr = |a: int| row_sum(taa, a, n);
    assert forall|a: int| 0 <= a < n implies #[trigger] zr(a) == 0 by {
        lemma_sum_zero(n, |b: int| taa(a, b));
    }
    lemma_sum_zero(n, zr);
}

} // verus!
