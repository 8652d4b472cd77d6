use vstd::prelude::*;

use crate::sums::{
    col_sum, lemma_sum_ext, lemma_sum_le, lemma_sum_scale, lemma_sum_single, lemma_sum_swap,
    lemma_sum_update, lemma_sum_zero, row_sum, sum,
};

verus! {

broadcast use {
    vstd::seq_lib::to_multiset_update,
    vstd::seq_lib::to_multiset_contains,
    vstd::multiset::group_multiset_axioms,
    vstd::multiset::group_multiset_properties,
};

/// `order` lists each of `0..n` exactly once.
pub open spec fn is_permutation(order: Seq<usize>, n: int) -> bool {
    &&& order.len() == n
    &&& forall|k: int| 0 <= k < n ==> #[trigger] order[k] < n
    &&& forall|k: int, m: int| 0 <= k < m < n ==> #[trigger] order[k] != #[trigger] order[m]
}

/// `order` with its entries at `j` and `j + 1` exchanged.
pub open spec fn swap_adjacent(order: Seq<usize>, j: int) -> Seq<usize> {
    order.update(j, order[j + 1]).update(j + 1, order[j])
}

/// `matrix` has `n` rows of `n` entries.
pub open spec fn is_square(matrix: Seq<Vec<i64>>, n: int) -> bool {
    &&& matrix.len() == n
    &&& forall|a: int| 0 <= a < n ==> (#[trigger] matrix[a])@.len() == n
}

/// Exchanging two neighbours `a` (first) and `b` in any order of `0..n` lowers `cost` by
/// `matrix[a][b]`.
pub open spec fn tracks(matrix: Seq<Vec<i64>>, n: int, cost: spec_fn(Seq<usize>) -> int) -> bool {
    forall|order: Seq<usize>, j: int|
        is_permutation(order, n) && 0 <= j && j + 1 < n ==> #[trigger] cost(swap_adjacent(order, j))
            == cost(order) - matrix[order[j] as int]@[order[j + 1] as int]
}

/// `cost` fits in an `i64` on every order of `0..n`.
pub open spec fn fits_i64(n: int, cost: spec_fn(Seq<usize>) -> int) -> bool {
    forall|order: Seq<usize>|
        is_permutation(order, n) ==> i64::MIN <= #[trigger] cost(order) <= i64::MAX
}

/// A running count that starts at `cost(before)` ends at `cost(after)`, for every cost that
/// `matrix` tracks.
pub open spec fn count_follows(
    matrix: Seq<Vec<i64>>,
    n: int,
    before: Seq<usize>,
    start: i64,
    after: Seq<usize>,
    end: i64,
) -> bool {
    forall|cost: spec_fn(Seq<usize>) -> int|
        #[trigger] tracks(matrix, n, cost) && fits_i64(n, cost) && cost(before) == start ==> cost(
            after,
        ) == end
}

/// No entry has crossed a border: for each border `b` inside the order, positions `0..=b`
/// hold the same entries before and after.
pub open spec fn keeps_borders(before: Seq<usize>, after: Seq<usize>, borders: Seq<usize>) -> bool {
    forall|k: int|
        0 <= k < borders.len() && borders[k] < after.len() ==> #[trigger] after.take(
            borders[k] + 1,
        ).to_multiset() == before.take(borders[k] + 1).to_multiset()
}

/// `accept` never takes a move.
pub open spec fn greedy<F: Fn(usize, i64) -> bool>(accept: F) -> bool {
    forall|s: usize, d: i64, b: bool| #[trigger] accept.ensures((s, d), b) ==> !b
}

/// `count - delta`, held to the range of `i64`.
pub open spec fn lowered(count: i64, delta: i64) -> i64 {
    if count - delta < i64::MIN {
        i64::MIN
    } else if count - delta > i64::MAX {
        i64::MAX
    } else {
        (count - delta) as i64
    }
}

/// One visit of the neighbours at `j` and `j + 1` when only improving moves are taken:
/// unless `j` is a border, they are exchanged when their entry is positive, and the count
/// is lowered by that entry.
pub open spec fn greedy_step(
    matrix: Seq<Vec<i64>>,
    borders: Seq<usize>,
    state: (Seq<usize>, i64),
    j: int,
) -> (Seq<usize>, i64) {
    let order = state.0;
    let delta = matrix[order[j] as int]@[order[j + 1] as int];
    if !borders.contains(j as usize) && delta > 0 {
        (swap_adjacent(order, j), lowered(state.1, delta))
    } else {
        state
    }
}

/// The visits of positions `0..j`, left to right.
pub open spec fn greedy_sweep(
    matrix: Seq<Vec<i64>>,
    borders: Seq<usize>,
    state: (Seq<usize>, i64),
    j: int,
) -> (Seq<usize>, i64)
    decreases j,
{
    if j <= 0 {
        state
    } else {
        greedy_step(matrix, borders, greedy_sweep(matrix, borders, state, j - 1), j - 1)
    }
}

/// Up to `sweeps` full sweeps over an order of `n` nodes, stopping after a sweep that
/// ends at count 0.
pub open spec fn greedy_sweeps(
    matrix: Seq<Vec<i64>>,
    n: int,
    borders: Seq<usize>,
    state: (Seq<usize>, i64),
    sweeps: nat,
) -> (Seq<usize>, i64)
    decreases sweeps,
{
    if sweeps == 0 {
        state
    } else {
        let next = greedy_sweep(matrix, borders, state, n - 1);
        if next.1 == 0 {
            next
        } else {
            greedy_sweeps(matrix, n, borders, next, (sweeps - 1) as nat)
        }
    }
}

/// The outcome of one run when only improving moves are taken: nothing happens when the
/// count is not positive, else up to `sweeps` sweeps.
pub open spec fn greedy_run(
    matrix: Seq<Vec<i64>>,
    n: int,
    borders: Seq<usize>,
    state: (Seq<usize>, i64),
    sweeps: nat,
) -> (Seq<usize>, i64) {
    if state.1 > 0 {
        greedy_sweeps(matrix, n, borders, state, sweeps)
    } else {
        state
    }
}

/// `steps` runs in a row, each from where the previous one stopped.
pub open spec fn greedy_runs(
    matrix: Seq<Vec<i64>>,
    n: int,
    borders: Seq<usize>,
    state: (Seq<usize>, i64),
    sweeps: nat,
    steps: nat,
) -> (Seq<usize>, i64)
    decreases steps,
{
    if steps == 0 {
        state
    } else {
        greedy_runs(
            matrix,
            n,
            borders,
            greedy_run(matrix, n, borders, state, sweeps),
            sweeps,
            (steps - 1) as nat,
        )
    }
}

/// The borders of an optional border list.
pub open spec fn border_list(borders: Option<Vec<usize>>) -> Seq<usize> {
    match borders {
        Some(b) => b@,
        None => Seq::empty(),
    }
}

pub proof fn lemma_swap_keeps_permutation(order: Seq<usize>, n: int, j: int)
    requires
        is_permutation(order, n),
        0 <= j,
        j + 1 < n,
    ensures
        is_permutation(swap_adjacent(order, j), n),
{
    let s = swap_adjacent(order, j);
    assert forall|k: int, m: int| 0 <= k < m < n implies #[trigger] s[k] != #[trigger] s[m] by {
        let k0 = if k == j { j + 1 } else if k == j + 1 { j } else { k };
        let m0 = if m == j { j + 1 } else if m == j + 1 { j } else { m };
        assert(s[k] == order[k0] && s[m] == order[m0]);
        assert(k0 != m0);
        if k0 < m0 {
            assert(order[k0] != order[m0]);
        } else {
            assert(order[m0] != order[k0]);
        }
    }
}

proof fn lemma_swap_keeps_multiset(s: Seq<usize>, j: int)
    requires
        0 <= j,
        j + 1 < s.len(),
    ensures
        swap_adjacent(s, j).to_multiset() == s.to_multiset(),
{
    let a = s[j];
    let b = s[j + 1];
    let s1 = s.update(j, b);
    assert(s.contains(a)) by {
        assert(s[j] == a);
    }
    assert(s.to_multiset().count(a) > 0);
    assert(s1.to_multiset() == s.to_multiset().insert(b).remove(a));
    assert(s1[j + 1] == b);
    assert(s1.update(j + 1, a).to_multiset() == s1.to_multiset().insert(a).remove(b));
    assert(s.to_multiset().insert(b).remove(a).insert(a).remove(b) =~= s.to_multiset());
}

proof fn lemma_swap_keeps_prefix(s: Seq<usize>, j: int, m: int)
    requires
        0 <= j,
        j + 1 < s.len(),
        0 <= m <= s.len(),
        m != j + 1,
    ensures
        swap_adjacent(s, j).take(m).to_multiset() == s.take(m).to_multiset(),
{
    if m <= j {
        assert(swap_adjacent(s, j).take(m) =~= s.take(m));
    } else {
        assert(swap_adjacent(s, j).take(m) =~= swap_adjacent(s.take(m), j));
        lemma_swap_keeps_multiset(s.take(m), j);
    }
}

/// `blocked[j]` tells whether `j` is one of `borders`, for `j < n`.
fn blocked_positions(n: usize, borders: &Option<Vec<usize>>) -> (blocked: Vec<bool>)
    ensures
        blocked@.len() == n,
        forall|j: int| 0 <= j < n ==> #[trigger] blocked@[j] == border_list(*borders).contains(j as usize),
{
    let mut blocked: Vec<bool> = Vec::new();
    let mut j: usize = 0;
    while j < n
        invariant
            j <= n,
            blocked@.len() == j,
            forall|m: int| 0 <= m < j ==> !#[trigger] blocked@[m],
        decreases n - j,
    {
        blocked.push(false);
        j = j + 1;
    }
    match borders {
        None => {},
        Some(b) => {
            let mut t: usize = 0;
            while t < b.len()
                invariant
                    t <= b@.len(),
                    blocked@.len() == n,
                    forall|m: int| 0 <= m < n ==> #[trigger] blocked@[m] == b@.take(t as int).contains(m as usize),
                decreases b@.len() - t,
            {
                let border = b[t];
                if border < n {
                    blocked.set(border, true);
                }
                proof {
                    assert forall|m: int| 0 <= m < n implies #[trigger] blocked@[m] == b@.take(t + 1).contains(
                        m as usize,
                    ) by {
                        assert(b@.take(t + 1) == b@.take(t as int).push(border));
                        if b@.take(t + 1).contains(m as usize) && m as usize != border {
                            let k = choose|k: int| 0 <= k < t + 1 && #[trigger] b@.take(t + 1)[k] == m as usize;
                            assert(b@.take(t as int)[k] == m as usize);
                        }
                        if b@.take(t as int).contains(m as usize) {
                            let k = choose|k: int| 0 <= k < t && #[trigger] b@.take(t as int)[k] == m as usize;
                            assert(b@.take(t + 1)[k] == m as usize);
                        }
                        if m as usize == border {
                            assert(b@.take(t + 1)[t as int] == border);
                        }
                    }
                }
                t = t + 1;
            }
            assert(b@.take(b@.len() as int) =~= b@);
        },
    }
    blocked
}

/// One Metropolis run over the order `nodes` of `0..swappable_count`: for up to
/// `max_iterations` sweeps, each pair of neighbours not split by a border is visited left
/// to right, and exchanged when that removes crossings (`matrix[a][b] > 0`) or when
/// `accept(step, matrix[a][b])` takes the move; the count is lowered by `matrix[a][b]`
/// at each exchange. Nothing is done when the count is not positive, and the sweeps stop
/// once a sweep ends at count 0.
pub fn swap_nodes<F: Fn(usize, i64) -> bool>(
    swappable_count: usize,
    pairwise_matrix: &Vec<Vec<i64>>,
    max_iterations: usize,
    accept: &F,
    step: usize,
    crossing_count: i64,
    nodes: Vec<usize>,
    borders: &Option<Vec<usize>>,
) -> (r: (Vec<usize>, i64))
    requires
        is_square(pairwise_matrix@, swappable_count as int),
        is_permutation(nodes@, swappable_count as int),
        forall|s: usize, d: i64| #[trigger] accept.requires((s, d)),
    ensures
        is_permutation(r.0@, swappable_count as int),
        keeps_borders(nodes@, r.0@, border_list(*borders)),
        count_follows(
            pairwise_matrix@,
            swappable_count as int,
            nodes@,
            crossing_count,
            r.0@,
            r.1,
        ),
        crossing_count <= 0 ==> r.0@ == nodes@ && r.1 == crossing_count,
        greedy(*accept) ==> r.1 <= crossing_count,
        greedy(*accept) ==> (r.0@, r.1) == greedy_run(
            pairwise_matrix@,
            swappable_count as int,
            border_list(*borders),
            (nodes@, crossing_count),
            max_iterations as nat,
        ),
{
    let n = swappable_count;
    let ghost matrix = pairwise_matrix@;
    let ghost start = nodes@;
    let ghost border_seq = border_list(*borders);
    let blocked = blocked_positions(n, borders);
    let mut order = nodes;
    let mut count = crossing_count;
    if count > 0 {
        let mut iteration: usize = 0;
        while iteration < max_iterations
            invariant_except_break
                greedy(*accept) ==> greedy_sweeps(
                    matrix,
                    n as int,
                    border_seq,
                    (start, crossing_count),
                    max_iterations as nat,
                ) == greedy_sweeps(
                    matrix,
                    n as int,
                    border_seq,
                    (order@, count),
                    (max_iterations - iteration) as nat,
                ),
            invariant
                matrix == pairwise_matrix@,
                border_seq == border_list(*borders),
                is_square(matrix, n as int),
                forall|s: usize, d: i64| #[trigger] accept.requires((s, d)),
                blocked@.len() == n,
                forall|j: int| 0 <= j < n ==> #[trigger] blocked@[j] == border_seq.contains(j as usize),
                is_permutation(order@, n as int),
                keeps_borders(start, order@, border_seq),
                count_follows(matrix, n as int, start, crossing_count, order@, count),
                greedy(*accept) ==> count <= crossing_count,
                iteration <= max_iterations,
            ensures
                greedy(*accept) ==> greedy_sweeps(
                    matrix,
                    n as int,
                    border_seq,
                    (start, crossing_count),
                    max_iterations as nat,
                ) == (order@, count),
            decreases max_iterations - iteration,
        {
            let ghost sweep_start = (order@, count);
            let pairs: usize = if n > 0 {
                n - 1
            } else {
                0
            };
            let mut j: usize = 0;
            while j < pairs
                invariant
                    j <= pairs,
                    pairs + 1 <= n || pairs == 0,
                    matrix == pairwise_matrix@,
                    border_seq == border_list(*borders),
                    is_square(matrix, n as int),
                    forall|s: usize, d: i64| #[trigger] accept.requires((s, d)),
                    blocked@.len() == n,
                    forall|j: int| 0 <= j < n ==> #[trigger] blocked@[j] == border_seq.contains(j as usize),
                    is_permutation(order@, n as int),
                    keeps_borders(start, order@, border_seq),
                    count_follows(matrix, n as int, start, crossing_count, order@, count),
                    greedy(*accept) ==> count <= crossing_count,
                    pairs == n - 1 || (n == 0 && pairs == 0),
                    greedy(*accept) ==> (order@, count) == greedy_sweep(
                        matrix,
                        border_seq,
                        sweep_start,
                        j as int,
                    ),
                decreases pairs - j,
            {
                if !blocked[j] {
                    let a = order[j];
                    let b = order[j + 1];
                    assert(a < n && b < n);
                    assert(matrix[a as int]@.len() == n);
                    let delta = pairwise_matrix[a][b];
                    if delta > 0 || accept(step, delta) {
                        let ghost before = order@;
                        order.set(j, b);
                        order.set(j + 1, a);
                        let next = match count.checked_sub(delta) {
                            Some(v) => v,
                            None => if delta > 0 {
                                i64::MIN
                            } else {
                                i64::MAX
                            },
                        };
                        proof {
                            assert(order@ =~= swap_adjacent(before, j as int));
                            lemma_swap_keeps_permutation(before, n as int, j as int);
                            assert forall|cost: spec_fn(Seq<usize>) -> int|
                                #[trigger] tracks(matrix, n as int, cost) && fits_i64(n as int, cost)
                                    && cost(start) == crossing_count implies cost(order@) == next by {
                                assert(cost(swap_adjacent(before, j as int)) == cost(before) - delta);
                                assert(cost(before) == count);
                                assert(i64::MIN <= cost(swap_adjacent(before, j as int)) <= i64::MAX);
                            }
                            assert forall|k: int|
                                0 <= k < border_seq.len() && border_seq[k] < order@.len() implies #[trigger] order@.take(
                                border_seq[k] + 1,
                            ).to_multiset() == start.take(border_seq[k] + 1).to_multiset() by {
                                assert(border_seq.contains(border_seq[k]));
                                assert(border_seq[k] != j);
                                lemma_swap_keeps_prefix(before, j as int, border_seq[k] + 1);
                            }
                        }
                        count = next;
                    }
                }
                j = j + 1;
            }
            proof {
                if greedy(*accept) {
                    if n == 0 {
                        assert(greedy_sweep(matrix, border_seq, sweep_start, n - 1) == sweep_start);
                    }
                    assert((order@, count) == greedy_sweep(matrix, border_seq, sweep_start, n - 1));
                }
            }
            if count == 0 {
                break ;
            }
            iteration = iteration + 1;
        }
    }
    proof {
        assert forall|k: int|
            0 <= k < border_seq.len() && border_seq[k] < start.len() implies #[trigger] start.take(
            border_seq[k] + 1,
        ).to_multiset() == start.take(border_seq[k] + 1).to_multiset() by {}
    }
    (order, count)
}

/// `0, 1, ..., n - 1`.
pub open spec fn identity(n: int) -> Seq<usize> {
    Seq::new(n as nat, |k: int| k as usize)
}

/// The identity order of `0..n`.
pub fn identity_order(n: usize) -> (r: Vec<usize>)
    ensures
        r@ == identity(n as int),
        is_permutation(r@, n as int),
{
    let mut r: Vec<usize> = Vec::new();
    let mut k: usize = 0;
    while k < n
        invariant
            k <= n,
            r@ == identity(k as int),
        decreases n - k,
    {
        r.push(k);
        k = k + 1;
        assert(r@ =~= identity(k as int));
    }
    r
}

/// `steps` Metropolis runs from the identity order of `0..swappable_count`, run `s`
/// deciding non-improving moves with `accept(s, _)`; each run starts from the order and
/// count that the previous one left.
pub fn cooldown<F: Fn(usize, i64) -> bool>(
    swappable_count: usize,
    pairwise_matrix: &Vec<Vec<i64>>,
    max_iterations: usize,
    steps: usize,
    accept: &F,
    crossing_count: i64,
    borders: &Option<Vec<usize>>,
) -> (r: (Vec<usize>, i64))
    requires
        is_square(pairwise_matrix@, swappable_count as int),
        forall|s: usize, d: i64| #[trigger] accept.requires((s, d)),
    ensures
        is_permutation(r.0@, swappable_count as int),
        keeps_borders(identity(swappable_count as int), r.0@, border_list(*borders)),
        count_follows(
            pairwise_matrix@,
            swappable_count as int,
            identity(swappable_count as int),
            crossing_count,
            r.0@,
            r.1,
        ),
        greedy(*accept) ==> r.1 <= crossing_count,
        greedy(*accept) ==> (r.0@, r.1) == greedy_runs(
            pairwise_matrix@,
            swappable_count as int,
            border_list(*borders),
            (identity(swappable_count as int), crossing_count),
            max_iterations as nat,
            steps as nat,
        ),
{
    let ghost start = identity(swappable_count as int);
    let mut nodes = identity_order(swappable_count);
    let mut count = crossing_count;
    let mut step: usize = 0;
    while step < steps
        invariant
            start == identity(swappable_count as int),
            is_square(pairwise_matrix@, swappable_count as int),
            forall|s: usize, d: i64| #[trigger] accept.requires((s, d)),
            is_permutation(nodes@, swappable_count as int),
            keeps_borders(start, nodes@, border_list(*borders)),
            count_follows(pairwise_matrix@, swappable_count as int, start, crossing_count, nodes@, count),
            greedy(*accept) ==> count <= crossing_count,
            step <= steps,
            greedy(*accept) ==> greedy_runs(
                pairwise_matrix@,
                swappable_count as int,
                border_list(*borders),
                (start, crossing_count),
                max_iterations as nat,
                steps as nat,
            ) == greedy_runs(
                pairwise_matrix@,
                swappable_count as int,
                border_list(*borders),
                (nodes@, count),
                max_iterations as nat,
                (steps - step) as nat,
            ),
        decreases steps - step,
    {
        let ghost before = nodes@;
        let ghost before_count = count;
        let (next, next_count) = swap_nodes(
            swappable_count,
            pairwise_matrix,
            max_iterations,
            accept,
            step,
            count,
            nodes,
            borders,
        );
        proof {
            assert forall|cost: spec_fn(Seq<usize>) -> int|
                #[trigger] tracks(pairwise_matrix@, swappable_count as int, cost) && fits_i64(
                    swappable_count as int,
                    cost,
                ) && cost(start) == crossing_count implies cost(next@) == next_count by {
                assert(cost(before) == before_count);
            }
        }
        nodes = next;
        count = next_count;
        step = step + 1;
    }
    (nodes, count)
}

/// No node crosses a border: when a permutation of `0..n` keeps the borders `borders`, the
/// entry at each position `k` comes from the same side of every border as `k`.
pub proof fn lemma_no_node_crosses_border(perm: Seq<usize>, n: int, borders: Seq<usize>, t: int, k: int)
    requires
        is_permutation(perm, n),
        keeps_borders(identity(n), perm, borders),
        0 <= t < borders.len(),
        borders[t] < n,
        0 <= k < n,
    ensures
        k <= borders[t] <==> perm[k] <= borders[t],
{
    let b = borders[t] as int;
    let prefix = perm.take(b + 1);
    let ids = identity(n).take(b + 1);
    assert(prefix.to_multiset() == ids.to_multiset());
    if k <= b {
        assert(prefix[k] == perm[k]);
        assert(prefix.contains(perm[k]));
        assert(prefix.to_multiset().count(perm[k]) > 0);
        assert(ids.to_multiset().count(perm[k]) > 0);
        assert(ids.contains(perm[k]));
        let j = choose|j: int| 0 <= j < ids.len() && #[trigger] ids[j] == perm[k];
        assert(ids[j] == j);
    } else if perm[k] <= b {
        assert(ids[perm[k] as int] == perm[k]);
        assert(ids.contains(perm[k]));
        assert(ids.to_multiset().count(perm[k]) > 0);
        assert(prefix.to_multiset().count(perm[k]) > 0);
        assert(prefix.contains(perm[k]));
        let j = choose|j: int| 0 <= j < prefix.len() && #[trigger] prefix[j] == perm[k];
        assert(perm[j] == perm[k] && j < k);
    }
}

spec fn hit_terms(perm: Seq<usize>, i: int) -> spec_fn(int) -> int {
    |k: int| if perm[k] == i { 1int } else { 0 }
}

/// How many positions of `perm` hold `i`.
spec fn hits(perm: Seq<usize>, n: int, i: int) -> int {
    sum(n, hit_terms(perm, i))
}

proof fn lemma_hits_at_most_one(perm: Seq<usize>, n: int, i: int)
    requires
        is_permutation(perm, n),
    ensures
        0 <= hits(perm, n, i) <= 1,
{
    let f = hit_terms(perm, i);
    if exists|k: int| 0 <= k < n && perm[k] == i {
        let k0 = choose|k: int| 0 <= k < n && perm[k] == i;
        assert forall|k: int| 0 <= k < n && k != k0 implies #[trigger] f(k) == 0 by {
            if k < k0 {
                assert(perm[k] != perm[k0]);
            } else {
                assert(perm[k0] != perm[k]);
            }
        }
        lemma_sum_single(n, f, k0);
    } else {
        assert forall|k: int| 0 <= k < n implies #[trigger] f(k) == 0 by {}
        lemma_sum_zero(n, f);
    }
}

proof fn lemma_sum_ones(n: int)
    requires
        0 <= n,
    ensures
        sum(n, |i: int| 1int) == n,
    decreases n,
{
    if n > 0 {
        lemma_sum_ones(n - 1);
    }
}

/// Every value below `n` appears exactly once in a permutation of `0..n`.
proof fn lemma_hits_exactly_one(perm: Seq<usize>, n: int, i: int)
    requires
        is_permutation(perm, n),
        0 <= i < n,
    ensures
        hits(perm, n, i) == 1,
{
    let ind = |k: int, j: int| if perm[k] == j { 1int } else { 0 };
    let h = |j: int| hits(perm, n, j);
    // Counting all hits position by position gives n.
    lemma_sum_swap(n, n, ind);
    let per_k = |k: int| row_sum(ind, k, n);
    assert forall|k: int| 0 <= k < n implies #[trigger] per_k(k) == 1 by {
        let row = |j: int| ind(k, j);
        assert forall|j: int| 0 <= j < n && j != perm[k] implies #[trigger] row(j) == 0 by {}
        lemma_sum_single(n, row, perm[k] as int);
    }
    lemma_sum_ext(n, per_k, |k: int| 1int);
    lemma_sum_ones(n);
    let per_j = |j: int| col_sum(ind, j, n);
    assert forall|j: int| 0 <= j < n implies #[trigger] per_j(j) == h(j) by {
        lemma_sum_ext(n, |k: int| ind(k, j), hit_terms(perm, j));
    }
    lemma_sum_ext(n, per_j, h);
    // Each value is hit at most once, so none can be missed.
    assert forall|j: int| 0 <= j < n implies #[trigger] h(j) <= 1 by {
        lemma_hits_at_most_one(perm, n, j);
    }
    lemma_hits_at_most_one(perm, n, i);
    if h(i) == 0 {
        let ones_but_i = |j: int| if j == i { 0int } else { 1int };
        assert forall|j: int| 0 <= j < n implies #[trigger] h(j) <= ones_but_i(j) by {}
        lemma_sum_le(n, h, ones_but_i);
        lemma_sum_update(n, |j: int| 1int, ones_but_i, i);
    }
}

/// Summing over a permutation of `0..n` gives the plain sum.
pub proof fn lemma_permutation_sum(perm: Seq<usize>, n: int, f: spec_fn(int) -> int)
    requires
        is_permutation(perm, n),
    ensures
        sum(n, |k: int| f(perm[k] as int)) == sum(n, f),
{
    let g = |k: int, j: int| if perm[k] == j { f(j) } else { 0 };
    let per_k = |k: int| row_sum(g, k, n);
    assert forall|k: int| 0 <= k < n implies #[trigger] per_k(k) == f(perm[k] as int) by {
        let row = |j: int| g(k, j);
        assert forall|j: int| 0 <= j < n && j != perm[k] implies #[trigger] row(j) == 0 by {}
        lemma_sum_single(n, row, perm[k] as int);
    }
    lemma_sum_ext(n, per_k, |k: int| f(perm[k] as int));
    lemma_sum_swap(n, n, g);
    let per_j = |j: int| col_sum(g, j, n);
    assert forall|j: int| 0 <= j < n implies #[trigger] per_j(j) == f(j) by {
        let col = |k: int| g(k, j);
        let ind = hit_terms(perm, j);
        assert forall|k: int| 0 <= k < n implies #[trigger] col(k) == f(j) * ind(k) by {}
        lemma_sum_scale(n, f(j), ind, col);
        lemma_hits_exactly_one(perm, n, j);
    }
    lemma_sum_ext(n, per_j, f);
}

/// A permutation of `0..n` holds every value below `n`.
pub proof fn lemma_permutation_onto(perm: Seq<usize>, n: int, u: int)
    requires
        is_permutation(perm, n),
        0 <= u < n,
    ensures
        exists|k: int| 0 <= k < n && #[trigger] perm[k] == u,
{
    lemma_hits_exactly_one(perm, n, u);
    if !(exists|k: int| 0 <= k < n && #[trigger] perm[k] == u) {
        let f = hit_terms(perm, u);
        assert forall|k: int| 0 <= k < n implies #[trigger] f(k) == 0 by {}
        lemma_sum_zero(n, f);
    }
}

} // verus!
