use vstd::prelude::*;

verus! {

/// `f(0) + f(1) + ... + f(n - 1)`.
pub open spec fn sum(n: int, f: spec_fn(int) -> int) -> int
    decreases n,
{
    if n <= 0 {
        0
    } else {
        sum(n - 1, f) + f(n - 1)
    }
}

pub proof fn lemma_sum_ext(n: int, f: spec_fn(int) -> int, g: spec_fn(int) -> int)
    requires
        forall|i: int| 0 <= i < n ==> #[trigger] f(i) == g(i),
    ensures
        sum(n, f) == sum(n, g),
    decreases n,
{
    if n > 0 {
        lemma_sum_ext(n - 1, f, g);
    }
}

pub proof fn lemma_sum_add(n: int, f: spec_fn(int) -> int, g: spec_fn(int) -> int, h: spec_fn(int) -> int)
    requires
        forall|i: int| 0 <= i < n ==> #[trigger] h(i) == f(i) + g(i),
    ensures
        sum(n, h) == sum(n, f) + sum(n, g),
    decreases n,
{
    if n > 0 {
        lemma_sum_add(n - 1, f, g, h);
    }
}

pub proof fn lemma_sum_scale(n: int, c: int, f: spec_fn(int) -> int, g: spec_fn(int) -> int)
    requires
        forall|i: int| 0 <= i < n ==> #[trigger] g(i) == c * f(i),
    ensures
        sum(n, g) == c * sum(n, f),
    decreases n,
{
    if n > 0 {
        lemma_sum_scale(n - 1, c, f, g);
        assert(c * sum(n - 1, f) + c * f(n - 1) == c * (sum(n - 1, f) + f(n - 1))) by (nonlinear_arith);
    }
}

pub proof fn lemma_sum_le(n: int, f: spec_fn(int) -> int, g: spec_fn(int) -> int)
    requires
        forall|i: int| 0 <= i < n ==> #[trigger] f(i) <= g(i),
    ensures
        sum(n, f) <= sum(n, g),
    decreases n,
{
    if n > 0 {
        lemma_sum_le(n - 1, f, g);
    }
}

pub proof fn lemma_sum_nonneg(n: int, f: spec_fn(int) -> int)
    requires
        forall|i: int| 0 <= i < n ==> 0 <= #[trigger] f(i),
    ensures
        0 <= sum(n, f),
    decreases n,
{
    if n > 0 {
        lemma_sum_nonneg(n - 1, f);
    }
}

/// Changing one term changes the sum by the same amount.
pub proof fn lemma_sum_update(n: int, f: spec_fn(int) -> int, g: spec_fn(int) -> int, at: int)
    requires
        0 <= at < n,
        forall|i: int| 0 <= i < n && i != at ==> #[trigger] f(i) == g(i),
    ensures
        sum(n, g) == sum(n, f) + g(at) - f(at),
    decreases n,
{
    if n - 1 == at {
        lemma_sum_ext(n - 1, f, g);
    } else {
        lemma_sum_update(n - 1, f, g, at);
    }
}

/// A sum whose terms vanish everywhere but at `at` is that term.
pub proof fn lemma_sum_single(n: int, f: spec_fn(int) -> int, at: int)
    requires
        0 <= at < n,
        forall|i: int| 0 <= i < n && i != at ==> #[trigger] f(i) == 0,
    ensures
        sum(n, f) == f(at),
{
    let z = |i: int| 0int;
    lemma_sum_zero(n, z);
    lemma_sum_update(n, z, f, at);
}

pub proof fn lemma_sum_zero(n: int, f: spec_fn(int) -> int)
    requires
        forall|i: int| 0 <= i < n ==> #[trigger] f(i) == 0,
    ensures
        sum(n, f) == 0,
    decreases n,
{
    if n > 0 {
        lemma_sum_zero(n - 1, f);
    }
}

/// `f(i, 0) + ... + f(i, m - 1)`.
pub open spec fn row_sum(f: spec_fn(int, int) -> int, i: int, m: int) -> int {
    sum(m, |j: int| f(i, j))
}

/// `f(0, j) + ... + f(n - 1, j)`.
pub open spec fn col_sum(f: spec_fn(int, int) -> int, j: int, n: int) -> int {
    sum(n, |i: int| f(i, j))
}

/// The order of a double sum can be exchanged.
pub proof fn lemma_sum_swap(n: int, m: int, f: spec_fn(int, int) -> int)
    requires
        0 <= m,
    ensures
        sum(n, |i: int| row_sum(f, i, m)) == sum(m, |j: int| col_sum(f, j, n)),
    decreases n,
{
    if n <= 0 {
        lemma_sum_zero(m, |j: int| col_sum(f, j, n));
    } else {
        lemma_sum_swap(n - 1, m, f);
        let prev = |j: int| col_sum(f, j, n - 1);
        let last = |j: int| f(n - 1, j);
        let whole = |j: int| col_sum(f, j, n);
        assert forall|j: int| 0 <= j < m implies #[trigger] whole(j) == prev(j) + last(j) by {
        }
        lemma_sum_add(m, prev, last, whole);
        lemma_sum_ext(m, |j: int| f(n - 1, j), last);
    }
}

} // verus!
