//! Finite sums over integer ranges, used to state flow conservation and the
//! totals of an assignment.

use vstd::prelude::*;

verus! {

/// `f(0) + f(1) + ... + f(n - 1)`.
pub open spec fn sum_up(n: int, f: spec_fn(int) -> int) -> int
    decreases n,
{
    if n <= 0 {
        0
    } else {
        sum_up(n - 1, f) + f(n - 1)
    }
}

pub(crate) proof fn lemma_sum_ext(n: int, f: spec_fn(int) -> int, g: spec_fn(int) -> int)
    requires
        forall|i: int| 0 <= i < n ==> #[trigger] f(i) == g(i),
    ensures
        sum_up(n, f) == sum_up(n, g),
    decreases n,
{
    if n > 0 {
        lemma_sum_ext(n - 1, f, g);
    }
}

pub(crate) proof fn lemma_sum_add(n: int, f: spec_fn(int) -> int, g: spec_fn(int) -> int, h: spec_fn(int) -> int)
    requires
        forall|i: int| 0 <= i < n ==> #[trigger] h(i) == f(i) + g(i),
    ensures
        sum_up(n, h) == sum_up(n, f) + sum_up(n, g),
    decreases n,
{
    if n > 0 {
        lemma_sum_add(n - 1, f, g, h);
    }
}

pub(crate) proof fn lemma_sum_le(n: int, f: spec_fn(int) -> int, g: spec_fn(int) -> int)
    requires
        forall|i: int| 0 <= i < n ==> #[trigger] f(i) <= g(i),
    ensures
        sum_up(n, f) <= sum_up(n, g),
    decreases n,
{
    if n > 0 {
        lemma_sum_le(n - 1, f, g);
    }
}

pub(crate) proof fn lemma_sum_nonneg(n: int, f: spec_fn(int) -> int)
    requires
        forall|i: int| 0 <= i < n ==> #[trigger] f(i) >= 0,
    ensures
        sum_up(n, f) >= 0,
    decreases n,
{
    if n > 0 {
        lemma_sum_nonneg(n - 1, f);
    }
}

/// A sum of non-negative terms is at least each of its terms.
pub(crate) proof fn lemma_sum_ge_term(n: int, f: spec_fn(int) -> int, k: int)
    requires
        0 <= k < n,
        forall|i: int| 0 <= i < n ==> #[trigger] f(i) >= 0,
    ensures
        sum_up(n, f) >= f(k),
    decreases n,
{
    lemma_sum_nonneg(n - 1, f);
    if k < n - 1 {
        lemma_sum_ge_term(n - 1, f, k);
    }
}

/// A prefix of a sum of non-negative terms is at most the whole sum.
pub(crate) proof fn lemma_sum_nonneg_tail(n: int, j: int, f: spec_fn(int) -> int)
    requires
        0 <= j <= n,
        forall|i: int| j <= i < n ==> #[trigger] f(i) >= 0,
    ensures
        sum_up(j, f) <= sum_up(n, f),
    decreases n - j,
{
    if j < n {
        lemma_sum_nonneg_tail(n - 1, j, f);
    }
}

/// A sum whose terms vanish outside `k` is its `k`-th term.
pub(crate) proof fn lemma_sum_point(n: int, f: spec_fn(int) -> int, k: int)
    requires
        forall|i: int| 0 <= i < n && i != k ==> #[trigger] f(i) == 0,
    ensures
        sum_up(n, f) == if 0 <= k < n {
            f(k)
        } else {
            0
        },
    decreases n,
{
    if n > 0 {
        lemma_sum_point(n - 1, f, k);
    }
}

/// Term-wise `f <= g` with equal sums forces `f == g`.
pub(crate) proof fn lemma_sum_le_eq(n: int, f: spec_fn(int) -> int, g: spec_fn(int) -> int)
    requires
        forall|i: int| 0 <= i < n ==> #[trigger] f(i) <= g(i),
        sum_up(n, f) == sum_up(n, g),
    ensures
        forall|i: int| 0 <= i < n ==> #[trigger] f(i) == g(i),
    decreases n,
{
    if n > 0 {
        lemma_sum_le(n - 1, f, g);
        lemma_sum_le_eq(n - 1, f, g);
    }
}

/// The `a`-th row of a two-argument function.
pub open spec fn row_of(f: spec_fn(int, int) -> int, a: int) -> spec_fn(int) -> int {
    |b: int| f(a, b)
}

/// The `b`-th column of a two-argument function.
pub open spec fn col_of(f: spec_fn(int, int) -> int, b: int) -> spec_fn(int) -> int {
    |a: int| f(a, b)
}

/// Row sums over the first `m` columns.
pub open spec fn row_sums(f: spec_fn(int, int) -> int, m: int) -> spec_fn(int) -> int {
    |a: int| sum_up(m, row_of(f, a))
}

/// Column sums over the first `n` rows.
pub open spec fn col_sums(f: spec_fn(int, int) -> int, n: int) -> spec_fn(int) -> int {
    |b: int| sum_up(n, col_of(f, b))
}

/// Exchanging the order of a double sum.
pub(crate) proof fn lemma_sum_swap(n: int, m: int, f: spec_fn(int, int) -> int)
    requires
        n >= 0,
        m >= 0,
    ensures
        sum_up(n, row_sums(f, m)) == sum_up(m, col_sums(f, n)),
    decreases n,
{
    if n > 0 {
        lemma_sum_swap(n - 1, m, f);
        let col = col_sums(f, n);
        let col1 = col_sums(f, n - 1);
        let last = row_of(f, n - 1);
        assert forall|b: int| 0 <= b < m implies #[trigger] col(b) == col1(b) + last(b) by {
            assert(sum_up(n, col_of(f, b)) == sum_up(n - 1, col_of(f, b)) + col_of(f, b)(n - 1));
        }
        lemma_sum_add(m, col1, last, col);
    } else {
        lemma_sum_point(m, col_sums(f, n), -1);
    }
}

} // verus!
