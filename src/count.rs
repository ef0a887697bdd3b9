//! Counting the `true` entries of sequences and grids.
use vstd::prelude::*;

verus! {

/// Number of `true` entries in `s`.
pub open spec fn count_true(s: Seq<bool>) -> nat
    decreases s.len(),
{
    if s.len() == 0 {
        0
    } else {
        count_true(s.drop_last()) + if s.last() {
            1nat
        } else {
            0nat
        }
    }
}

/// Number of `true` entries in the first `n` rows of `g`.
pub open spec fn count_rows(g: Seq<Seq<bool>>, n: int) -> nat
    decreases n,
{
    if n <= 0 {
        0
    } else {
        count_rows(g, n - 1) + count_true(g[n - 1])
    }
}

/// Number of `true` entries in the whole grid `g`.
pub open spec fn grid_count(g: Seq<Seq<bool>>) -> nat {
    count_rows(g, g.len() as int)
}

pub proof fn lemma_count_true_le(s: Seq<bool>)
    ensures
        count_true(s) <= s.len(),
    decreases s.len(),
{
    if s.len() > 0 {
        lemma_count_true_le(s.drop_last());
    }
}

pub proof fn lemma_count_true_concat(a: Seq<bool>, b: Seq<bool>)
    ensures
        count_true(a + b) == count_true(a) + count_true(b),
    decreases b.len(),
{
    if b.len() == 0 {
        assert(a + b =~= a);
    } else {
        assert((a + b).drop_last() =~= a + b.drop_last());
        lemma_count_true_concat(a, b.drop_last());
    }
}

/// Turning one `false` entry into `true` adds one to the count.
pub proof fn lemma_count_true_set(s: Seq<bool>, i: int)
    requires
        0 <= i < s.len(),
        !s[i],
    ensures
        count_true(s.update(i, true)) == count_true(s) + 1,
    decreases s.len(),
{
    if i == s.len() - 1 {
        assert(s.update(i, true).drop_last() =~= s.drop_last());
    } else {
        assert(s.update(i, true).drop_last() =~= s.drop_last().update(i, true));
        lemma_count_true_set(s.drop_last(), i);
    }
}

/// Turning one `false` cell of a grid into `true` adds one to the count of
/// every prefix of rows that holds it.
pub proof fn lemma_count_rows_set(g: Seq<Seq<bool>>, r: int, c: int, n: int)
    requires
        0 <= r < g.len(),
        0 <= c < g[r].len(),
        !g[r][c],
        n <= g.len(),
    ensures
        count_rows(g.update(r, g[r].update(c, true)), n) == count_rows(g, n) + if r < n {
            1nat
        } else {
            0nat
        },
    decreases n,
{
    if n > 0 {
        lemma_count_rows_set(g, r, c, n - 1);
        if r == n - 1 {
            lemma_count_true_set(g[r], c);
        }
    }
}

/// A grid whose rows all have `cols` entries holds at most `n * cols` of
/// them in its first `n` rows.
pub proof fn lemma_count_rows_le(g: Seq<Seq<bool>>, n: int, cols: int)
    requires
        0 <= n <= g.len(),
        forall|i: int| 0 <= i < g.len() ==> #[trigger] g[i].len() == cols,
    ensures
        count_rows(g, n) <= n * cols,
    decreases n,
{
    if n > 0 {
        lemma_count_rows_le(g, n - 1, cols);
        lemma_count_true_le(g[n - 1]);
        assert((n - 1) * cols + cols == n * cols) by (nonlinear_arith);
    } else {
        assert(n * cols == 0) by (nonlinear_arith)
            requires
                n == 0,
        ;
    }
}

} // verus!
