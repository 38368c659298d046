//! Exact integer helpers: floor division facts.

use vstd::prelude::*;
use vstd::arithmetic::div_mod::{lemma_fundamental_div_mod, lemma_mod_pos_bound};

verus! {

/// `q` is the floor of `n / m` exactly when `q * m <= n < (q + 1) * m`.
pub proof fn lemma_floor_div(n: int, m: int, q: int)
    requires
        0 <= n,
        0 < m,
        q * m <= n,
        n < (q + 1) * m,
    ensures
        n / m == q,
{
    lemma_fundamental_div_mod(n, m);
    lemma_mod_pos_bound(n, m);
    let r = n / m;
    assert(r == q) by (nonlinear_arith)
        requires
            n == m * r + (n % m),
            0 <= n % m < m,
            q * m <= n,
            n < (q + 1) * m,
            0 < m,
    {
        if r < q {
            assert(r + 1 <= q);
            assert((r + 1) * m <= q * m);
        } else if r > q {
            assert(q + 1 <= r);
            assert((q + 1) * m <= r * m);
        }
    }
}

/// For a positive divisor, `c * m <= n` holds exactly for `c <= n / m`.
pub proof fn lemma_le_floor_div(n: int, m: int, c: int)
    requires
        0 <= n,
        0 < m,
        0 <= c,
    ensures
        (c * m <= n) <==> (c <= n / m),
{
    lemma_fundamental_div_mod(n, m);
    lemma_mod_pos_bound(n, m);
    let r = n / m;
    assert((c * m <= n) <==> (c <= r)) by (nonlinear_arith)
        requires
            n == m * r + (n % m),
            0 <= n % m < m,
            0 < m,
            0 <= c,
    {
        if c <= r {
            assert(c * m <= r * m);
        } else {
            assert(r + 1 <= c);
            assert((r + 1) * m <= c * m);
        }
    }
}

} // verus!
