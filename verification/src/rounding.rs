//! Rounded quotients, said by what bounds them.
use crate::arith::{ceil_div, trunc_div};
use vstd::prelude::*;

verus! {

/// `q` is `n / d`, rounded down.
pub open spec fn rounded_down(q: int, n: int, d: int) -> bool {
    0 < d && q * d <= n < q * d + d
}

/// `q` is `n / d`, rounded up.
pub open spec fn rounded_up(q: int, n: int, d: int) -> bool {
    0 < d && q * d - d < n <= q * d
}

/// `q` is `n / d`, rounded toward zero.
pub open spec fn rounded_toward_zero(q: int, n: int, d: int) -> bool {
    if n >= 0 {
        rounded_down(q, n, d)
    } else {
        rounded_up(q, n, d)
    }
}

pub proof fn lemma_rounded_down(q: int, n: int, d: int)
    requires
        0 < d,
    ensures
        rounded_down(q, n, d) <==> q == n / d,
{
    assert(q * d <= n < q * d + d <==> q == n / d) by (nonlinear_arith)
        requires
            0 < d,
    {
        let k = n / d;
        assert(k * d <= n < k * d + d);
        if q < k {
            assert(q * d + d <= k * d);
        } else if q > k {
            assert(k * d + d <= q * d);
        }
    }
}

pub proof fn lemma_rounded_up(q: int, n: int, d: int)
    requires
        0 < d,
    ensures
        rounded_up(q, n, d) <==> q == ceil_div(n, d),
        rounded_up(q, n, d) <==> -q == (-n) / d,
{
    let k = n / d;
    let rest = n % d;
    assert(n == k * d + rest && 0 <= rest < d) by (nonlinear_arith)
        requires
            k == n / d,
            rest == n % d,
            0 < d,
    ;
    let c = ceil_div(n, d);
    assert(c * d == k * d + (if rest == 0 {
        0
    } else {
        d
    })) by (nonlinear_arith)
        requires
            c == k + (if rest == 0 {
                0int
            } else {
                1int
            }),
    ;
    assert(q * d - d < n <= q * d <==> q == c) by (nonlinear_arith)
        requires
            c * d - d < n <= c * d,
            0 < d,
    {
        if q < c {
            assert(q * d + d <= c * d);
        } else if q > c {
            assert(c * d + d <= q * d);
        }
    }
    lemma_rounded_down(-q, -n, d);
    assert((-q) * d == -(q * d)) by (nonlinear_arith);
}

pub proof fn lemma_rounded_toward_zero(q: int, n: int, d: int)
    requires
        0 < d,
    ensures
        rounded_toward_zero(q, n, d) <==> q == trunc_div(n, d),
{
    if n >= 0 {
        lemma_rounded_down(q, n, d);
    } else {
        lemma_rounded_up(q, n, d);
    }
}

} // verus!
