//! Integer square root.
use super::types::Error;
use vstd::prelude::*;

verus! {

/// `s` is the square root of `v`, rounded down.
pub open spec fn is_floor_sqrt(s: int, v: int) -> bool {
    &&& s >= 0
    &&& s * s <= v
    &&& v < (s + 1) * (s + 1)
}

/// The square root of `v`, rounded down.
pub open spec fn floor_sqrt(v: int) -> int {
    choose|s: int| is_floor_sqrt(s, v)
}

/// A number has one rounded square root.
pub proof fn lemma_floor_sqrt(s: int, v: int)
    requires
        is_floor_sqrt(s, v),
    ensures
        floor_sqrt(v) == s,
{
    let t = floor_sqrt(v);
    assert(is_floor_sqrt(t, v));
    assert(s == t) by (nonlinear_arith)
        requires
            s >= 0,
            t >= 0,
            s * s <= v,
            t * t <= v,
            v < (s + 1) * (s + 1),
            v < (t + 1) * (t + 1),
    ;
}

/// One Newton step from any positive `x` does not fall below the root.
proof fn lemma_newton_step(v: int, x: int)
    requires
        v > 0,
        x > 0,
    ensures
        ({
            let y = (x + v / x) / 2;
            &&& y >= 0
            &&& v < (y + 1) * (y + 1)
            &&& y >= x ==> x * x <= v
        }),
{
    let q = v / x;
    let r = v % x;
    assert(v == x * q + r && 0 <= r < x && q >= 0) by (nonlinear_arith)
        requires
            v > 0,
            x > 0,
            q == v / x,
            r == v % x,
    ;
    let y = (x + q) / 2;
    // 2y + 1 >= x + q, so 4(y+1)^2 >= (x + q + 1)^2 >= 4x(q + 1) > 4v.
    assert(2 * y + 1 >= x + q && 2 * y <= x + q);
    let s = x + q + 1;
    assert(4 * ((y + 1) * (y + 1)) >= s * s) by (nonlinear_arith)
        requires
            2 * (y + 1) >= s,
            s >= 0,
    ;
    assert(s * s >= 4 * (x * (q + 1))) by (nonlinear_arith)
        requires
            s == x + q + 1,
    ;
    assert(x * (q + 1) > v) by (nonlinear_arith)
        requires
            v == x * q + r,
            r < x,
    ;
    if y >= x {
        assert(q >= x);
        assert(x * x <= v) by (nonlinear_arith)
            requires
                q >= x,
                x > 0,
                v == x * q + r,
                r >= 0,
        ;
    }
}

/// The square root of `value`, rounded down, by Newton's method.
pub fn integer_sqrt(value: i128) -> (r: Result<i128, Error>)
    ensures
        value <= 0 ==> r == Err::<i128, Error>(Error::InvalidAmount),
        value > 0 ==> r == Ok::<i128, Error>(floor_sqrt(value as int) as i128),
        value > 0 ==> is_floor_sqrt(floor_sqrt(value as int), value as int) && floor_sqrt(
            value as int,
        ) <= value,
{
    if value <= 0 {
        return Err(Error::InvalidAmount);
    }
    let mut x: i128 = value;
    let mut y: i128 = x / 2 + x % 2;
    proof {
        let v = value as int;
        assert(v / v == 1) by (nonlinear_arith)
            requires
                v > 0,
        ;
        lemma_newton_step(v, v);
        assert(v < (v + 1) * (v + 1)) by (nonlinear_arith)
            requires
                v > 0,
        ;
    }
    while y < x
        invariant
            0 < value,
            0 < x <= value,
            0 <= y,
            y == (x + value as int / x as int) / 2,
            value < (y + 1) * (y + 1),
            value < (x + 1) * (x + 1),
        decreases x,
    {
        proof {
            assert(y > 0) by (nonlinear_arith)
                requires
                    value < (y + 1) * (y + 1),
                    value > 0,
                    y >= 0,
            ;
        }
        x = y;
        proof {
            lemma_newton_step(value as int, x as int);
            assert(0 <= value as int / x as int <= value as int) by (nonlinear_arith)
                requires
                    value > 0,
                    x > 0,
            ;
            if x >= 2 {
                assert(x + value as int / x as int <= value) by (nonlinear_arith)
                    requires
                        2 <= x < value,
                ;
            } else {
                assert(value < 4) by (nonlinear_arith)
                    requires
                        0 < x < 2,
                        value < (x + 1) * (x + 1),
                ;
            }
        }
        y = (x + value / x) / 2;
    }
    proof {
        lemma_newton_step(value as int, x as int);
        lemma_floor_sqrt(x as int, value as int);
    }
    Ok(x)
}

} // verus!
