//! The exponential over the reals, by its series.
use super::reals::{
    halves, inverse, lemma_associate, lemma_commute, lemma_distribute, lemma_halves,
    lemma_halves_order, lemma_inverse, lemma_negate, lemma_nonnegative_product, lemma_order,
    lemma_power_sum, lemma_product_within, power, within,
};
use vstd::prelude::*;

verus! {

/// `x^n / n!`.
pub open spec fn exp_term(x: real, n: nat) -> real
    decreases n,
{
    if n == 0 {
        1real
    } else {
        (exp_term(x, (n - 1) as nat) * x) * inverse(n)
    }
}

/// `1 + x + x^2/2! + ... + x^n/n!`.
pub open spec fn exp_series(x: real, n: nat) -> real
    decreases n,
{
    if n == 0 {
        1real
    } else {
        exp_series(x, (n - 1) as nat) + exp_term(x, n)
    }
}

pub proof fn lemma_first_term(x: real)
    ensures
        exp_term(x, 0) == 1real,
        exp_term(x, 1) == x,
{
    reveal_with_fuel(exp_term, 2);
    lemma_inverse(1);
    assert(inverse(1) == 1real);
    assert((1real * x) * 1real == x);
}

/// From `length` on, the series at `x` stays near `y`.
pub open spec fn stays_near(x: real, y: real, tolerance: real, length: nat) -> bool {
    forall|n: nat| n >= length ==> within(#[trigger] exp_series(x, n) - y, tolerance)
}

pub open spec fn reaches(x: real, y: real, tolerance: real) -> bool {
    exists|length: nat| #[trigger] stays_near(x, y, tolerance, length)
}

/// `y` is `e` to the `x`: the limit of the series.
pub open spec fn is_exp(x: real, y: real) -> bool {
    forall|tolerance: real| tolerance > 0real ==> #[trigger] reaches(x, y, tolerance)
}

/// A term is the one before it, times the argument, by its place.
proof fn lemma_term_step(x: real, n: nat)
    requires
        n >= 1,
    ensures
        exp_term(x, n) * (n as real) == exp_term(x, (n - 1) as nat) * x,
{
    let e = exp_term(x, (n - 1) as nat) * x;
    lemma_inverse(n);
    lemma_associate(e, inverse(n), n as real);
    assert(e * (inverse(n) * (n as real)) == e * 1real);
}

/// The first `m + 1` of the products of terms of `x` and `y` whose places add
/// up to `n`.
spec fn diagonal(x: real, y: real, n: nat, m: nat) -> real
    decreases m,
{
    if m == 0 {
        exp_term(x, 0) * exp_term(y, n)
    } else {
        diagonal(x, y, n, (m - 1) as nat) + exp_term(x, m) * exp_term(y, (n - m) as nat)
    }
}

spec fn shorter_diagonal(x: real, y: real, n: nat, m: nat) -> real {
    if m == 0 {
        0real
    } else {
        diagonal(x, y, n, (m - 1) as nat)
    }
}

proof fn lemma_regroup(p: real, x: real, b: real, a: real, q: real, y: real, m: real, k: real)
    requires
        a * m == p * x,
        b * k == q * y,
    ensures
        (m + k) * (a * b) == x * (p * b) + y * (a * q),
{
    let c = a * b;
    lemma_distribute(c, m, k);
    lemma_commute(a, b);
    lemma_associate(b, a, m);
    lemma_associate(a, b, k);
    assert(c * m == b * (p * x));
    assert(c * k == a * (q * y));
    lemma_associate(b, p, x);
    lemma_commute(b, p);
    lemma_commute(p * b, x);
    lemma_associate(a, q, y);
    lemma_commute(a * q, y);
}

proof fn lemma_diagonal_step(x: real, y: real, n: nat, m: nat)
    requires
        m < n,
    ensures
        (n as real) * diagonal(x, y, n, m) == x * shorter_diagonal(x, y, (n - 1) as nat, m) + y
            * diagonal(x, y, (n - 1) as nat, m),
    decreases m,
{
    let nr = n as real;
    let l = (n - 1) as nat;
    if m == 0 {
        let t = exp_term(y, n);
        lemma_term_step(y, n);
        assert(diagonal(x, y, n, 0) == t);
        assert(diagonal(x, y, l, 0) == exp_term(y, l));
        lemma_commute(nr, t);
        lemma_commute(exp_term(y, l), y);
        assert(x * 0real == 0real);
    } else {
        let k = (m - 1) as nat;
        lemma_diagonal_step(x, y, n, k);
        let a = exp_term(x, m);
        let p = exp_term(x, k);
        let b = exp_term(y, (n - m) as nat);
        let q = exp_term(y, (n - m - 1) as nat);
        lemma_term_step(x, m);
        lemma_term_step(y, (n - m) as nat);
        assert(nr == (m as real) + ((n - m) as real));
        lemma_regroup(p, x, b, a, q, y, m as real, (n - m) as real);
        lemma_distribute(nr, diagonal(x, y, n, k), a * b);
        assert((l - k) as nat == (n - m) as nat);
        assert((l - m) as nat == (n - m - 1) as nat);
        assert(diagonal(x, y, l, m) == diagonal(x, y, l, k) + a * q);
        lemma_distribute(y, diagonal(x, y, l, k), a * q);
        let short = shorter_diagonal(x, y, l, k);
        assert(diagonal(x, y, l, k) == short + p * b);
        lemma_distribute(x, short, p * b);
    }
}

/// The binomial theorem: a diagonal is a term of the sum.
proof fn lemma_diagonal(x: real, y: real, n: nat)
    ensures
        diagonal(x, y, n, n) == exp_term(x + y, n),
    decreases n,
{
    if n == 0 {
        assert(1real * 1real == 1real);
    } else {
        let l = (n - 1) as nat;
        let nr = n as real;
        let z = x + y;
        let d = diagonal(x, y, n, n);
        lemma_diagonal(x, y, l);
        lemma_diagonal_step(x, y, n, l);
        lemma_term_step(x, n);
        let a = exp_term(x, n);
        let e = diagonal(x, y, l, l);
        assert(d == diagonal(x, y, n, l) + a * exp_term(y, 0));
        assert(a * exp_term(y, 0) == a);
        lemma_distribute(nr, diagonal(x, y, n, l), a);
        lemma_commute(nr, a);
        let short = shorter_diagonal(x, y, l, l);
        let p = exp_term(x, l);
        assert(p * exp_term(y, 0) == p);
        assert(e == short + p) by {
            if l == 0 {
                assert(1real * 1real == 1real);
            }
        }
        lemma_distribute(x, short, p);
        lemma_commute(x, p);
        lemma_distribute(e, x, y);
        lemma_commute(e, x);
        lemma_commute(e, y);
        assert(nr * d == e * z);
        let i = inverse(n);
        lemma_inverse(n);
        lemma_commute(nr, d);
        lemma_associate(d, nr, i);
        lemma_commute(nr, i);
        assert(d * (nr * i) == d * 1real);
    }
}

/// The products of the first `m + 1` terms of `x` with as much of the series of
/// `y` as keeps the places up to `n`.
spec fn triangle(x: real, y: real, n: nat, m: nat) -> real
    decreases m,
{
    if m == 0 {
        exp_term(x, 0) * exp_series(y, n)
    } else {
        triangle(x, y, n, (m - 1) as nat) + exp_term(x, m) * exp_series(y, (n - m) as nat)
    }
}

proof fn lemma_triangle_step(x: real, y: real, n: nat, m: nat)
    requires
        m < n,
    ensures
        triangle(x, y, n, m) == triangle(x, y, (n - 1) as nat, m) + diagonal(x, y, n, m),
    decreases m,
{
    let l = (n - 1) as nat;
    let a = exp_term(x, m);
    let k = (n - m) as nat;
    assert((l - m) as nat == (k - 1) as nat);
    lemma_distribute(a, exp_series(y, (k - 1) as nat), exp_term(y, k));
    if m > 0 {
        lemma_triangle_step(x, y, n, (m - 1) as nat);
    }
}

/// All the products whose places add up to `n` at most are the series of the
/// sum.
proof fn lemma_triangle(x: real, y: real, n: nat)
    ensures
        triangle(x, y, n, n) == exp_series(x + y, n),
    decreases n,
{
    lemma_diagonal(x, y, n);
    if n == 0 {
        assert(1real * 1real == 1real);
    } else {
        let l = (n - 1) as nat;
        lemma_triangle(x, y, l);
        lemma_triangle_step(x, y, n, l);
        assert(exp_series(y, 0) == exp_term(y, 0));
    }
}

/// Terms are largest where the argument is positive.
proof fn lemma_term_within(x: real, a: real, n: nat)
    requires
        within(x, a),
    ensures
        within(exp_term(x, n), exp_term(a, n)),
        exp_term(a, n) >= 0real,
    decreases n,
{
    if n > 0 {
        let m = (n - 1) as nat;
        lemma_term_within(x, a, m);
        lemma_inverse(n);
        let i = inverse(n);
        lemma_product_within(exp_term(x, m), exp_term(a, m), x, a);
        lemma_product_within(exp_term(x, m) * x, exp_term(a, m) * a, i, i);
    }
}

/// So are the parts of the series.
pub proof fn lemma_series_within(x: real, a: real, m: nat, n: nat)
    requires
        within(x, a),
        m <= n,
    ensures
        within(exp_series(x, n) - exp_series(x, m), exp_series(a, n) - exp_series(a, m)),
        1real <= exp_series(a, m) <= exp_series(a, n),
    decreases n,
{
    if m < n {
        lemma_series_within(x, a, m, (n - 1) as nat);
        lemma_term_within(x, a, n);
    } else if n > 0 {
        lemma_series_within(x, a, (m - 1) as nat, (n - 1) as nat);
        lemma_term_within(x, a, n);
    }
}

/// From twice the argument on, a term is at most half of the one before it.
proof fn lemma_term_halves(a: real, bound: nat, n: nat)
    requires
        0real <= a <= bound as real,
        2 * bound <= n,
    ensures
        0real <= 2real * exp_term(a, n + 1) <= exp_term(a, n),
{
    let t = exp_term(a, n);
    let next = exp_term(a, n + 1);
    lemma_term_within(a, a, n);
    lemma_term_within(a, a, n + 1);
    lemma_term_step(a, n + 1);
    let k = (n + 1) as real;
    lemma_order(a, bound as real, t);
    lemma_order(2real * (bound as real), k, next);
    if 2real * next > t {
        // next * k == t * a <= t * bound < 2 * next * bound <= next * k
        if bound == 0 {
            assert(t * a <= 0real);
            lemma_order(1real, k, next);
        } else {
            let b = bound as real;
            lemma_order(t, 2real * next, b);
            assert((2real * next) * b == next * (2real * b)) by {
                lemma_commute(2real * next, b);
                lemma_distribute(b, next, next);
                lemma_distribute(next, b, b);
                lemma_commute(b, next);
            }
            assert((2real * next - t) * b > 0real) by (nonlinear_arith)
                requires
                    2real * next - t > 0real,
                    b > 0real,
            ;
            lemma_distribute(b, 2real * next, -t);
            lemma_negate(b, t);
            lemma_commute(b, t);
            lemma_commute(b, 2real * next);
            lemma_commute(b, 2real * next - t);
        }
    }
}

/// What the series adds from there on is less than its last term.
pub proof fn lemma_tail(a: real, bound: nat, m: nat, n: nat)
    requires
        0real <= a <= bound as real,
        2 * bound <= m <= n,
    ensures
        0real <= exp_series(a, n) - exp_series(a, m) <= exp_term(a, m) - exp_term(a, n),
        exp_term(a, n) >= 0real,
    decreases n,
{
    lemma_term_within(a, a, n);
    if m < n {
        lemma_tail(a, bound, m, (n - 1) as nat);
        lemma_term_halves(a, bound, (n - 1) as nat);
    }
}

/// Coarse bounds of the first terms and of their sum.
proof fn lemma_coarse(a: real, bound: nat, n: nat)
    requires
        0real <= a <= bound as real,
    ensures
        exp_term(a, n) <= power(2real, bound * n),
        exp_series(a, n) <= power(2real, (bound + 1) * n),
    decreases n,
{
    if n > 0 {
        let m = (n - 1) as nat;
        lemma_coarse(a, bound, m);
        let t = exp_term(a, m);
        lemma_term_within(a, a, m);
        lemma_halves(bound);
        let p = power(2real, bound * m);
        let q = power(2real, bound);
        lemma_halves(bound * m);
        lemma_order(a, q, t);
        lemma_order(t, p, q);
        lemma_power_sum(2real, bound * m, bound);
        assert(bound * m + bound == bound * n) by (nonlinear_arith)
            requires
                m == n - 1,
        ;
        lemma_inverse(n);
        lemma_nonnegative_product(t, a);
        lemma_order(inverse(n), 1real, t * a);
        let e = (bound + 1) * m + bound;
        assert((bound + 1) * n == e + 1 && bound * n <= e && (bound + 1) * m <= e) by (
        nonlinear_arith)
            requires
                e == (bound + 1) * m + bound,
                m == n - 1,
        ;
        lemma_halves_order(bound * n, e as nat);
        lemma_halves_order((bound + 1) * m, e as nat);
        lemma_halves(e as nat);
    } else {
        assert(bound * n == 0 && (bound + 1) * n == 0) by (nonlinear_arith)
            requires
                n == 0,
        ;
    }
}

/// An exponent of two beyond the series of arguments up to `bound`.
spec fn ceiling(bound: nat) -> nat {
    (bound + 1) * (2 * bound) + 1
}

/// Bounds of the whole series, and of its terms from twice the argument on.
proof fn lemma_series_bounds(a: real, bound: nat, n: nat)
    requires
        0real <= a <= bound as real,
    ensures
        1real <= exp_series(a, n) <= power(2real, ceiling(bound)),
        n >= 2 * bound ==> exp_term(a, n) <= power(2real, ceiling(bound)) * halves(
            (n - 2 * bound) as nat,
        ),
    decreases n,
{
    let m = 2 * bound;
    let g = ceiling(bound);
    lemma_series_within(a, a, 0, n);
    lemma_coarse(a, bound, m);
    let e = ((bound + 1) * m) as nat;
    assert(bound * m <= e) by (nonlinear_arith)
        requires
            e == (bound + 1) * m,
            m >= 0,
    ;
    lemma_halves_order((bound * m) as nat, e);
    lemma_halves(e);
    assert(g == e + 1);
    if n <= m {
        lemma_series_within(a, a, n, m);
        if n == m {
            assert(power(2real, g) * halves(0) == power(2real, g));
        }
    } else {
        lemma_tail(a, bound, m, n);
        let l = (n - 1) as nat;
        lemma_series_bounds(a, bound, l);
        lemma_term_halves(a, bound, l);
        lemma_halves((l - m) as nat);
        let p = power(2real, g);
        let q = halves((l - m) as nat);
        assert((n - m) as nat == (l - m) as nat + 1);
        assert(p * (q / 2real) == (p * q) / 2real) by {
            lemma_distribute(p, q / 2real, q / 2real);
        }
    }
}

/// What the product of the series leaves over beyond the series of the sum,
/// where `late` bounds what a series adds after `h` and `most` the whole of it.
proof fn lemma_left_over(
    x: real,
    y: real,
    bound: nat,
    h: nat,
    n: nat,
    m: nat,
    late: real,
    most: real,
)
    requires
        within(x, bound as real),
        within(y, bound as real),
        2 * bound <= h,
        2 * h <= n,
        m <= n,
        exp_term(bound as real, h) <= late,
        exp_series(bound as real, n) <= most,
    ensures
        ({
            let b = bound as real;
            let early = if m <= h {
                m
            } else {
                h
            };
            within(
                exp_series(x, m) * exp_series(y, n) - triangle(x, y, n, m),
                exp_series(b, early) * late + (exp_series(b, m) - exp_series(b, early)) * most,
            )
        }),
    decreases m,
{
    let b = bound as real;
    lemma_tail(b, bound, h, h);
    lemma_series_within(b, b, 0, n);
    let s = exp_series(y, n);
    if m == 0 {
        assert(exp_series(x, 0) * s == s);
        assert(exp_term(x, 0) * s == s);
        assert(0real * most == 0real);
    } else {
        let l = (m - 1) as nat;
        lemma_left_over(x, y, bound, h, n, l, late, most);
        let k = (n - m) as nat;
        let t = exp_term(x, m);
        let tb = exp_term(b, m);
        let rest = s - exp_series(y, k);
        lemma_term_within(x, b, m);
        lemma_series_within(y, b, k, n);
        lemma_series_within(b, b, 0, k);
        lemma_distribute(s, exp_series(x, l), t);
        lemma_commute(s, exp_series(x, l));
        lemma_commute(s, t);
        lemma_distribute(t, s, -exp_series(y, k));
        lemma_negate(t, exp_series(y, k));
        lemma_commute(s, exp_series(x, m));
        assert(exp_series(x, m) * s - triangle(x, y, n, m) == (exp_series(x, l) * s - triangle(
            x,
            y,
            n,
            l,
        )) + t * rest);
        if m <= h {
            assert(within(rest, late)) by {
                lemma_tail(b, bound, k, n);
                lemma_tail(b, bound, h, k);
            }
            lemma_product_within(t, tb, rest, late);
            lemma_distribute(late, exp_series(b, l), tb);
            lemma_commute(late, exp_series(b, l));
            lemma_commute(late, tb);
            lemma_commute(late, exp_series(b, m));
            assert(0real * most == 0real);
        } else {
            lemma_product_within(t, tb, rest, most);
            let part = exp_series(b, l) - exp_series(b, h);
            lemma_distribute(most, part, tb);
            lemma_commute(most, part);
            lemma_commute(most, tb);
            lemma_commute(most, part + tb);
        }
    }
}

/// How far the series must go so that products of arguments up to `bound` are
/// exact to `halves(precision)`.
pub open spec fn long_enough(bound: nat, precision: nat) -> nat {
    2 * (2 * bound + 2 * ((bound + 1) * (2 * bound) + 1) + 1 + precision)
}

/// The exponential of a sum is the product, but for what the series leave out.
pub proof fn lemma_exp_of_sum(x: real, y: real, bound: nat, precision: nat, n: nat)
    requires
        within(x, bound as real),
        within(y, bound as real),
        n >= long_enough(bound, precision),
    ensures
        within(exp_series(x, n) * exp_series(y, n) - exp_series(x + y, n), halves(precision)),
{
    let b = bound as real;
    let g = ceiling(bound);
    let h = (2 * bound + 2 * g + 1 + precision) as nat;
    let most = power(2real, g);
    let late = most * halves((2 * g + 1 + precision) as nat);
    lemma_series_bounds(b, bound, h);
    lemma_series_bounds(b, bound, n);
    assert(h - 2 * bound == 2 * g + 1 + precision);
    lemma_left_over(x, y, bound, h, n, n, late, most);
    lemma_triangle(x, y, n);
    // Both parts are at most `most * late`, and twice that is `halves(precision)`.
    lemma_tail(b, bound, h, n);
    lemma_tail(b, bound, h, h);
    let first = exp_series(b, h);
    let second = exp_series(b, n) - first;
    lemma_order(first, most, late);
    lemma_order(second, late, most);
    lemma_commute(most, late);
    let rest = halves((g + 1 + precision) as nat);
    let end = halves((1 + precision) as nat);
    assert(late == rest) by {
        lemma_power_sum(1real / 2real, g, (g + 1 + precision) as nat);
        assert(g + (g + 1 + precision) == 2 * g + 1 + precision);
        lemma_halves(g);
        lemma_associate(most, halves(g), rest);
        assert(1real * rest == rest);
    }
    assert(most * rest == end) by {
        lemma_power_sum(1real / 2real, g, (1 + precision) as nat);
        assert(g + (1 + precision) == g + 1 + precision);
        lemma_halves(g);
        lemma_associate(most, halves(g), end);
        assert(1real * end == end);
    }
    lemma_halves(precision);
    assert(end == halves(precision + 1));
}

} // verus!
