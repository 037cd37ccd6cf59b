//! Binary floating point as plain integers: what a bit pattern is worth, and
//! which bit pattern is nearest to a given ratio.
//!
//! Patterns here are those of non-negative numbers. Read as an integer, such a
//! pattern counts up through all the numbers of its format in order. The first
//! `2 * f` of them (`f` is one binade's worth of patterns) are one unit apart,
//! and each later binade is spaced twice as wide as the one before it. The unit
//! is the smallest positive number of the format.
use vstd::arithmetic::div_mod::*;
use vstd::arithmetic::power2::*;
use vstd::prelude::*;

verus! {

/// The integer nearest to `n / d`; of two equally near, the even one.
pub open spec fn nearest(n: nat, d: nat) -> nat {
    let q = n / d;
    let r = n % d;
    if 2 * r > d || (2 * r == d && q % 2 == 1) {
        q + 1
    } else {
        q
    }
}

/// What pattern `b` is worth, in units, in a format with `f` patterns a binade.
pub open spec fn units(f: nat, b: nat) -> nat
    decreases b,
{
    if f == 0 || b < 2 * f {
        b
    } else {
        2 * units(f, (b - f) as nat)
    }
}

/// The pattern nearest to `n / d` units, with no upper bound; of two equally
/// near, the even one.
pub open spec fn round(f: nat, n: nat, d: nat) -> nat
    decreases n - d,
{
    if f == 0 || d == 0 || n < 2 * f * d {
        nearest(n, d)
    } else {
        proof {
            assert(2 * f * d >= 2 * d) by (nonlinear_arith)
                requires
                    f >= 1,
                    d >= 1,
            ;
        }
        f + round(f, n, 2 * d)
    }
}

/// A number of `bits` binary digits: `2^(bits-1) <= m < 2^bits`.
pub open spec fn has_bits(m: nat, bits: nat) -> bool {
    bits >= 1 && pow2((bits - 1) as nat) <= m < pow2(bits)
}

pub proof fn lemma_double(e: nat)
    ensures
        pow2(e + 1) == 2 * pow2(e),
        pow2(e) >= 1,
{
    lemma_pow2_unfold(e + 1);
    lemma_pow2_pos(e);
}

pub proof fn lemma_nearest_scale(n: nat, d: nat, c: nat)
    requires
        d >= 1,
        c >= 1,
    ensures
        nearest(n * c, d * c) == nearest(n, d),
{
    let q = n / d;
    let r = n % d;
    lemma_fundamental_div_mod(n as int, d as int);
    assert(n * c == q * (d * c) + r * c) by (nonlinear_arith)
        requires
            n == d * q + r,
    ;
    assert(0 <= r * c < d * c) by (nonlinear_arith)
        requires
            0 <= r < d,
            c >= 1,
    ;
    lemma_fundamental_div_mod_converse((n * c) as int, (d * c) as int, q as int, (r * c) as int);
    assert(2 * r > d <==> 2 * (r * c) > d * c) by (nonlinear_arith)
        requires
            c >= 1,
    ;
    assert(2 * r == d <==> 2 * (r * c) == d * c) by (nonlinear_arith)
        requires
            c >= 1,
    ;
}

pub proof fn lemma_nearest_exact(q: nat, d: nat)
    requires
        d >= 1,
    ensures
        nearest(q * d, d) == q,
{
    lemma_fundamental_div_mod_converse((q * d) as int, d as int, q as int, 0);
}

/// `nearest` on a value a little above `q`.
pub proof fn lemma_nearest_just_above(n: nat, q: nat, r: nat, d: nat)
    requires
        n == q * d + r,
        2 * r < d,
    ensures
        nearest(n, d) == q,
{
    assert(q * d == d * q) by (nonlinear_arith);
    lemma_fundamental_div_mod_converse(n as int, d as int, q as int, r as int);
}

/// Rounding to a multiple of an even number of steps needs only the number of
/// whole steps and whether something is left over.
pub proof fn lemma_nearest_sticky(n: nat, q: nat, r: nat, e: nat, h: nat)
    requires
        n == q * e + r,
        r < e,
        h >= 1,
    ensures
        nearest(n, e * (2 * h)) == nearest(
            2 * q + if r == 0 {
                0nat
            } else {
                1nat
            },
            4 * h,
        ),
{
    let s: nat = if r == 0 {
        0
    } else {
        1
    };
    let g = 2 * h;
    let a = q / g;
    let b = q % g;
    lemma_fundamental_div_mod(q as int, g as int);
    // n == a * (e * g) + (b * e + r)
    assert(n == a * (e * g) + (b * e + r)) by (nonlinear_arith)
        requires
            n == q * e + r,
            q == g * a + b,
    ;
    assert(b * e + r < e * g) by (nonlinear_arith)
        requires
            b + 1 <= g,
            r < e,
    ;
    assert(e * g >= 1) by (nonlinear_arith)
        requires
            e >= 1,
            g >= 1,
    ;
    lemma_fundamental_div_mod_converse(n as int, (e * g) as int, a as int, (b * e + r) as int);
    assert(2 * q + s == a * (4 * h) + (2 * b + s)) by (nonlinear_arith)
        requires
            q == g * a + b,
            g == 2 * h,
    ;
    lemma_fundamental_div_mod_converse((2 * q + s) as int, (4 * h) as int, a as int, (2 * b + s) as int);
    // compare b * e + r with h * e
    assert(e * g == 2 * (h * e)) by (nonlinear_arith)
        requires
            g == 2 * h,
    ;
    if b < h {
        assert(b * e + r < h * e) by (nonlinear_arith)
            requires
                b + 1 <= h,
                r < e,
        ;
    } else if b > h {
        assert(b * e + r > h * e) by (nonlinear_arith)
            requires
                b >= h + 1,
                r < e,
                e >= 1,
        ;
    } else {
        assert(b * e == h * e);
    }
}

/// The value of the pattern that stands `k` binades up and has significand `m`.
pub proof fn lemma_units_at(f: nat, k: nat, m: nat)
    requires
        f >= 1,
        m < 2 * f,
        k == 0 || f <= m,
    ensures
        units(f, k * f + m) == m * pow2(k),
    decreases k,
{
    if k == 0 {
        lemma2_to64();
        assert(0 * f == 0) by (nonlinear_arith);
    } else {
        let j = (k - 1) as nat;
        assert(k * f + m == (j * f + m) + f) by (nonlinear_arith)
            requires
                k == j + 1,
        ;
        assert(k * f >= f) by (nonlinear_arith)
            requires
                k >= 1,
        ;
        if j == 0 || f <= m {
            lemma_units_at(f, j, m);
        }
        lemma_double(j);
        assert(m * pow2(k) == 2 * (m * pow2(j))) by (nonlinear_arith)
            requires
                pow2(k) == 2 * pow2(j),
        ;
    }
}

/// Rounding skips whole binades at once.
pub proof fn lemma_round_skip(f: nat, n: nat, d: nat, j: nat)
    requires
        f >= 1,
        d >= 1,
        j == 0 || f * (d * pow2(j)) <= n,
    ensures
        round(f, n, d) == j * f + round(f, n, d * pow2(j)),
    decreases j,
{
    if j == 0 {
        lemma2_to64();
        assert(d * 1 == d);
        assert(0 * f == 0) by (nonlinear_arith);
    } else {
        let i = (j - 1) as nat;
        lemma_double(i);
        assert(d * pow2(j) == (2 * d) * pow2(i)) by (nonlinear_arith)
            requires
                pow2(j) == 2 * pow2(i),
        ;
        assert(2 * f * d <= f * (d * pow2(j))) by (nonlinear_arith)
            requires
                pow2(j) == 2 * pow2(i),
                pow2(i) >= 1,
                f >= 1,
                d >= 1,
        ;
        lemma_round_skip(f, n, 2 * d, i);
        assert(j * f == i * f + f) by (nonlinear_arith)
            requires
                j == i + 1,
        ;
    }
}

/// The whole of rounding, once the binade is known.
pub proof fn lemma_round_at(f: nat, n: nat, d: nat, j: nat)
    requires
        f >= 1,
        d >= 1,
        j == 0 || f * (d * pow2(j)) <= n,
        n < 2 * f * (d * pow2(j)),
    ensures
        round(f, n, d) == j * f + nearest(n, d * pow2(j)),
{
    lemma_round_skip(f, n, d, j);
}

/// Rounding depends on the ratio alone.
pub proof fn lemma_round_scale(f: nat, n: nat, d: nat, c: nat)
    requires
        f >= 1,
        d >= 1,
        c >= 1,
    ensures
        round(f, n * c, d * c) == round(f, n, d),
    decreases n - d,
{
    assert(d * c >= 1) by (nonlinear_arith)
        requires
            d >= 1,
            c >= 1,
    ;
    assert(n * c < 2 * f * (d * c) <==> n < 2 * f * d) by (nonlinear_arith)
        requires
            c >= 1,
    ;
    if n < 2 * f * d {
        lemma_nearest_scale(n, d, c);
    } else {
        assert(2 * f * d >= 2 * d) by (nonlinear_arith)
            requires
                f >= 1,
                d >= 1,
        ;
        lemma_round_scale(f, n, 2 * d, c);
        assert((2 * d) * c == 2 * (d * c)) by (nonlinear_arith);
    }
}

/// Patterns are in the order of the numbers they stand for.
pub proof fn lemma_units_order(f: nat, a: nat, b: nat)
    requires
        f >= 1,
    ensures
        a < b ==> units(f, a) < units(f, b),
        a == b ==> units(f, a) == units(f, b),
    decreases b,
{
    if a < b && b >= 2 * f {
        let c = (b - f) as nat;
        if a >= 2 * f {
            lemma_units_order(f, (a - f) as nat, c);
        } else {
            lemma_units_grow(f, c);
        }
    }
}

/// A pattern is worth at least as many units as it counts.
pub proof fn lemma_units_grow(f: nat, b: nat)
    requires
        f >= 1,
    ensures
        units(f, b) >= b,
        b >= f ==> 2 * units(f, b) >= b + f,
    decreases b,
{
    if b >= 2 * f {
        lemma_units_grow(f, (b - f) as nat);
    }
}

/// How far `n` is from `m` steps of `d`.
pub open spec fn off(n: nat, m: nat, d: nat) -> nat {
    if m * d >= n {
        (m * d - n) as nat
    } else {
        (n - m * d) as nat
    }
}

/// No integer is nearer to `n / d` than `nearest(n, d)`, and where another one is
/// as near, `nearest(n, d)` is even.
pub proof fn nearest_is_nearest(n: nat, d: nat, k: nat)
    requires
        d >= 1,
    ensures
        off(n, nearest(n, d), d) <= off(n, k, d),
        off(n, nearest(n, d), d) == off(n, k, d) && k != nearest(n, d) ==> nearest(n, d) % 2 == 0,
{
    let q = n / d;
    let r = n % d;
    let m = nearest(n, d);
    lemma_fundamental_div_mod(n as int, d as int);
    assert(n == q * d + r) by (nonlinear_arith)
        requires
            n == d * q + r,
    ;
    assert((q + 1) * d == q * d + d) by (nonlinear_arith);
    if k <= q {
        assert(k * d <= q * d) by (nonlinear_arith)
            requires
                k <= q,
        ;
        if k < q {
            assert(k * d + d <= q * d) by (nonlinear_arith)
                requires
                    k + 1 <= q,
            ;
        }
    } else {
        assert(k * d >= q * d + d) by (nonlinear_arith)
            requires
                k >= q + 1,
        ;
        if k > q + 1 {
            assert(k * d >= q * d + 2 * d) by (nonlinear_arith)
                requires
                    k >= q + 2,
            ;
        }
    }
}

proof fn lemma_round_from(f: nat, n: nat, d: nat)
    requires
        f >= 1,
        d >= 1,
        n >= f * d,
    ensures
        round(f, n, d) >= f,
{
    if n < 2 * f * d {
        lemma_fundamental_div_mod(n as int, d as int);
        lemma_div_is_ordered((f * d) as int, n as int, d as int);
        lemma_div_multiples_vanish(f as int, d as int);
        assert(f * d == d * f) by (nonlinear_arith);
    }
}

/// No number of the format is nearer to `n / d` units than the one that `round`
/// gives, and where another one is as near, `round` gives an even pattern.
pub proof fn round_is_nearest(f: nat, n: nat, d: nat, c: nat)
    requires
        f >= 1,
        d >= 1,
    ensures
        off(n, units(f, round(f, n, d)), d) <= off(n, units(f, c), d),
        off(n, units(f, round(f, n, d)), d) == off(n, units(f, c), d) && c != round(f, n, d) && f
            % 2 == 0 ==> round(f, n, d) % 2 == 0,
    decreases n - d,
{
    let b = round(f, n, d);
    assert(units(f, 2 * f) == 2 * f) by {
        assert(units(f, f) == f);
    }
    if n < 2 * f * d {
        nearest_is_nearest(n, d, 2 * f);
        assert(b <= 2 * f) by {
            if b > 2 * f {
                assert(b * d >= 2 * f * d + d) by (nonlinear_arith)
                    requires
                        b >= 2 * f + 1,
                ;
            }
        }
        assert(units(f, b) == b);
        if c <= 2 * f {
            assert(units(f, c) == c);
            nearest_is_nearest(n, d, c);
        } else {
            lemma_units_order(f, 2 * f, c);
            assert(units(f, c) * d >= 2 * f * d + d) by (nonlinear_arith)
                requires
                    units(f, c) >= 2 * f + 1,
            ;
        }
    } else {
        assert(2 * f * d >= 2 * d) by (nonlinear_arith)
            requires
                f >= 1,
                d >= 1,
        ;
        assert(f * (2 * d) == 2 * f * d) by (nonlinear_arith);
        lemma_round_from(f, n, 2 * d);
        let b1 = round(f, n, 2 * d);
        assert(units(f, b) == 2 * units(f, b1));
        assert(units(f, b) * d == units(f, b1) * (2 * d)) by (nonlinear_arith)
            requires
                units(f, b) == 2 * units(f, b1),
        ;
        if c >= 2 * f {
            let c1 = (c - f) as nat;
            round_is_nearest(f, n, 2 * d, c1);
            assert(units(f, c) * d == units(f, c1) * (2 * d)) by (nonlinear_arith)
                requires
                    units(f, c) == 2 * units(f, c1),
            ;
        } else {
            round_is_nearest(f, n, 2 * d, f);
            assert(units(f, f) == f);
            assert(c * d + d <= 2 * f * d) by (nonlinear_arith)
                requires
                    c + 1 <= 2 * f,
            ;
        }
    }
}

/// A number of the format is rounded to itself.
pub proof fn round_keeps(f: nat, b: nat, d: nat)
    requires
        f >= 1,
        d >= 1,
    ensures
        round(f, units(f, b) * d, d) == b,
{
    let r = round(f, units(f, b) * d, d);
    round_is_nearest(f, units(f, b) * d, d, b);
    assert(units(f, r) == units(f, b)) by (nonlinear_arith)
        requires
            units(f, r) * d == units(f, b) * d,
            d >= 1,
    ;
    lemma_units_order(f, r, b);
    lemma_units_order(f, b, r);
}

proof fn lemma_round_grows(f: nat, n: nat, n2: nat, d: nat)
    requires
        f >= 1,
        d >= 1,
        n <= n2,
    ensures
        round(f, n, d) <= round(f, n2, d),
{
    let b = round(f, n, d);
    let b2 = round(f, n2, d);
    if b > b2 {
        let u = units(f, b);
        let u2 = units(f, b2);
        lemma_units_order(f, b2, b);
        round_is_nearest(f, n, d, b2);
        round_is_nearest(f, n2, d, b);
        assert(u * d >= u2 * d + d) by (nonlinear_arith)
            requires
                u >= u2 + 1,
        ;
        assert(n == n2);
    }
}

/// A larger ratio is not rounded to a smaller number.
pub proof fn round_is_monotone(f: nat, n: nat, d: nat, n2: nat, d2: nat)
    requires
        f >= 1,
        d >= 1,
        d2 >= 1,
        n * d2 <= n2 * d,
    ensures
        round(f, n, d) <= round(f, n2, d2),
{
    lemma_round_scale(f, n, d, d2);
    lemma_round_scale(f, n2, d2, d);
    assert(d2 * d == d * d2) by (nonlinear_arith);
    assert(d * d2 >= 1) by (nonlinear_arith)
        requires
            d >= 1,
            d2 >= 1,
    ;
    lemma_round_grows(f, n * d2, n2 * d, d * d2);
}

} // verus!
