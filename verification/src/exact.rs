//! Which numbers are exact, and what follows for sizes and scores.
use crate::blameboard::{EntryView, Weights};
use crate::collect::MetricsView;
use crate::decimal;
use crate::diagnose;
use crate::float::{
    Double, Single, DOUBLE_BINADE, DOUBLE_INFINITY, SINGLE_BINADE, SINGLE_INFINITY,
};
use crate::rounding;
use vstd::arithmetic::div_mod::*;
use vstd::arithmetic::power2::*;
use vstd::prelude::*;

verus! {

proof fn lemma_bits(q: nat, p: nat) -> (l: nat)
    requires
        1 <= q < pow2(p),
    ensures
        rounding::has_bits(q, l),
        l <= p,
    decreases p,
{
    lemma2_to64();
    if q == 1 {
        assert(p >= 1);
        1
    } else {
        assert(p >= 2) by {
            if p == 1 {
                assert(pow2(1) == 2);
            }
        }
        rounding::lemma_double((p - 1) as nat);
        let i = lemma_bits(q / 2, (p - 1) as nat);
        rounding::lemma_double(i);
        rounding::lemma_double((i - 1) as nat);
        i + 1
    }
}

/// The pattern worth `n * 2^u` units, where `n` has at most `p` binary digits; its
/// binade and its significand.
proof fn lemma_pattern(f: nat, p: nat, n: nat, u: nat) -> (r: (nat, nat, nat))
    requires
        p >= 1,
        f == pow2((p - 1) as nat),
        n < pow2(p),
        u >= p,
    ensures
        rounding::units(f, r.0) == n * pow2(u),
        r.0 < (u + 2) * f,
        n > 0 ==> f <= r.2 < 2 * f && u - p <= r.1 <= u && r.0 == r.1 * f + r.2 && n * pow2(u)
            == r.2 * pow2(r.1),
{
    lemma_pow2_pos((p - 1) as nat);
    rounding::lemma_double((p - 1) as nat);
    if n == 0 {
        assert((u + 2) * f >= 1) by (nonlinear_arith)
            requires
                f >= 1,
        ;
        assert(0 * pow2(u) == 0);
        (0, 0, 0)
    } else {
        let l = lemma_bits(n, p);
        let s = (p - l) as nat;
        let m = n * pow2(s);
        let k = (u - s) as nat;
        lemma_pow2_adds(s, (l - 1) as nat);
        lemma_pow2_adds(s, l);
        lemma_pow2_pos(s);
        assert(f <= m < 2 * f) by (nonlinear_arith)
            requires
                m == n * pow2(s),
                pow2((l - 1) as nat) <= n < pow2(l),
                pow2(s) * pow2((l - 1) as nat) == f,
                pow2(s) * pow2(l) == 2 * f,
                pow2(s) >= 1,
        ;
        lemma_pow2_adds(s, k);
        assert(m * pow2(k) == n * pow2(u)) by (nonlinear_arith)
            requires
                m == n * pow2(s),
                pow2(s) * pow2(k) == pow2(u),
        ;
        rounding::lemma_units_at(f, k, m);
        let b = k * f + m;
        assert(b < (u + 2) * f) by (nonlinear_arith)
            requires
                b == k * f + m,
                k <= u,
                m < 2 * f,
        ;
        (b, k, m)
    }
}

/// Every integer below `2^24` is a `Single`.
pub proof fn single_holds_integers(n: nat)
    requires
        n < 0x100_0000,
    ensures
        Single::of(n).units() == n * Single::one(),
        Single::of(n).bits < SINGLE_INFINITY,
{
    lemma2_to64();
    let f = SINGLE_BINADE as nat;
    let b = lemma_pattern(f, 24, n, 149).0;
    rounding::round_keeps(f, b, 1);
    assert(rounding::units(f, b) * 1 == n * Single::one());
}

/// Every integer below `2^53` is a `Double`.
pub proof fn double_holds_integers(n: nat)
    requires
        n < 0x20_0000_0000_0000,
    ensures
        Double::of(n).units() == n * Double::one(),
        Double::of(n).bits < DOUBLE_INFINITY,
{
    lemma2_to64_rest();
    let f = DOUBLE_BINADE as nat;
    let b = lemma_pattern(f, 53, n, 1074).0;
    rounding::round_keeps(f, b, 1);
    assert(rounding::units(f, b) * 1 == n * Double::one());
}

/// Integers below `2^24` add, multiply and compare as integers, as long as the
/// result is below `2^24` too, and print as integers.
pub proof fn single_integers_are_integers(a: nat, b: nat)
    requires
        a < 0x100_0000,
        b < 0x100_0000,
    ensures
        a + b < 0x100_0000 ==> Single::of(a).plus(Single::of(b)) == Single::of(a + b),
        a * b < 0x100_0000 ==> Single::of(a).times(Single::of(b)) == Single::of(a * b),
        Single::of(a).gt(Single::of(b)) <==> a > b,
        Single::of(a).ge(Single::of(b)) <==> a >= b,
        Single::of(a).whole() == a,
        Single::of(a).text0() == decimal::dec(a),
        Single::of(a).text1() == decimal::dec(a) + seq!['.'] + decimal::dec(0),
{
    let one = Single::one();
    lemma_pow2_pos(149);
    single_holds_integers(a);
    single_holds_integers(b);
    assert(a * one + b * one == (a + b) * one) by (nonlinear_arith);
    rounding::lemma_round_scale(SINGLE_BINADE as nat, (a * b) * one, 1, one);
    assert((a * one) * (b * one) == ((a * b) * one) * one) by (nonlinear_arith);
    assert(1 * one == one);
    assert(a * one > b * one <==> a > b) by (nonlinear_arith)
        requires
            one >= 1,
    ;
    assert(a * one >= b * one <==> a >= b) by (nonlinear_arith)
        requires
            one >= 1,
    ;
    assert(a * one == one * a) by (nonlinear_arith);
    lemma_div_multiples_vanish(a as int, one as int);
    rounding::lemma_nearest_exact(a, one);
    assert((a * one) * 1 == a * one);
    rounding::lemma_nearest_exact(a * 10, one);
    assert((a * one) * 10 == (a * 10) * one) by (nonlinear_arith);
    assert((a * 10) / 10 == a && (a * 10) % 10 == 0);
}

/// Integers below `2^53` add, multiply and compare as integers, as long as the
/// result is below `2^53` too, and print as integers.
pub proof fn double_integers_are_integers(a: nat, b: nat)
    requires
        a < 0x20_0000_0000_0000,
        b < 0x20_0000_0000_0000,
    ensures
        a + b < 0x20_0000_0000_0000 ==> Double::of(a).plus(Double::of(b)) == Double::of(a + b),
        a * b < 0x20_0000_0000_0000 ==> Double::of(a).times(Double::of(b)) == Double::of(a * b),
        Double::of(a).gt(Double::of(b)) <==> a > b,
        Double::of(a).ge(Double::of(b)) <==> a >= b,
        Double::of(a).whole() == a,
        Double::of(a).text0() == decimal::dec(a),
        Double::of(a).text1() == decimal::dec(a) + seq!['.'] + decimal::dec(0),
{
    let one = Double::one();
    lemma_pow2_pos(1074);
    double_holds_integers(a);
    double_holds_integers(b);
    assert(a * one + b * one == (a + b) * one) by (nonlinear_arith);
    rounding::lemma_round_scale(DOUBLE_BINADE as nat, (a * b) * one, 1, one);
    assert((a * one) * (b * one) == ((a * b) * one) * one) by (nonlinear_arith);
    assert(1 * one == one);
    assert(a * one > b * one <==> a > b) by (nonlinear_arith)
        requires
            one >= 1,
    ;
    assert(a * one >= b * one <==> a >= b) by (nonlinear_arith)
        requires
            one >= 1,
    ;
    assert(a * one == one * a) by (nonlinear_arith);
    lemma_div_multiples_vanish(a as int, one as int);
    rounding::lemma_nearest_exact(a, one);
    assert((a * one) * 1 == a * one);
    rounding::lemma_nearest_exact(a * 10, one);
    assert((a * one) * 10 == (a * 10) * one) by (nonlinear_arith);
    assert((a * 10) / 10 == a && (a * 10) % 10 == 0);
}

/// An integer below `2^24` is the same number in both formats.
pub proof fn formats_share_integers(n: nat)
    requires
        n < 0x100_0000,
    ensures
        Single::of(n).widened() == Double::of(n),
        Double::of(n).narrowed() == Single::of(n),
{
    single_holds_integers(n);
    double_holds_integers(n);
    lemma_pow2_pos(925);
    lemma_pow2_adds(149, 925);
    assert(n * Single::one() * pow2(925) == n * Double::one()) by (nonlinear_arith)
        requires
            Single::one() * pow2(925) == Double::one(),
    ;
    rounding::lemma_round_scale(SINGLE_BINADE as nat, n * Single::one(), 1, pow2(925));
    assert(1 * pow2(925) == pow2(925));
}

/// An integer below `2^53` can be halved up to 30 times without loss.
pub proof fn halving_is_exact(n: nat, e: nat)
    requires
        n < 0x20_0000_0000_0000,
        e <= 30,
    ensures
        Double::of(n).over(Double::of(pow2(e))).units() * pow2(e) == n * Double::one(),
        Double::of(n).over(Double::of(pow2(e))).bits < DOUBLE_INFINITY,
{
    lemma2_to64();
    lemma2_to64_rest();
    let f = DOUBLE_BINADE as nat;
    let one = Double::one();
    lemma_pow2_pos(e);
    lemma_pow2_pos(1074);
    assert(pow2(e) < 0x20_0000_0000_0000) by {
        if e < 30 {
            lemma_pow2_strictly_increases(e, 30);
        }
    }
    double_holds_integers(n);
    double_holds_integers(pow2(e));
    let (b, k, m) = lemma_pattern(f, 53, n, 1074);
    let whole = Double::of(n);
    let part = Double::of(pow2(e));
    rounding::round_keeps(f, b, 1);
    assert(rounding::units(f, b) * 1 == n * one);
    assert(whole.bits == b);
    assert(part.units() == pow2(e) * one);
    assert(part.bits != 0) by {
        if part.bits == 0 {
            assert(rounding::units(f, 0) == 0);
            assert(pow2(e) * one > 0) by (nonlinear_arith)
                requires
                    pow2(e) > 0,
                    one > 0,
            ;
        }
    }
    let q = whole.over(part);
    let u = n * one;
    assert(q.bits == crate::float::at_most(
        rounding::round(f, u * one, pow2(e) * one),
        DOUBLE_INFINITY as nat,
    ));
    rounding::lemma_round_scale(f, u, pow2(e), one);
    if n == 0 {
        assert(u == 0);
        rounding::round_keeps(f, 0, pow2(e));
        assert(rounding::units(f, 0) == 0);
        assert(0 * pow2(e) == 0) by (nonlinear_arith);
    } else {
        let j = (k - e) as nat;
        rounding::lemma_units_at(f, j, m);
        let c = j * f + m;
        lemma_pow2_adds(j, e);
        assert((m * pow2(j)) * pow2(e) == u) by (nonlinear_arith)
            requires
                u == m * pow2(k),
                pow2(j) * pow2(e) == pow2(k),
        ;
        rounding::round_keeps(f, c, pow2(e));
        assert(rounding::round(f, u, pow2(e)) == c);
        assert(c < 1076 * f) by (nonlinear_arith)
            requires
                c == j * f + m,
                j <= 1074,
                m < 2 * f,
        ;
    }
}

/// What a share of `2^e` shows, `c` times, is the integer nearest to it.
pub(crate) proof fn lemma_shown(n: nat, e: nat, c: nat)
    requires
        n < 0x20_0000_0000_0000,
        e <= 30,
    ensures
        Double::of(n).over(Double::of(pow2(e))).scaled(c) == rounding::nearest(n * c, pow2(e)),
{
    halving_is_exact(n, e);
    lemma_pow2_pos(e);
    lemma_pow2_pos(1074);
    let one = Double::one();
    let q = Double::of(n).over(Double::of(pow2(e))).units();
    rounding::lemma_nearest_scale(q * c, one, pow2(e));
    rounding::lemma_nearest_scale(n * c, pow2(e), one);
    assert(q * c * pow2(e) == n * c * one) by (nonlinear_arith)
        requires
            q * pow2(e) == n * one,
    ;
    assert(one * pow2(e) == pow2(e) * one) by (nonlinear_arith);
}

/// A size below 8 PiB is told as the number of tenths of gigabytes, of megabytes or
/// of kilobytes that is nearest to it, or to the byte.
pub proof fn sizes_are_nearest(bytes: u64)
    requires
        bytes < 0x20_0000_0000_0000,
    ensures
        Double::bytes_text(bytes) == if bytes >= diagnose::GIB {
            decimal::tenths(rounding::nearest(bytes as nat * 10, diagnose::GIB as nat)) + " GB"@
        } else if bytes >= diagnose::MIB {
            decimal::dec(rounding::nearest(bytes as nat, diagnose::MIB as nat)) + " MB"@
        } else if bytes >= diagnose::KIB {
            decimal::dec(rounding::nearest(bytes as nat, diagnose::KIB as nat)) + " KB"@
        } else {
            decimal::dec(bytes as nat) + " B"@
        },
{
    lemma2_to64();
    let n = bytes as nat;
    if bytes >= diagnose::GIB {
        halving_is_exact(n, 30);
        lemma_shown(n, 30, 10);
    } else if bytes >= diagnose::MIB {
        halving_is_exact(n, 20);
        lemma_shown(n, 20, 1);
        assert(n * 1 == n);
    } else if bytes >= diagnose::KIB {
        halving_is_exact(n, 10);
        lemma_shown(n, 10, 1);
        assert(n * 1 == n);
    }
}

/// A rate of whole bytes per second is told as the number of tenths of gigabytes or of
/// megabytes, or of kilobytes, that is nearest to it, or to the byte.
pub proof fn rates_are_nearest(bps: nat)
    requires
        bps < 0x20_0000_0000_0000,
    ensures
        Double::of(bps).bps_text() == if bps >= 1_073_741_824 {
            decimal::tenths(rounding::nearest(bps * 10, 1_073_741_824)) + " GB/s"@
        } else if bps >= 1_048_576 {
            decimal::tenths(rounding::nearest(bps * 10, 1_048_576)) + " MB/s"@
        } else if bps >= 1_024 {
            decimal::dec(rounding::nearest(bps, 1_024)) + " KB/s"@
        } else {
            decimal::dec(bps) + " B/s"@
        },
{
    lemma2_to64();
    double_integers_are_integers(bps, 1_073_741_824);
    double_integers_are_integers(bps, 1_048_576);
    double_integers_are_integers(bps, 1_024);
    if bps >= 1_073_741_824 {
        halving_is_exact(bps, 30);
        lemma_shown(bps, 30, 10);
    } else if bps >= 1_048_576 {
        halving_is_exact(bps, 20);
        lemma_shown(bps, 20, 10);
    } else if bps >= 1_024 {
        halving_is_exact(bps, 10);
        lemma_shown(bps, 10, 1);
        assert(bps * 1 == bps);
    }
}

/// A number of gigabytes is told in tenths, the nearest to it.
pub proof fn gigabytes_are_nearest(bytes: u64)
    requires
        bytes < 0x20_0000_0000_0000,
    ensures
        Double::gigabytes(bytes).text1() == decimal::tenths(
            rounding::nearest(bytes as nat * 10, 1_073_741_824),
        ),
{
    lemma2_to64();
    halving_is_exact(bytes as nat, 30);
    lemma_shown(bytes as nat, 30, 10);
}

// ---------------------------------------------------------------------------
// Scores
// ---------------------------------------------------------------------------

proof fn lemma_whole(n: nat, one: nat, limit: nat)
    requires
        one >= 1,
        n <= limit * one,
    ensures
        n / one <= limit,
{
    lemma_div_is_ordered(n as int, (limit * one) as int, one as int);
    lemma_div_multiples_vanish(limit as int, one as int);
    assert(limit * one == one * limit) by (nonlinear_arith);
}

/// What is kept to at most `limit` has at most `limit` as its whole part.
pub(crate) proof fn lemma_capped_single(x: Single, limit: nat)
    requires
        limit < 256,
    ensures
        x.smaller(Single::of(limit)).byte() <= limit,
{
    lemma_pow2_pos(149);
    single_holds_integers(limit);
    lemma_whole(x.smaller(Single::of(limit)).units(), Single::one(), limit);
}

/// What is kept to at most `limit` has at most `limit` as its whole part.
pub(crate) proof fn lemma_capped_double(x: Double, limit: nat)
    requires
        limit < 256,
    ensures
        x.smaller(Double::of(limit)).byte() <= limit,
{
    lemma_pow2_pos(1074);
    double_holds_integers(limit);
    lemma_whole(x.smaller(Double::of(limit)).units(), Double::one(), limit);
}

/// No subsystem scores more than 100.
pub proof fn scores_are_percentages(m: MetricsView)
    ensures
        m.cpu_score() <= 100,
        m.mem_score() <= 100,
        m.disk_score() <= 100,
        m.net_score() <= 100,
{
    assert forall|x: Single| #[trigger] x.smaller(Single::of(100)).byte() <= 100 by {
        lemma_capped_single(x, 100);
    }
    assert forall|x: Double| #[trigger] x.smaller(Double::of(100)).byte() <= 100 by {
        lemma_capped_double(x, 100);
    }
}

/// Seven tenths, as a `Single`, are no more than seven tenths.
pub(crate) proof fn lemma_seven_tenths()
    ensures
        Single::of(7).over(Single::of(10)).units() * 10 <= 7 * Single::one(),
        0 < Single::of(7).over(Single::of(10)).bits < SINGLE_INFINITY,
{
    let f = SINGLE_BINADE as nat;
    let one = Single::one();
    let e = pow2(125);
    lemma2_to64();
    lemma_pow2_pos(149);
    lemma_pow2_pos(125);
    lemma_pow2_adds(24, 125);
    single_holds_integers(7);
    single_holds_integers(10);
    assert(one == 0x100_0000 * e);
    let b = rounding::round(f, (7 * one) * one, 10 * one);
    rounding::lemma_round_scale(f, 7 * one, 10, one);
    rounding::lemma_round_at(f, 7 * one, 10, 125);
    rounding::lemma_nearest_scale(7 * 0x100_0000, 10, e);
    assert((7 * 0x100_0000) * e == 7 * one) by (nonlinear_arith)
        requires
            one == 0x100_0000 * e,
    ;
    assert(rounding::nearest(7 * 0x100_0000, 10) == 11_744_051);
    assert(b == 125 * f + 11_744_051);
    rounding::lemma_units_at(f, 125, 11_744_051);
    assert(Single::of(10).bits != 0) by {
        if Single::of(10).bits == 0 {
            assert(rounding::units(f, 0) == 0);
        }
    }
    assert(Single::of(7).over(Single::of(10)).bits == b);
    assert(11_744_051 * e * 10 <= 7 * one) by (nonlinear_arith)
        requires
            one == 0x100_0000 * e,
            e >= 1,
    ;
}

/// A part is at most 100 percent.
proof fn lemma_percent(part: u64, whole: u64)
    requires
        part <= whole,
        whole > 0,
    ensures
        Double::percent(part, whole).units() <= 100 * Double::one(),
        Double::percent(part, whole).bits < DOUBLE_INFINITY,
{
    let f = DOUBLE_BINADE as nat;
    let one = Double::one();
    lemma_pow2_pos(1074);
    double_holds_integers(1);
    double_holds_integers(100);
    let p = Double::of(part as nat);
    let w = Double::of(whole as nat);
    assert(part * one <= whole * one) by (nonlinear_arith)
        requires
            part <= whole,
    ;
    assert((part * one) * 1 <= (whole * one) * 1);
    rounding::round_is_monotone(f, part as nat * one, 1, whole as nat * one, 1);
    assert(1 * one <= whole * one) by (nonlinear_arith)
        requires
            whole >= 1,
    ;
    assert((1 * one) * 1 <= (whole * one) * 1);
    rounding::round_is_monotone(f, 1 * one, 1, whole as nat * one, 1);
    assert(p.bits <= w.bits);
    rounding::lemma_units_order(f, p.bits as nat, w.bits as nat);
    rounding::lemma_units_order(f, Double::of(1).bits as nat, w.bits as nat);
    assert(w.units() >= one);
    let q = p.over(w);
    let of1 = Double::of(1);
    lemma_double_of_is_finite(part as nat);
    lemma_double_of_is_finite(whole as nat);
    assert(w.bits != 0) by {
        if w.bits == 0 {
            assert(rounding::units(f, 0) == 0);
        }
    }
    assert((p.units() * one) * 1 <= (1 * one) * w.units()) by (nonlinear_arith)
        requires
            p.units() <= w.units(),
    ;
    rounding::round_is_monotone(f, p.units() * one, w.units(), 1 * one, 1);
    assert(q.bits <= of1.bits);
    rounding::lemma_units_order(f, q.bits as nat, of1.bits as nat);
    assert(q.units() <= one);
    let h = Double::of(100);
    let r = q.times(h);
    assert((q.units() * h.units()) * 1 <= (100 * one) * one) by (nonlinear_arith)
        requires
            q.units() <= one,
            h.units() == 100 * one,
    ;
    rounding::round_is_monotone(f, q.units() * h.units(), one, 100 * one, 1);
    assert(r.bits <= h.bits);
    rounding::lemma_units_order(f, r.bits as nat, h.bits as nat);
}

/// What is at least one unit is not rounded to zero.
proof fn lemma_positive(f: nat, n: nat, d: nat)
    requires
        f >= 1,
        d >= 1,
        n >= d,
    ensures
        rounding::round(f, n, d) >= 1,
{
    assert(rounding::round(f, 1, 1) == 1) by {
        rounding::lemma_nearest_exact(1, 1);
    }
    rounding::round_is_monotone(f, 1, 1, n, d);
}

/// A 64-bit integer is finite as a `Single`, and zero only where it is zero.
pub(crate) proof fn lemma_single_of_is_finite(n: nat)
    requires
        n <= u64::MAX,
    ensures
        Single::of(n).bits < SINGLE_INFINITY,
        n > 0 ==> Single::of(n).bits > 0,
{
    let f = SINGLE_BINADE as nat;
    let one = Single::one();
    lemma2_to64();
    lemma2_to64_rest();
    lemma_pow2_pos(149);
    lemma_pow2_adds(64, 149);
    lemma_pow2_adds(23, 190);
    let b = (190 * f + f) as nat;
    rounding::lemma_units_at(f, 190, f);
    assert(f * pow2(190) == pow2(64) * one);
    rounding::round_keeps(f, b, 1);
    assert((n * one) * 1 <= (pow2(64) * one) * 1) by (nonlinear_arith)
        requires
            n <= pow2(64),
    ;
    rounding::round_is_monotone(f, n * one, 1, pow2(64) * one, 1);
    if n > 0 {
        assert(n * one >= 1) by (nonlinear_arith)
            requires
                n >= 1,
                one >= 1,
        ;
        lemma_positive(f, n * one, 1);
    }
}

/// A 64-bit integer is finite as a `Double`, and zero only where it is zero.
pub(crate) proof fn lemma_double_of_is_finite(n: nat)
    requires
        n <= u64::MAX,
    ensures
        Double::of(n).bits < DOUBLE_INFINITY,
        n > 0 ==> Double::of(n).bits > 0,
{
    let f = DOUBLE_BINADE as nat;
    let one = Double::one();
    lemma2_to64();
    lemma2_to64_rest();
    lemma_pow2_pos(1074);
    lemma_pow2_adds(64, 1074);
    lemma_pow2_adds(52, 1086);
    let b = (1086 * f + f) as nat;
    rounding::lemma_units_at(f, 1086, f);
    assert(f * pow2(1086) == pow2(64) * one);
    rounding::round_keeps(f, b, 1);
    assert((n * one) * 1 <= (pow2(64) * one) * 1) by (nonlinear_arith)
        requires
            n <= pow2(64),
    ;
    rounding::round_is_monotone(f, n * one, 1, pow2(64) * one, 1);
    if n > 0 {
        assert(n * one >= 1) by (nonlinear_arith)
            requires
                n >= 1,
                one >= 1,
        ;
        lemma_positive(f, n * one, 1);
    }
}

/// A number of milliseconds is some number of seconds.
pub(crate) proof fn lemma_seconds(ms: u64)
    requires
        ms > 0,
    ensures
        Double::of(ms as nat).over(Double::of(1000)).bits > 0,
{
    let f = DOUBLE_BINADE as nat;
    let one = Double::one();
    let m = Double::of(ms as nat);
    let k = Double::of(1000);
    lemma_pow2_pos(1074);
    lemma_double_of_is_finite(ms as nat);
    lemma_double_of_is_finite(1000);
    double_holds_integers(1);
    double_holds_integers(1000);
    lemma_of_grows(1, ms as nat);
    lemma_order(Double::of(1), m);
    lemma2_to64();
    lemma_pow2_strictly_increases(10, 1074);
    assert(m.units() * one >= 1000 * one) by (nonlinear_arith)
        requires
            m.units() >= one,
            one >= 1000,
    ;
    assert(1000 * one >= 1);
    lemma_positive(f, m.units() * one, k.units());
}

/// A boost is a positive number.
pub(crate) proof fn lemma_boost(score: u8)
    ensures
        0 < Weights::boost(score).bits < DOUBLE_INFINITY,
{
    let f = DOUBLE_BINADE as nat;
    let one = Double::one();
    let s = Double::of(score as nat);
    let fifty = Double::of(50);
    lemma_pow2_pos(1074);
    double_holds_integers(score as nat);
    double_holds_integers(50);
    double_holds_integers(1);
    double_holds_integers(6);
    double_holds_integers(7);
    lemma_double_of_is_finite(1);
    lemma_double_of_is_finite(50);
    // at most six fiftieths of a fifty
    assert((s.units() * one) * 1 <= (6 * one) * fifty.units()) by (nonlinear_arith)
        requires
            s.units() == score * one,
            fifty.units() == 50 * one,
            score <= 255,
    ;
    lemma_nearest_grows(s.units() * one, fifty.units(), 6 * one, 1);
    let part = s.over(fifty);
    assert(part.bits <= Double::of(6).bits);
    lemma_plus_grows(Double::of(1), part, Double::of(1), Double::of(6));
    double_integers_are_integers(1, 6);
    // and at least one
    rounding::round_keeps(f, 0, 1);
    assert(rounding::units(f, 0) == 0);
    lemma_order(Double { bits: 0 }, part);
    lemma_plus_grows(Double::of(1), Double { bits: 0 }, Double::of(1), part);
    assert(Double::of(1).plus(Double { bits: 0 }) == Double::of(1));
}

/// Used RAM alone, however much of it, does not score more than 70.
pub proof fn full_ram_is_no_distress(m: MetricsView)
    requires
        m.mem.used <= m.mem.total,
        m.mem.swap_rate <= diagnose::MIB,
        m.mem.swap_used <= diagnose::GIB / 2,
    ensures
        m.mem_score() <= 70,
{
    let f = SINGLE_BINADE as nat;
    let one = Single::one();
    lemma2_to64();
    lemma_pow2_pos(149);
    lemma_pow2_pos(1074);
    lemma_pow2_pos(925);
    let used = if m.mem.total > 0 {
        Double::percent(m.mem.used, m.mem.total).narrowed()
    } else {
        Single { bits: 0 }
    };
    single_holds_integers(100);
    single_holds_integers(70);
    assert(used.units() <= 100 * one && used.bits < SINGLE_INFINITY) by {
        if m.mem.total > 0 {
            lemma_percent(m.mem.used, m.mem.total);
            let p = Double::percent(m.mem.used, m.mem.total);
            lemma_pow2_adds(149, 925);
            assert(p.units() * 1 <= (100 * one) * pow2(925)) by (nonlinear_arith)
                requires
                    p.units() <= 100 * Double::one(),
                    one * pow2(925) == Double::one(),
            ;
            rounding::round_is_monotone(f, p.units(), pow2(925), 100 * one, 1);
            rounding::lemma_units_order(f, used.bits as nat, Single::of(100).bits as nat);
        } else {
            assert(rounding::units(f, 0) == 0);
        }
    }
    let c = Single::of(7).over(Single::of(10));
    lemma_seven_tenths();
    let base = used.times(c);
    assert((used.units() * c.units()) * 1 <= (70 * one) * one) by (nonlinear_arith)
        requires
            used.units() <= 100 * one,
            c.units() * 10 <= 7 * one,
    ;
    rounding::round_is_monotone(f, used.units() * c.units(), one, 70 * one, 1);
    assert(base.bits <= Single::of(70).bits);
    rounding::lemma_units_order(f, base.bits as nat, Single::of(70).bits as nat);
    assert(base.units() <= 70 * one);
    // no paging
    let d1 = Double::one();
    halving_is_exact(m.mem.swap_rate as nat, 20);
    double_holds_integers(1);
    double_holds_integers(2);
    double_holds_integers(10);
    let rate = Double::of(m.mem.swap_rate as nat).over(Double::of(diagnose::MIB as nat));
    assert(rate.units() <= d1) by (nonlinear_arith)
        requires
            rate.units() * 0x10_0000 == m.mem.swap_rate as nat * d1,
            m.mem.swap_rate as nat <= 0x10_0000,
    ;
    // little swap
    halving_is_exact(m.mem.swap_used as nat, 30);
    halving_is_exact(1, 1);
    let swap = Double::gigabytes(m.mem.swap_used);
    let half = Double::of(1).over(Double::of(2));
    assert(swap.units() <= half.units()) by (nonlinear_arith)
        requires
            swap.units() * 0x4000_0000 == m.mem.swap_used as nat * d1,
            m.mem.swap_used as nat <= 0x2000_0000,
            half.units() * 2 == 1 * d1,
    ;
    assert(swap.units() <= d1);
    let s = base.smaller(Single::of(100));
    assert(m.mem_score() == s.byte());
    lemma_whole(s.units(), one, 70);
}

/// What has a whole part of 10 or more is at least ten.
pub(crate) proof fn lemma_at_least_ten(x: Double)
    ensures
        x.byte() >= 10 ==> x.ge(Double::of(10)),
{
    lemma_pow2_pos(1074);
    double_holds_integers(10);
    let one = Double::one();
    let q = x.units() / one;
    lemma_fundamental_div_mod(x.units() as int, one as int);
    if q >= 10 {
        assert(one * q >= 10 * one) by (nonlinear_arith)
            requires
                q >= 10,
        ;
    }
}


// ---------------------------------------------------------------------------
// More is not less
// ---------------------------------------------------------------------------

proof fn lemma_order(a: Double, b: Double)
    ensures
        a.bits <= b.bits <==> a.units() <= b.units(),
{
    rounding::lemma_units_order(DOUBLE_BINADE as nat, a.bits as nat, b.bits as nat);
    rounding::lemma_units_order(DOUBLE_BINADE as nat, b.bits as nat, a.bits as nat);
}

proof fn lemma_nearest_grows(n: nat, d: nat, n2: nat, d2: nat)
    requires
        d >= 1,
        d2 >= 1,
        n * d2 <= n2 * d,
    ensures
        Double::nearest_to(n, d).bits <= Double::nearest_to(n2, d2).bits,
{
    rounding::round_is_monotone(DOUBLE_BINADE as nat, n, d, n2, d2);
}

proof fn lemma_of_grows(n: nat, n2: nat)
    requires
        n <= n2,
    ensures
        Double::of(n).bits <= Double::of(n2).bits,
{
    let one = Double::one();
    assert((n * one) * 1 <= (n2 * one) * 1) by (nonlinear_arith)
        requires
            n <= n2,
    ;
    lemma_nearest_grows(n * one, 1, n2 * one, 1);
}

proof fn lemma_plus_grows(a: Double, b: Double, a2: Double, b2: Double)
    requires
        a.bits <= a2.bits,
        b.bits <= b2.bits,
    ensures
        a.plus(b).bits <= a2.plus(b2).bits,
{
    lemma_order(a, a2);
    lemma_order(b, b2);
    lemma_nearest_grows(a.units() + b.units(), 1, a2.units() + b2.units(), 1);
}

proof fn lemma_times_grows(a: Double, b: Double, a2: Double, b2: Double)
    requires
        a.bits <= a2.bits,
        b.bits <= b2.bits,
    ensures
        a.times(b).bits <= a2.times(b2).bits,
{
    let one = Double::one();
    lemma_pow2_pos(1074);
    lemma_order(a, a2);
    lemma_order(b, b2);
    assert((a.units() * b.units()) * one <= (a2.units() * b2.units()) * one) by (nonlinear_arith)
        requires
            a.units() <= a2.units(),
            b.units() <= b2.units(),
    ;
    lemma_nearest_grows(a.units() * b.units(), one, a2.units() * b2.units(), one);
}

proof fn lemma_over_grows(a: Double, a2: Double, d: Double)
    requires
        a.bits <= a2.bits,
    ensures
        a.over(d).bits <= a2.over(d).bits,
{
    let one = Double::one();
    lemma_order(a, a2);
    if d.bits != 0 {
        rounding::lemma_units_order(DOUBLE_BINADE as nat, 0, d.bits as nat);
        assert(rounding::units(DOUBLE_BINADE as nat, 0) == 0);
        assert((a.units() * one) * d.units() <= (a2.units() * one) * d.units()) by (nonlinear_arith)
            requires
                a.units() <= a2.units(),
        ;
        lemma_nearest_grows(a.units() * one, d.units(), a2.units() * one, d.units());
    }
}

proof fn lemma_byte_grows(a: Double, a2: Double)
    requires
        a.bits <= a2.bits,
    ensures
        a.byte() <= a2.byte(),
{
    lemma_order(a, a2);
    lemma_pow2_pos(1074);
    lemma_div_is_ordered(a.units() as int, a2.units() as int, Double::one() as int);
}

proof fn lemma_larger_grows(a: Double, b: Double, a2: Double, b2: Double)
    requires
        a.bits <= a2.bits,
        b.bits <= b2.bits,
    ensures
        a.larger(b).bits <= a2.larger(b2).bits,
        a.smaller(b).bits <= a2.smaller(b2).bits,
{
    lemma_order(a, b);
    lemma_order(b, a);
    lemma_order(a2, b2);
    lemma_order(b2, a2);
}

proof fn lemma_boost_grows(score: u8, score2: u8)
    requires
        score <= score2,
    ensures
        Weights::boost(score).bits <= Weights::boost(score2).bits,
{
    let fifty = Double::of(50);
    let one = Double::of(1);
    lemma_of_grows(score as nat, score2 as nat);
    lemma_over_grows(Double::of(score as nat), Double::of(score2 as nat), fifty);
    lemma_plus_grows(
        one,
        Double::of(score as nat).over(fifty),
        one,
        Double::of(score2 as nat).over(fifty),
    );
}

proof fn lemma_widened_grows(a: Single, a2: Single)
    requires
        a.bits <= a2.bits,
    ensures
        a.widened().bits <= a2.widened().bits,
{
    rounding::lemma_units_order(SINGLE_BINADE as nat, a.bits as nat, a2.bits as nat);
    assert((a.units() * pow2(925)) * 1 <= (a2.units() * pow2(925)) * 1) by (nonlinear_arith)
        requires
            a.units() <= a2.units(),
    ;
    lemma_nearest_grows(a.units() * pow2(925), 1, a2.units() * pow2(925), 1);
}

/// A program that uses more, on a machine that is more stressed, has no smaller
/// impact.
pub proof fn impact_grows_with_use_and_stress(
    e: EntryView,
    w: Weights,
    e2: EntryView,
    w2: Weights,
)
    requires
        e2.cpu.ge(e.cpu),
        e2.mem >= e.mem,
        e2.disk_bps.ge(e.disk_bps),
        w2.total_mem == w.total_mem,
        w2.cpu_score >= w.cpu_score,
        w2.mem_score >= w.mem_score,
        w2.disk_score >= w.disk_score,
    ensures
        e2.weighed(w2).impact >= e.weighed(w).impact,
{
    let hundred = Double::of(100);
    let total = Double::of(w.total_mem as nat);
    let mib = Double::of(diagnose::MIB as nat);
    lemma_boost_grows(w.cpu_score, w2.cpu_score);
    lemma_boost_grows(w.mem_score, w2.mem_score);
    lemma_boost_grows(w.disk_score, w2.disk_score);
    // CPU
    rounding::lemma_units_order(SINGLE_BINADE as nat, e2.cpu.bits as nat, e.cpu.bits as nat);
    lemma_widened_grows(e.cpu, e2.cpu);
    let cpu = e.cpu.widened().times(w.cpu_boost());
    let cpu2 = e2.cpu.widened().times(w2.cpu_boost());
    lemma_times_grows(e.cpu.widened(), w.cpu_boost(), e2.cpu.widened(), w2.cpu_boost());
    // memory
    let part = Double::of(e.mem as nat);
    let part2 = Double::of(e2.mem as nat);
    lemma_of_grows(e.mem as nat, e2.mem as nat);
    lemma_over_grows(part, part2, total);
    lemma_times_grows(part.over(total), hundred, part2.over(total), hundred);
    let mem = Double::percent(e.mem, w.total_mem).times(w.mem_boost());
    let mem2 = Double::percent(e2.mem, w2.total_mem).times(w2.mem_boost());
    lemma_times_grows(
        Double::percent(e.mem, w.total_mem),
        w.mem_boost(),
        Double::percent(e2.mem, w2.total_mem),
        w2.mem_boost(),
    );
    // disk
    lemma_order(e.disk_bps, e2.disk_bps);
    lemma_over_grows(e.disk_bps, e2.disk_bps, mib);
    let disk = e.disk_bps.over(mib).times(w.disk_boost());
    let disk2 = e2.disk_bps.over(mib).times(w2.disk_boost());
    lemma_times_grows(
        e.disk_bps.over(mib),
        w.disk_boost(),
        e2.disk_bps.over(mib),
        w2.disk_boost(),
    );
    // the worst of them
    lemma_larger_grows(cpu, mem, cpu2, mem2);
    lemma_larger_grows(cpu.larger(mem), disk, cpu2.larger(mem2), disk2);
    let most = cpu.larger(mem).larger(disk);
    let most2 = cpu2.larger(mem2).larger(disk2);
    lemma_larger_grows(most, hundred, most2, hundred);
    lemma_byte_grows(most.smaller(hundred), most2.smaller(hundred));
}

// ---------------------------------------------------------------------------
// Whole numbers in, whole numbers out
// ---------------------------------------------------------------------------

pub(crate) proof fn lemma_same_double(a: Double, b: Double)
    requires
        a.units() == b.units(),
    ensures
        a == b,
{
    lemma_order(a, b);
    lemma_order(b, a);
}

pub(crate) proof fn lemma_same_single(a: Single, b: Single)
    requires
        a.units() == b.units(),
    ensures
        a == b,
{
    rounding::lemma_units_order(SINGLE_BINADE as nat, a.bits as nat, b.bits as nat);
    rounding::lemma_units_order(SINGLE_BINADE as nat, b.bits as nat, a.bits as nat);
}

/// Nothing added changes nothing.
pub(crate) proof fn lemma_plus_nothing(x: Double, y: Single)
    requires
        x.wf(),
        y.wf(),
    ensures
        Double::of(0).bits == 0,
        Single::of(0).bits == 0,
        x.plus(Double { bits: 0 }) == x,
        (Double { bits: 0 }).plus(x) == x,
        y.plus(Single { bits: 0 }) == y,
        (Single { bits: 0 }).plus(y) == y,
{
    double_holds_integers(0);
    single_holds_integers(0);
    assert(0 * Double::one() == 0) by (nonlinear_arith);
    assert(0 * Single::one() == 0) by (nonlinear_arith);
    assert(rounding::units(DOUBLE_BINADE as nat, 0) == 0);
    assert(rounding::units(SINGLE_BINADE as nat, 0) == 0);
    lemma_same_double(Double::of(0), Double { bits: 0 });
    lemma_same_single(Single::of(0), Single { bits: 0 });
    rounding::round_keeps(DOUBLE_BINADE as nat, x.bits as nat, 1);
    rounding::round_keeps(SINGLE_BINADE as nat, y.bits as nat, 1);
    assert(x.units() * 1 == x.units());
    assert(y.units() * 1 == y.units());
}

/// An integer below `2^53` divided by one of its factors is the other factor.
pub proof fn division_is_exact(a: nat, b: nat)
    requires
        1 <= b < 0x20_0000_0000_0000,
        a * b < 0x20_0000_0000_0000,
    ensures
        Double::of(a * b).over(Double::of(b)) == Double::of(a),
{
    let f = DOUBLE_BINADE as nat;
    let one = Double::one();
    lemma_pow2_pos(1074);
    if a == 0 {
        assert(a * b == 0) by (nonlinear_arith)
            requires
                a == 0,
        ;
        lemma_double_of_is_finite(b);
        double_holds_integers(0);
        assert(0 * one == 0) by (nonlinear_arith);
        let d = Double::of(b).units();
        lemma_order(Double::of(b), Double { bits: 0 });
        assert(rounding::units(f, 0) == 0);
        rounding::round_keeps(f, 0, d);
        assert(0 * d == 0) by (nonlinear_arith);
        lemma_plus_nothing(Double { bits: 0 }, Single { bits: 0 });
    } else {
        assert(b <= a * b && a <= a * b) by (nonlinear_arith)
            requires
                a >= 1,
                b >= 1,
        ;
        double_holds_integers(a * b);
        double_holds_integers(b);
        lemma_double_of_is_finite(b);
        let c = b * one;
        assert(c >= 1) by (nonlinear_arith)
            requires
                b >= 1,
                one >= 1,
                c == b * one,
        ;
        rounding::lemma_round_scale(f, a * one, 1, c);
        assert(((a * b) * one) * one == (a * one) * c) by (nonlinear_arith)
            requires
                c == b * one,
        ;
        assert(1 * c == c);
    }
}

/// The quotient of two integers below `2^30` is above an integer where the exact one
/// is.
pub proof fn quotients_compare_as_integers(l: nat, c: nat, k: nat)
    requires
        l <= 0x4000_0000,
        1 <= c <= 0x4000_0000,
        k <= 0x100,
    ensures
        Double::of(l).over(Double::of(c)).gt(Double::of(k)) <==> l > k * c,
{
    let f = DOUBLE_BINADE as nat;
    let one = Double::one();
    lemma_pow2_pos(1074);
    double_holds_integers(l);
    double_holds_integers(c);
    double_holds_integers(k);
    lemma_double_of_is_finite(c);
    let q = Double::of(l).over(Double::of(c));
    let d = c * one;
    assert(d >= 1) by (nonlinear_arith)
        requires
            c >= 1,
            one >= 1,
            d == c * one,
    ;
    if l <= k * c {
        assert(((l * one) * one) * 1 <= (k * one) * d) by (nonlinear_arith)
            requires
                l <= k * c,
                d == c * one,
        ;
        lemma_nearest_grows((l * one) * one, d, k * one, 1);
        lemma_order(q, Double::of(k));
    } else {
        // there is a number between
        let e = 0x4000_0000nat;
        let n = k * e + 1;
        lemma2_to64();
        assert(n < 0x20_0000_0000_0000);
        halving_is_exact(n, 30);
        double_holds_integers(n);
        double_holds_integers(e);
        lemma_double_of_is_finite(e);
        let between = Double::of(n).over(Double::of(e));
        let g = e * one;
        assert(g >= 1) by (nonlinear_arith)
            requires
                g == e * one,
                one >= 1,
                e >= 1,
        ;
        assert(n * c <= l * e) by (nonlinear_arith)
            requires
                n == k * e + 1,
                l >= k * c + 1,
                c <= e,
        ;
        assert(((n * one) * one) * d <= ((l * one) * one) * g) by (nonlinear_arith)
            requires
                n * c <= l * e,
                d == c * one,
                g == e * one,
        ;
        lemma_nearest_grows((n * one) * one, g, (l * one) * one, d);
        lemma_order(between, q);
        assert(between.units() > k * one) by (nonlinear_arith)
            requires
                between.units() * e == n * one,
                n == k * e + 1,
                one >= 1,
                e >= 1,
        ;
    }
}

/// A load over a number of cores is not above an integer where the exact quotient is not,
/// and is above it where the exact one is by a billionth.
pub proof fn loads_compare_with_cores(load: Double, c: nat, k: nat)
    requires
        load.bits < DOUBLE_INFINITY,
        1 <= c <= 0x4000_0000,
        k <= 0x100,
    ensures
        load.units() <= k * c * Double::one() ==> !load.over(Double::of(c)).gt(Double::of(k)),
        load.units() * 0x4000_0000 >= (k * 0x4000_0000 + 1) * c * Double::one() ==> load.over(
            Double::of(c),
        ).gt(Double::of(k)),
{
    let one = Double::one();
    lemma_pow2_pos(1074);
    double_holds_integers(c);
    double_holds_integers(k);
    lemma_double_of_is_finite(c);
    let u = load.units();
    let q = load.over(Double::of(c));
    let d = c * one;
    assert(d >= 1) by (nonlinear_arith)
        requires
            c >= 1,
            one >= 1,
            d == c * one,
    ;
    if u <= k * c * one {
        assert((u * one) * 1 <= (k * one) * d) by (nonlinear_arith)
            requires
                u <= k * c * one,
                d == c * one,
        ;
        lemma_nearest_grows(u * one, d, k * one, 1);
        lemma_order(q, Double::of(k));
    }
    let e = 0x4000_0000nat;
    let n = k * e + 1;
    if u * e >= n * c * one {
        lemma2_to64();
        halving_is_exact(n, 30);
        double_holds_integers(n);
        double_holds_integers(e);
        lemma_double_of_is_finite(e);
        let between = Double::of(n).over(Double::of(e));
        let g = e * one;
        assert(g >= 1) by (nonlinear_arith)
            requires
                g == e * one,
                one >= 1,
                e >= 1,
        ;
        assert(((n * one) * one) * d <= (u * one) * g) by (nonlinear_arith)
            requires
                u * e >= n * c * one,
                d == c * one,
                g == e * one,
        ;
        lemma_nearest_grows((n * one) * one, g, u * one, d);
        lemma_order(between, q);
        assert(between.units() > k * one) by (nonlinear_arith)
            requires
                between.units() * e == n * one,
                n == k * e + 1,
                one >= 1,
                e >= 1,
        ;
    }
}

/// A number of bytes is above so many units of `2^e` bytes where it is above as many
/// bytes.
pub proof fn sizes_compare_as_integers(n: nat, e: nat, k: nat)
    requires
        n <= u64::MAX,
        e <= 30,
        k <= 0x1000,
    ensures
        Double::of(n).over(Double::of(pow2(e))).gt(Double::of(k)) <==> n > k * pow2(e),
        Double::of(n).over(Double::of(pow2(e))).ge(Double::of(k)) <==> n >= k * pow2(e),
{
    let one = Double::one();
    lemma_pow2_pos(1074);
    lemma_pow2_pos(e);
    lemma2_to64();
    if e < 30 {
        lemma_pow2_strictly_increases(e, 30);
    }
    double_holds_integers(k);
    let t = pow2(e);
    let small: nat = if n < 0x20_0000_0000_0000 {
        n
    } else {
        0x1f_ffff_ffff_ffff
    };
    halving_is_exact(small, e);
    let q = Double::of(small).over(Double::of(t));
    assert(k * t <= 0x1000 * 0x4000_0000) by (nonlinear_arith)
        requires
            k <= 0x1000,
            t <= 0x4000_0000,
    ;
    assert(q.units() > k * one <==> small > k * t) by (nonlinear_arith)
        requires
            q.units() * t == small * one,
            t >= 1,
            one >= 1,
    ;
    assert(q.units() >= k * one <==> small >= k * t) by (nonlinear_arith)
        requires
            q.units() * t == small * one,
            t >= 1,
            one >= 1,
    ;
    if small != n {
        lemma_of_grows(small, n);
        lemma_over_grows(Double::of(small), Double::of(n), Double::of(t));
        lemma_order(q, Double::of(n).over(Double::of(t)));
    }
}

/// Kept to at most 100, a number has its whole part, or 100.
pub(crate) proof fn lemma_score_of_single(x: Single)
    ensures
        x.smaller(Single::of(100)).byte() == if x.whole() < 100 {
            x.whole()
        } else {
            100
        },
{
    let one = Single::one();
    lemma_pow2_pos(149);
    single_holds_integers(100);
    lemma_fundamental_div_mod(x.units() as int, one as int);
    lemma_div_multiples_vanish(100, one as int);
    assert(100 * one == one * 100);
    if x.units() > 100 * one {
        lemma_div_is_ordered((100 * one) as int, x.units() as int, one as int);
    } else {
        lemma_div_is_ordered(x.units() as int, (100 * one) as int, one as int);
    }
}

/// Kept to at most 100, a number has its whole part, or 100.
pub(crate) proof fn lemma_score_of_double(x: Double)
    ensures
        x.smaller(Double::of(100)).byte() == if x.whole() < 100 {
            x.whole()
        } else {
            100
        },
{
    let one = Double::one();
    lemma_pow2_pos(1074);
    double_holds_integers(100);
    lemma_fundamental_div_mod(x.units() as int, one as int);
    lemma_div_multiples_vanish(100, one as int);
    assert(100 * one == one * 100);
    if x.units() > 100 * one {
        lemma_div_is_ordered((100 * one) as int, x.units() as int, one as int);
    } else {
        lemma_div_is_ordered(x.units() as int, (100 * one) as int, one as int);
    }
}

/// What adding so many points does to the whole part: it grows by as many, or by one
/// more where the sum is rounded up to the next integer.
pub(crate) proof fn lemma_points(x: Single, points: nat)
    requires
        points <= 200,
    ensures
        x.whole() < 0x10_0000 ==> x.whole() + points <= x.plus(Single::of(points)).whole()
            <= x.whole() + points + 1,
        x.whole() < 0x10_0000 && x.plus(Single::of(points)).whole() == x.whole() + points + 1
            ==> x.plus(Single::of(points)) == Single::of(x.whole() + points + 1),
        x.whole() >= 100 ==> x.plus(Single::of(points)).whole() >= 100,
{
    let f = SINGLE_BINADE as nat;
    let one = Single::one();
    let u = x.units();
    let a = x.whole();
    let y = x.plus(Single::of(points));
    lemma_pow2_pos(149);
    single_holds_integers(points);
    single_holds_integers(100);
    lemma_fundamental_div_mod(u as int, one as int);
    lemma_fundamental_div_mod(y.units() as int, one as int);
    assert(one * a == a * one) by (nonlinear_arith);
    if a >= 100 {
        assert(100 * one <= u) by (nonlinear_arith)
            requires
                a >= 100,
                u >= one * a,
        ;
        assert((100 * one) * 1 <= (u + points * one) * 1);
        rounding::round_is_monotone(f, 100 * one, 1, u + points * one, 1);
        rounding::lemma_units_order(f, Single::of(100).bits as nat, y.bits as nat);
        lemma_div_is_ordered((100 * one) as int, y.units() as int, one as int);
        lemma_div_multiples_vanish(100, one as int);
        assert(100 * one == one * 100);
    }
    if a < 0x10_0000 {
        let lo = a + points;
        let hi = a + points + 1;
        single_holds_integers(lo);
        single_holds_integers(hi);
        assert(lo * one == a * one + points * one) by (nonlinear_arith)
            requires
                lo == a + points,
        ;
        assert(hi * one == a * one + points * one + one) by (nonlinear_arith)
            requires
                hi == a + points + 1,
        ;
        rounding::round_is_monotone(f, lo * one, 1, u + points * one, 1);
        rounding::round_is_monotone(f, u + points * one, 1, hi * one, 1);
        rounding::lemma_units_order(f, Single::of(lo).bits as nat, y.bits as nat);
        rounding::lemma_units_order(f, y.bits as nat, Single::of(hi).bits as nat);
        lemma_div_is_ordered((lo * one) as int, y.units() as int, one as int);
        lemma_div_is_ordered(y.units() as int, (hi * one) as int, one as int);
        lemma_div_multiples_vanish(lo as int, one as int);
        lemma_div_multiples_vanish(hi as int, one as int);
        assert(lo * one == one * lo) by (nonlinear_arith);
        assert(hi * one == one * hi) by (nonlinear_arith);
        if y.whole() == hi {
            assert(one * y.whole() == hi * one) by (nonlinear_arith)
                requires
                    y.whole() == hi,
            ;
            lemma_same_single(y, Single::of(hi));
        }
    }
}

// ---------------------------------------------------------------------------
// What a score counts
// ---------------------------------------------------------------------------

/// At most 100.
pub open spec fn capped(points: nat) -> nat {
    if points < 100 {
        points
    } else {
        100
    }
}

/// Each score is of its own subsystem: what the others are doing does not count.
pub proof fn scores_are_of_their_own(m: MetricsView, other: MetricsView)
    ensures
        m.cpu == other.cpu ==> m.cpu_score() == other.cpu_score(),
        m.mem == other.mem ==> m.mem_score() == other.mem_score(),
        m.disk == other.disk ==> m.disk_score() == other.disk_score(),
        m.net == other.net ==> m.net_score() == other.net_score(),
{
}

/// A whole percentage of CPU use scores as many points, and 25 more where more than
/// two tasks a core want to run, 10 more where more than one does.
pub proof fn cpu_scores_use_and_queue(m: MetricsView, used: nat, load: nat)
    requires
        used < 0x10_0000,
        load <= 0x4000_0000,
        m.cpu.logical_cores <= 0x4000_0000,
        m.cpu.usage_pct == Single::of(used),
        m.cpu.load1 == Double::of(load),
    ensures
        ({
            let cores = diagnose::at_least_one(m.cpu.logical_cores as u64) as nat;
            &&& load > 2 * cores ==> m.cpu_score() == capped(used + 25)
            &&& cores < load <= 2 * cores ==> m.cpu_score() == capped(used + 10)
            &&& load <= cores ==> m.cpu_score() == capped(used)
        }),
{
    let cores = diagnose::at_least_one(m.cpu.logical_cores as u64) as nat;
    quotients_compare_as_integers(load, cores, 2);
    quotients_compare_as_integers(load, cores, 1);
    let points: nat = if load > 2 * cores {
        25
    } else if load > cores {
        10
    } else {
        0
    };
    single_integers_are_integers(used, points);
    single_integers_are_integers(used + points, 0);
    lemma_score_of_single(Single::of(used + points));
}

/// Any use of the CPU scores its whole percentage once the points for the queue are
/// added: 25 where more than two tasks a core want to run, 10 where more than one does.
pub proof fn cpu_points_add_up(m: MetricsView)
    requires
        m.cpu.load1.bits < DOUBLE_INFINITY,
        m.cpu.logical_cores <= 0x4000_0000,
        m.cpu.usage_pct.wf(),
    ensures
        ({
            let cores: nat = if m.cpu.logical_cores == 0 {
                1
            } else {
                m.cpu.logical_cores as nat
            };
            let one = Double::one();
            let load = m.cpu.load1.units();
            let used = m.cpu.usage_pct;
            // by a billionth of the cores
            let above = |k: nat| load * 0x4000_0000 >= (k * 0x4000_0000 + 1) * cores * one;
            &&& load <= 1 * cores * one ==> m.cpu_score() == capped(used.whole())
            &&& above(1) && load <= 2 * cores * one ==> m.cpu_score() == capped(
                used.plus(Single::of(10)).whole(),
            )
            &&& above(2) ==> m.cpu_score() == capped(used.plus(Single::of(25)).whole())
        }),
{
    let cores: nat = if m.cpu.logical_cores == 0 {
        1
    } else {
        m.cpu.logical_cores as nat
    };
    let one = Double::one();
    lemma_pow2_pos(1074);
    loads_compare_with_cores(m.cpu.load1, cores, 2);
    loads_compare_with_cores(m.cpu.load1, cores, 1);
    double_holds_integers(1);
    double_holds_integers(2);
    assert(1 * cores * one <= 2 * cores * one) by (nonlinear_arith);
    lemma_score_of_single(m.cpu.usage_pct.plus(Single::of(25)));
    lemma_score_of_single(m.cpu.usage_pct.plus(Single::of(10)));
    lemma_score_of_single(m.cpu.usage_pct.plus(Single::of(0)));
    lemma_plus_nothing(Double { bits: 0 }, m.cpu.usage_pct);
}

/// A queue scores its points whatever share of the CPU is in use, give or take the
/// rounding of one sum.
pub proof fn queues_score_at_any_use(m: MetricsView, idle: MetricsView)
    requires
        m.cpu.usage_pct == idle.cpu.usage_pct,
        !idle.oversubscribed(),
    ensures
        m.congested() ==> capped((idle.cpu_score() + 25) as nat) <= m.cpu_score()
            <= idle.cpu_score() + 26,
        m.oversubscribed() && !m.congested() ==> capped((idle.cpu_score() + 10) as nat)
            <= m.cpu_score() <= idle.cpu_score() + 11,
{
    let x = m.cpu.usage_pct;
    lemma_pow2_pos(1074);
    double_holds_integers(1);
    double_holds_integers(2);
    lemma_points(x, 25);
    lemma_points(x, 10);
    lemma_points(x, 0);
    lemma_score_of_single(x.plus(Single::of(25)));
    lemma_score_of_single(x.plus(Single::of(10)));
    lemma_score_of_single(x.plus(Single::of(0)));
    if x.whole() < 100 {
        lemma_whole_kept(x);
    }
}

/// Zero points leave the whole part as it is.
proof fn lemma_whole_kept(x: Single)
    requires
        x.whole() < 0x10_0000,
    ensures
        x.plus(Single::of(0)) == x,
{
    let one = Single::one();
    lemma_pow2_pos(149);
    single_holds_integers(0x10_0000);
    lemma_fundamental_div_mod(x.units() as int, one as int);
    let w = x.whole();
    let r = x.units() % one;
    assert(x.units() <= 0x10_0000 * one) by (nonlinear_arith)
        requires
            x.units() == one * w + r,
            r < one,
            w + 1 <= 0x10_0000,
    ;
    rounding::lemma_units_order(
        SINGLE_BINADE as nat,
        Single::of(0x10_0000).bits as nat,
        x.bits as nat,
    );
    lemma_plus_nothing(Double { bits: 0 }, x);
}

impl MetricsView {
    /// The same metrics with so much swap in use.
    pub open spec fn with_swap(self, swap_used: u64) -> MetricsView {
        MetricsView { mem: crate::collect::MemMetrics { swap_used, ..self.mem }, ..self }
    }

    /// The same metrics with swap growing so fast.
    pub open spec fn with_paging(self, swap_rate: u64) -> MetricsView {
        MetricsView { mem: crate::collect::MemMetrics { swap_rate, ..self.mem }, ..self }
    }

    /// The share of RAM in use counts seven tenths.
    pub open spec fn ram_points(self) -> Single {
        if self.mem.total == 0 {
            Single::of(0)
        } else {
            Double::of(self.mem.used as nat).over(Double::of(self.mem.total as nat)).times(
                Double::of(100),
            ).narrowed().times(Single::of(7).over(Single::of(10)))
        }
    }
}

/// The points for swap growing by so many bytes a second.
pub open spec fn paging_points(swap_rate: u64) -> nat {
    if swap_rate > 10 * 1_048_576 {
        40
    } else if swap_rate > 1_048_576 {
        20
    } else {
        0
    }
}

/// The points for so many bytes of swap in use.
pub open spec fn swap_points(swap_used: u64) -> nat {
    if swap_used > 2 * 1_073_741_824 {
        15
    } else if swap_used > 536_870_912 {
        5
    } else {
        0
    }
}

proof fn lemma_half_a_gigabyte(n: u64)
    ensures
        Double::gigabytes(n).gt(Double::of(1).over(Double::of(2))) <==> n > 536_870_912,
{
    let one = Double::one();
    lemma2_to64();
    lemma_pow2_pos(1074);
    halving_is_exact(1, 1);
    let half = Double::of(1).over(Double::of(2));
    let small: nat = if n < 0x20_0000_0000_0000 {
        n as nat
    } else {
        0x1f_ffff_ffff_ffff
    };
    halving_is_exact(small, 30);
    let q = Double::of(small).over(Double::of(0x4000_0000));
    assert(q.units() > half.units() <==> small > 536_870_912) by (nonlinear_arith)
        requires
            q.units() * 0x4000_0000 == small * one,
            half.units() * 2 == 1 * one,
            one >= 1,
    ;
    if small != n {
        lemma_of_grows(small, n as nat);
        lemma_over_grows(Double::of(small), Double::of(n as nat), Double::of(0x4000_0000));
        lemma_order(q, Double::gigabytes(n));
    }
}

/// The memory score is the points for RAM, for paging and for swap, added up: no one
/// of them depends on another, and only their sum is capped.
pub proof fn memory_points_add_up(m: MetricsView)
    ensures
        m.mem_score() == capped(
            m.ram_points().plus(Single::of(paging_points(m.mem.swap_rate))).plus(
                Single::of(swap_points(m.mem.swap_used)),
            ).whole(),
        ),
{
    lemma2_to64();
    sizes_compare_as_integers(m.mem.swap_rate as nat, 20, 10);
    sizes_compare_as_integers(m.mem.swap_rate as nat, 20, 1);
    sizes_compare_as_integers(m.mem.swap_used as nat, 30, 2);
    lemma_half_a_gigabyte(m.mem.swap_used);
    let ram = m.ram_points();
    let seven_tenths = Single::of(7).over(Single::of(10));
    lemma_plus_nothing(Double { bits: 0 }, Single { bits: 0 });
    if m.mem.total == 0 {
        // nothing of nothing is in use
        lemma_seven_tenths();
        let f = SINGLE_BINADE as nat;
        lemma_pow2_pos(149);
        rounding::round_keeps(f, 0, Single::one());
        assert(rounding::units(f, 0) == 0);
        assert(0 * seven_tenths.units() == 0) by (nonlinear_arith);
        assert(0 * Single::one() == 0) by (nonlinear_arith);
        assert((Single { bits: 0 }).times(seven_tenths).bits == 0);
    }
    lemma_plus_nothing(Double { bits: 0 }, ram);
    let paging = ram.plus(Single::of(paging_points(m.mem.swap_rate)));
    lemma_plus_nothing(Double { bits: 0 }, paging);
    let total = paging.plus(Single::of(swap_points(m.mem.swap_used)));
    lemma_score_of_single(total);
}

/// Swap in use scores its points whatever the paging and the RAM: 15 above 2 GiB and 5
/// above half a GiB, give or take the rounding of one sum, and nothing below.
pub proof fn swap_counts_whatever_the_paging(m: MetricsView, swap_used: u64)
    ensures
        ({
            let none = m.with_swap(0).mem_score();
            let some = m.with_swap(swap_used).mem_score();
            &&& swap_used > 2 * 1_073_741_824 ==> capped((none + 15) as nat) <= some <= none + 16
            &&& 536_870_912 < swap_used <= 2 * 1_073_741_824 ==> capped((none + 5) as nat) <= some
                <= none + 6
            &&& swap_used <= 536_870_912 ==> some == none
        }),
{
    let points = swap_points(swap_used);
    memory_points_add_up(m.with_swap(0));
    memory_points_add_up(m.with_swap(swap_used));
    let x = m.ram_points().plus(Single::of(paging_points(m.mem.swap_rate)));
    assert(m.with_swap(0).ram_points() == m.ram_points());
    assert(m.with_swap(swap_used).ram_points() == m.ram_points());
    lemma_points(x, points);
    lemma_plus_nothing(Double { bits: 0 }, x);
}

/// Paging scores its points whatever the swap in use and the RAM: 40 above 10 MiB/s and
/// 20 above 1 MiB/s, give or take the rounding of sums, and nothing below.
pub proof fn paging_counts_whatever_the_swap(m: MetricsView, swap_rate: u64)
    ensures
        ({
            let none = m.with_paging(0).mem_score();
            let some = m.with_paging(swap_rate).mem_score();
            &&& swap_rate > 10 * 1_048_576 ==> capped((none + 39) as nat) <= some <= none + 41
            &&& 1_048_576 < swap_rate <= 10 * 1_048_576 ==> capped((none + 19) as nat) <= some
                <= none + 21
            &&& swap_rate <= 1_048_576 ==> some == none
        }),
{
    let points = paging_points(swap_rate);
    let more = swap_points(m.mem.swap_used);
    memory_points_add_up(m.with_paging(0));
    memory_points_add_up(m.with_paging(swap_rate));
    let x = m.ram_points();
    let y = x.plus(Single::of(points));
    assert(m.with_paging(0).ram_points() == x);
    assert(m.with_paging(swap_rate).ram_points() == x);
    lemma_plus_nothing(Double { bits: 0 }, Single { bits: 0 });
    lemma_plus_nothing(Double { bits: 0 }, x);
    lemma_points(x, points);
    lemma_points(x, more);
    lemma_points(y, more);
    if x.whole() < 100 && y == Single::of(x.whole() + points + 1) {
        single_integers_are_integers(x.whole() + points + 1, more);
        single_integers_are_integers(x.whole() + points + 1 + more, 0);
    }
}

/// Disk use scores by what is read and written together, in whole bytes a second: 60
/// points above 200 MiB/s, 40 above 80, 20 above 40, and half a point per MiB/s below.
pub proof fn disk_scores_the_total(m: MetricsView, read: nat, written: nat)
    requires
        read + written < 0x20_0000_0000_0000,
        m.disk.read_bps == Double::of(read),
        m.disk.write_bps == Double::of(written),
    ensures
        m.disk_score() == if read + written > 200 * 1_048_576 {
            60
        } else if read + written > 80 * 1_048_576 {
            40
        } else if read + written > 40 * 1_048_576 {
            20
        } else {
            (read + written) / 2_097_152
        },
{
    let n = read + written;
    let one = Double::one();
    lemma2_to64();
    lemma_pow2_pos(1074);
    double_integers_are_integers(read, written);
    sizes_compare_as_integers(n, 20, 200);
    sizes_compare_as_integers(n, 20, 80);
    sizes_compare_as_integers(n, 20, 40);
    double_integers_are_integers(60, 0);
    double_integers_are_integers(40, 0);
    double_integers_are_integers(20, 0);
    lemma_score_of_double(Double::of(60));
    lemma_score_of_double(Double::of(40));
    lemma_score_of_double(Double::of(20));
    halving_is_exact(n, 20);
    halving_is_exact(n, 21);
    let mbps = Double::of(n).over(Double::of(0x10_0000));
    let half = mbps.over(Double::of(2));
    let direct = Double::of(n).over(Double::of(0x20_0000));
    double_holds_integers(2);
    double_holds_integers(n);
    double_holds_integers(0x20_0000);
    lemma_double_of_is_finite(2);
    lemma_double_of_is_finite(0x20_0000);
    let a = mbps.units() * one;
    let b = (n * one) * one;
    let d = 2 * one;
    let e = 0x20_0000 * one;
    assert(a * e == b * d) by (nonlinear_arith)
        requires
            a == mbps.units() * one,
            b == (n * one) * one,
            d == 2 * one,
            e == 0x20_0000 * one,
            mbps.units() * 0x10_0000 == n * one,
    ;
    lemma_nearest_grows(a, d, b, e);
    lemma_nearest_grows(b, e, a, d);
    assert(half.bits == direct.bits);
    lemma_score_of_double(half);
    // the whole part
    lemma_fundamental_div_mod(n as int, 0x20_0000);
    let q = n / 0x20_0000;
    let r = n % 0x20_0000;
    assert(half.units() == one * q + (half.units() - one * q) && 0 <= half.units() - one * q < one) by (nonlinear_arith)
        requires
            half.units() * 0x20_0000 == n * one,
            n == 0x20_0000 * q + r,
            0 <= r < 0x20_0000,
            one >= 1,
    ;
    lemma_fundamental_div_mod_converse(
        half.units() as int,
        one as int,
        q as int,
        half.units() - one * q,
    );
}

/// At any rates the disk scores by their sum in MiB/s, in three steps above 40 and half a
/// point each below; the network by its sum, up to 50, with 30 points for lost packets.
pub proof fn traffic_points_add_up(m: MetricsView)
    ensures
        ({
            let mbps = m.disk.read_bps.plus(m.disk.write_bps).over(Double::of(1_048_576));
            let above = |k: nat| mbps.units() > k * Double::one();
            &&& above(200) ==> m.disk_score() == 60
            &&& above(80) && !above(200) ==> m.disk_score() == 40
            &&& above(40) && !above(80) ==> m.disk_score() == 20
            &&& !above(40) ==> m.disk_score() == mbps.over(Double::of(2)).whole()
        }),
        ({
            let mbps = m.net.rx_bps.plus(m.net.tx_bps).over(Double::of(1_048_576));
            let base = if mbps.units() > 50 * Double::one() {
                Double::of(50)
            } else {
                mbps
            };
            &&& m.net.errors == 0 && m.net.drops == 0 ==> m.net_score() == capped(
                base.narrowed().whole(),
            )
            &&& m.net.errors > 0 || m.net.drops > 0 ==> m.net_score() == capped(
                base.narrowed().plus(Single::of(30)).whole(),
            )
        }),
{
    let one = Double::one();
    lemma_pow2_pos(1074);
    double_holds_integers(200);
    double_holds_integers(80);
    double_holds_integers(40);
    double_holds_integers(50);
    double_holds_integers(2);
    double_holds_integers(20);
    double_integers_are_integers(60, 0);
    double_integers_are_integers(40, 0);
    double_integers_are_integers(20, 0);
    lemma_score_of_double(Double::of(60));
    lemma_score_of_double(Double::of(40));
    lemma_score_of_double(Double::of(20));
    let mbps = m.disk_mbps();
    let half = mbps.over(Double::of(2));
    lemma_score_of_double(half);
    if mbps.units() <= 40 * one {
        lemma_double_of_is_finite(2);
        lemma_order(mbps, Double::of(40));
        lemma_over_grows(mbps, Double::of(40), Double::of(2));
        division_is_exact(20, 2);
        lemma_order(half, Double::of(20));
        lemma_whole(half.units(), one, 20);
    }
    let base = m.net_mbps().smaller(Double::of(50)).narrowed();
    lemma_score_of_single(base);
    lemma_score_of_single(base.plus(Single::of(30)));
}

/// It makes no difference to the disk score which part was read and which was written,
/// nor to the network score which part came in and which went out.
pub proof fn scores_ignore_the_direction(m: MetricsView, turned: MetricsView)
    ensures
        turned.disk.read_bps == m.disk.write_bps && turned.disk.write_bps == m.disk.read_bps
            ==> turned.disk_score() == m.disk_score(),
        turned.net.rx_bps == m.net.tx_bps && turned.net.tx_bps == m.net.rx_bps
            && turned.net.errors == m.net.drops && turned.net.drops == m.net.errors
            ==> turned.net_score() == m.net_score(),
{
}

/// The network scores a point per MiB/s in and out together, up to 50, and 30 more
/// where packets are lost.
pub proof fn network_scores_the_total(m: MetricsView, received: nat, sent: nat, mbps: nat)
    requires
        received + sent == mbps * 1_048_576,
        received + sent < 0x20_0000_0000_0000,
        m.net.rx_bps == Double::of(received),
        m.net.tx_bps == Double::of(sent),
    ensures
        ({
            let base = if mbps < 50 {
                mbps
            } else {
                50
            };
            &&& m.net.errors == 0 && m.net.drops == 0 ==> m.net_score() == base
            &&& m.net.errors > 0 || m.net.drops > 0 ==> m.net_score() == base + 30
        }),
{
    let base: nat = if mbps < 50 {
        mbps
    } else {
        50
    };
    double_integers_are_integers(received, sent);
    division_is_exact(mbps, 1_048_576);
    double_integers_are_integers(mbps, 50);
    formats_share_integers(base);
    single_integers_are_integers(base, 30);
    single_integers_are_integers(base + 30, 0);
    lemma_score_of_single(Single::of(base));
    lemma_score_of_single(Single::of(base + 30));
}

/// Lost packets score 30 points at any throughput, give or take the rounding of one
/// sum.
pub proof fn lost_packets_score_at_any_throughput(m: MetricsView, clean: MetricsView)
    requires
        m.net.rx_bps == clean.net.rx_bps,
        m.net.tx_bps == clean.net.tx_bps,
        m.net.errors > 0 || m.net.drops > 0,
        clean.net.errors == 0,
        clean.net.drops == 0,
    ensures
        capped((clean.net_score() + 30) as nat) <= m.net_score() <= clean.net_score() + 31,
{
    let x = m.net_mbps().smaller(Double::of(50)).narrowed();
    lemma_points(x, 30);
    lemma_score_of_single(x);
    lemma_score_of_single(x.plus(Single::of(30)));
}

// ---------------------------------------------------------------------------
// What an impact counts
// ---------------------------------------------------------------------------

/// How much a share of CPU weighs while the CPU scores so many points: it counts once
/// more for every 50 of them.
pub open spec fn cpu_weight(cpu: Single, cpu_score: u8) -> Double {
    cpu.widened().times(Double::of(1).plus(Double::of(cpu_score as nat).over(Double::of(50))))
}

/// How much so many bytes of so many weigh, in percent, while memory scores so many
/// points.
pub open spec fn mem_weight(mem: u64, total: u64, mem_score: u8) -> Double {
    Double::of(mem as nat).over(Double::of(total as nat)).times(Double::of(100)).times(
        Double::of(1).plus(Double::of(mem_score as nat).over(Double::of(50))),
    )
}

/// How much so many bytes a second weigh, in MiB/s, while the disk scores so many
/// points.
pub open spec fn disk_weight(bps: Double, disk_score: u8) -> Double {
    bps.over(Double::of(1_048_576)).times(
        Double::of(1).plus(Double::of(disk_score as nat).over(Double::of(50))),
    )
}

/// The largest of three.
pub open spec fn most_of(a: nat, b: nat, c: nat) -> nat {
    if a >= b && a >= c {
        a
    } else if b >= c {
        b
    } else {
        c
    }
}

/// An impact is the whole part of the heaviest of three weights, at most 100. CPU use is
/// weighed by the CPU score alone, memory by the memory score alone and disk use by the
/// disk score alone. Weighing changes nothing else but the reason.
pub proof fn impact_is_that_of_the_heaviest_axis(e: EntryView, w: Weights)
    ensures
        e.weighed(w).impact == capped(
            most_of(
                cpu_weight(e.cpu, w.cpu_score).whole(),
                mem_weight(e.mem, w.total_mem, w.mem_score).whole(),
                disk_weight(e.disk_bps, w.disk_score).whole(),
            ),
        ),
        e.weighed(w) == (EntryView {
            impact: e.weighed(w).impact,
            why: e.weighed(w).why,
            ..e
        }),
{
    let c = cpu_weight(e.cpu, w.cpu_score);
    let m = mem_weight(e.mem, w.total_mem, w.mem_score);
    let d = disk_weight(e.disk_bps, w.disk_score);
    let one = Double::one() as int;
    lemma_pow2_pos(1074);
    lemma_score_of_double(c.larger(m).larger(d));
    if c.units() <= m.units() {
        lemma_div_is_ordered(c.units() as int, m.units() as int, one);
    } else {
        lemma_div_is_ordered(m.units() as int, c.units() as int, one);
    }
    if c.units() <= d.units() {
        lemma_div_is_ordered(c.units() as int, d.units() as int, one);
    } else {
        lemma_div_is_ordered(d.units() as int, c.units() as int, one);
    }
    if d.units() <= m.units() {
        lemma_div_is_ordered(d.units() as int, m.units() as int, one);
    } else {
        lemma_div_is_ordered(m.units() as int, d.units() as int, one);
    }
}

/// What is not used has no weight, however stressed its subsystem is.
proof fn lemma_no_weight(total: u64, score: u8)
    requires
        total > 0,
    ensures
        cpu_weight(Single { bits: 0 }, score).whole() == 0,
        mem_weight(0, total, score).whole() == 0,
        disk_weight(Double { bits: 0 }, score).whole() == 0,
{
    let f = DOUBLE_BINADE as nat;
    let one = Double::one();
    let zero = Double { bits: 0 };
    let boost = Double::of(1).plus(Double::of(score as nat).over(Double::of(50)));
    let hundred = Double::of(100);
    lemma_pow2_pos(1074);
    lemma_boost(score);
    assert(boost == Weights::boost(score));
    lemma_plus_nothing(zero, Single { bits: 0 });
    assert(rounding::units(f, 0) == 0);
    assert(rounding::units(SINGLE_BINADE as nat, 0) == 0);
    rounding::round_keeps(f, 0, one);
    rounding::round_keeps(f, 0, 1);
    lemma_double_of_is_finite(100);
    lemma_double_of_is_finite(total as nat);
    lemma_double_of_is_finite(1_048_576);
    let t = Double::of(total as nat);
    let mib = Double::of(1_048_576);
    lemma_order(t, zero);
    lemma_order(mib, zero);
    rounding::round_keeps(f, 0, t.units());
    rounding::round_keeps(f, 0, mib.units());
    assert(0 * boost.units() == 0) by (nonlinear_arith);
    assert(0 * hundred.units() == 0) by (nonlinear_arith);
    assert(0 * t.units() == 0) by (nonlinear_arith);
    assert(0 * mib.units() == 0) by (nonlinear_arith);
    assert(0 * one == 0) by (nonlinear_arith);
    assert(0 * pow2(925) == 0) by (nonlinear_arith);
    assert(zero.times(boost) == zero);
    assert(zero.times(hundred) == zero);
    assert(zero.over(t) == zero);
    assert(zero.over(mib) == zero);
    assert((Single { bits: 0 }).widened() == zero);
    assert(0nat / one == 0) by {
        lemma_div_basics(one as int);
    }
}

/// The impact of a program that only holds memory is its percentage of RAM, once and
/// once more for every 50 points of the memory score, whatever the other scores are; and
/// likewise for one that only uses the CPU, and for one that only uses the disk.
pub proof fn impact_of_one_axis_needs_its_score_alone(e: EntryView, w: Weights)
    requires
        w.total_mem > 0,
    ensures
        e.cpu.bits == 0 && e.disk_bps.bits == 0 ==> e.weighed(w).impact == capped(
            mem_weight(e.mem, w.total_mem, w.mem_score).whole(),
        ),
        e.mem == 0 && e.disk_bps.bits == 0 ==> e.weighed(w).impact == capped(
            cpu_weight(e.cpu, w.cpu_score).whole(),
        ),
        e.cpu.bits == 0 && e.mem == 0 ==> e.weighed(w).impact == capped(
            disk_weight(e.disk_bps, w.disk_score).whole(),
        ),
{
    impact_is_that_of_the_heaviest_axis(e, w);
    lemma_no_weight(w.total_mem, w.cpu_score);
    lemma_no_weight(w.total_mem, w.mem_score);
    lemma_no_weight(w.total_mem, w.disk_score);
}

/// At a score of 50 times `j`, a whole figure counts `j + 1` times: a percentage of CPU,
/// MiB/s of disk use, and a percentage of RAM that is `n` in a hundred.
pub proof fn stress_multiplies_the_impact(e: EntryView, w: Weights, n: nat, j: nat)
    requires
        w.total_mem > 0,
        n < 0x10_0000,
        j <= 5,
    ensures
        e.mem == 0 && e.disk_bps.bits == 0 && e.cpu == Single::of(n) && w.cpu_score == 50 * j
            ==> e.weighed(w).impact == capped(n * (j + 1)),
        e.cpu.bits == 0 && e.mem == 0 && e.disk_bps == Double::of(n * 1_048_576) && w.disk_score
            == 50 * j ==> e.weighed(w).impact == capped(n * (j + 1)),
        e.cpu.bits == 0 && e.disk_bps.bits == 0 && e.mem == n * w.total_mem && e.mem
            < 0x20_0000_0000_0000 && w.mem_score == 50 * j ==> e.weighed(w).impact == capped(
            n * 100 * (j + 1),
        ),
{
    impact_of_one_axis_needs_its_score_alone(e, w);
    assert(j * 50 == 50 * j);
    division_is_exact(j, 50);
    double_integers_are_integers(1, j);
    formats_share_integers(n);
    assert(n * (j + 1) < 0x20_0000_0000_0000) by (nonlinear_arith)
        requires
            n < 0x10_0000,
            j <= 5,
    ;
    double_integers_are_integers(n, j + 1);
    double_integers_are_integers(n * (j + 1), 0);
    assert(n * 1_048_576 < 0x20_0000_0000_0000);
    division_is_exact(n, 1_048_576);
    if e.mem == n * w.total_mem && e.mem < 0x20_0000_0000_0000 {
        let t = w.total_mem as nat;
        if n == 0 {
            lemma_no_weight(w.total_mem, w.mem_score);
            assert(n * t == 0) by (nonlinear_arith)
                requires
                    n == 0,
            ;
            assert(n * 100 * (j + 1) == 0) by (nonlinear_arith)
                requires
                    n == 0,
            ;
        } else {
            assert(t <= n * t) by (nonlinear_arith)
                requires
                    n >= 1,
            ;
            division_is_exact(n, t);
            double_integers_are_integers(n, 100);
            assert(n * 100 * (j + 1) < 0x20_0000_0000_0000) by (nonlinear_arith)
                requires
                    n < 0x10_0000,
                    j <= 5,
            ;
            double_integers_are_integers(n * 100, j + 1);
            double_integers_are_integers(n * 100 * (j + 1), 0);
        }
    }
}

/// The reason names, in capitals, each axis that weighs 10 or more, and in small
/// letters the heaviest one where none does.
pub proof fn reasons_name_the_axes(e: EntryView, w: Weights)
    ensures
        ({
            let c = cpu_weight(e.cpu, w.cpu_score);
            let m = mem_weight(e.mem, w.total_mem, w.mem_score);
            let d = disk_weight(e.disk_bps, w.disk_score);
            let ten = |x: Double| x.whole() >= 10;
            e.weighed(w).why == match (ten(c), ten(m), ten(d)) {
                (true, true, true) => "CPU+MEM+DISK"@,
                (true, true, false) => "CPU+MEM"@,
                (true, false, true) => "CPU+DISK"@,
                (false, true, true) => "MEM+DISK"@,
                (true, false, false) => "CPU"@,
                (false, true, false) => "MEM"@,
                (false, false, true) => "DISK"@,
                (false, false, false) => if c.units() >= m.units() && c.units() >= d.units() {
                    "cpu"@
                } else if m.units() >= d.units() {
                    "mem"@
                } else {
                    "disk"@
                },
            }
        }),
{
    assert forall|x: Double| #[trigger] x.whole() >= 10 <==> x.ge(Double::of(10)) by {
        let one = Double::one();
        lemma_pow2_pos(1074);
        double_holds_integers(10);
        lemma_fundamental_div_mod(x.units() as int, one as int);
        lemma_div_multiples_vanish(10, one as int);
        assert(10 * one == one * 10);
        if x.units() >= 10 * one {
            lemma_div_is_ordered((10 * one) as int, x.units() as int, one as int);
        } else if x.whole() >= 10 {
            let q = x.whole();
            assert(one * q >= 10 * one) by (nonlinear_arith)
                requires
                    q >= 10,
            ;
        }
    }
}

/// An integer is at least a tenth, and at least a hundredth, where it is not zero.
pub(crate) proof fn lemma_tenth(n: nat)
    requires
        n < 0x20_0000_0000_0000,
    ensures
        Double::of(n).ge(Double::of(1).over(Double::of(10))) <==> n > 0,
        Double::of(n).ge(Double::of(1).over(Double::of(100))) <==> n > 0,
{
    let f = DOUBLE_BINADE as nat;
    let one = Double::one();
    lemma_pow2_pos(1074);
    lemma2_to64();
    lemma_pow2_strictly_increases(10, 1074);
    double_holds_integers(n);
    double_holds_integers(1);
    double_holds_integers(10);
    double_holds_integers(100);
    lemma_double_of_is_finite(10);
    lemma_double_of_is_finite(100);
    let tenth = Double::of(1).over(Double::of(10));
    let hundredth = Double::of(1).over(Double::of(100));
    assert(((1 * one) * one) * 1 <= (1 * one) * (10 * one)) by (nonlinear_arith);
    assert(((1 * one) * one) * 1 <= (1 * one) * (100 * one)) by (nonlinear_arith);
    lemma_nearest_grows((1 * one) * one, 10 * one, 1 * one, 1);
    lemma_nearest_grows((1 * one) * one, 100 * one, 1 * one, 1);
    lemma_order(tenth, Double::of(1));
    lemma_order(hundredth, Double::of(1));
    assert((1 * one) * one >= 100 * one) by (nonlinear_arith)
        requires
            one >= 100,
    ;
    lemma_positive(f, (1 * one) * one, 10 * one);
    lemma_positive(f, (1 * one) * one, 100 * one);
    assert(rounding::units(f, 0) == 0);
    lemma_order(Double { bits: 0 }, tenth);
    lemma_order(Double { bits: 0 }, hundredth);
    lemma_order(tenth, Double { bits: 0 });
    lemma_order(hundredth, Double { bits: 0 });
    assert(0 * one == 0) by (nonlinear_arith);
    if n > 0 {
        assert(n * one >= 1 * one) by (nonlinear_arith)
            requires
                n >= 1,
        ;
    }
}

} // verus!
