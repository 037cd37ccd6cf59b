//! Numbers in the two IEEE 754 formats that readings come in, held by their bit
//! patterns: `Single` (32 bits) and `Double` (64 bits), non-negative or infinite.
use crate::rounding;
use vstd::arithmetic::div_mod::*;
use vstd::arithmetic::power2::*;
use vstd::prelude::*;

verus! {

/// Patterns per binade of a `Single`: `2^23`.
pub const SINGLE_BINADE: u64 = 0x80_0000;

/// The pattern of infinity as a `Single`.
pub const SINGLE_INFINITY: u64 = 0x7f80_0000;

/// Patterns per binade of a `Double`: `2^52`.
pub const DOUBLE_BINADE: u64 = 0x10_0000_0000_0000;

/// The pattern of infinity as a `Double`.
pub const DOUBLE_INFINITY: u64 = 0x7ff0_0000_0000_0000;

pub open spec fn at_most(x: nat, limit: nat) -> nat {
    if x < limit {
        x
    } else {
        limit
    }
}

pub open spec fn up(k: int) -> nat {
    if k >= 0 {
        pow2(k as nat)
    } else {
        1
    }
}

/// `2^s`.
fn two_to(s: u32) -> (r: u128)
    requires
        s <= 127,
    ensures
        r == pow2(s as nat),
{
    let mut r: u128 = 1;
    let mut i: u32 = 0;
    proof {
        lemma2_to64();
    }
    while i < s
        invariant
            i <= s <= 127,
            r == pow2(i as nat),
        decreases s - i,
    {
        proof {
            rounding::lemma_double(i as nat);
            lemma_bound_127((i + 1) as nat);
        }
        r = r * 2;
        i = i + 1;
    }
    r
}

proof fn lemma_pow2_le(a: nat, b: nat)
    requires
        a <= b,
    ensures
        pow2(a) <= pow2(b),
{
    if a < b {
        lemma_pow2_strictly_increases(a, b);
    }
}

proof fn lemma_128()
    ensures
        pow2(128) == u128::MAX + 1,
        pow2(127) == 0x8000_0000_0000_0000_0000_0000_0000_0000,
        pow2(64) == 0x1_0000_0000_0000_0000,
        pow2(52) == 0x10_0000_0000_0000,
        pow2(23) == 0x80_0000,
{
    lemma2_to64();
    lemma2_to64_rest();
    lemma_pow2_adds(64, 64);
    assert(0x1_0000_0000_0000_0000 * 0x1_0000_0000_0000_0000 == u128::MAX + 1) by (nonlinear_arith);
    rounding::lemma_double(127);
}

proof fn lemma_bound_127(i: nat)
    requires
        i <= 127,
    ensures
        pow2(i) <= u128::MAX,
{
    lemma_128();
    lemma_pow2_le(i, 127);
}

/// The number of binary digits of `m`.
fn bit_count(m: u128) -> (r: u32)
    requires
        m >= 1,
    ensures
        rounding::has_bits(m as nat, r as nat),
        1 <= r <= 128,
{
    let mut t: u128 = m;
    let mut i: u32 = 0;
    proof {
        lemma2_to64();
    }
    while t > 1
        invariant
            t >= 1,
            t * pow2(i as nat) <= m < (t + 1) * pow2(i as nat),
            i <= 127,
        decreases t,
    {
        proof {
            rounding::lemma_double(i as nat);
            let u = (t / 2) as nat;
            let p = pow2(i as nat);
            assert(u * (2 * p) <= t * p) by (nonlinear_arith)
                requires
                    2 * u <= t,
            ;
            assert((t + 1) * p <= (u + 1) * (2 * p)) by (nonlinear_arith)
                requires
                    t + 1 <= 2 * u + 2,
            ;
            if i == 127 {
                lemma_128();
                assert(t * p >= 2 * p) by (nonlinear_arith)
                    requires
                        t >= 2,
                ;
            }
        }
        t = t / 2;
        i = i + 1;
    }
    proof {
        rounding::lemma_double(i as nat);
    }
    i + 1
}

/// `m / 2^s`, rounded to the nearest integer.
fn shift_round(m: u128, s: u32) -> (r: u128)
    ensures
        r == rounding::nearest(m as nat, pow2(s as nat)),
        r <= m as nat + 1,
{
    proof {
        lemma_128();
        lemma_pow2_pos(s as nat);
    }
    if s >= 128 {
        proof {
            lemma_pow2_le(128, s as nat);
            lemma_fundamental_div_mod_converse(m as int, pow2(s as nat) as int, 0, m as int);
            if s >= 129 {
                rounding::lemma_double(128);
                lemma_pow2_le(129, s as nat);
            }
        }
        if s == 128 && m > 0x8000_0000_0000_0000_0000_0000_0000_0000 {
            1
        } else {
            0
        }
    } else {
        let d: u128 = two_to(s);
        let q: u128 = m / d;
        let r: u128 = m % d;
        proof {
            lemma_fundamental_div_mod(m as int, d as int);
            assert(q <= m) by (nonlinear_arith)
                requires
                    m == d * q + r,
                    d >= 1,
                    q >= 0,
                    r >= 0,
            ;
            if q == u128::MAX {
                assert(d == 1) by (nonlinear_arith)
                    requires
                        m == d * q + r,
                        d >= 1,
                        q == u128::MAX,
                        m <= u128::MAX,
                        r >= 0,
                ;
            }
        }
        if r > d - r || (r == d - r && q % 2 == 1) {
            q + 1
        } else {
            q
        }
    }
}

/// The pattern nearest to `m * 2^k` units, where a number has `p` significant
/// binary digits and a binade holds `f` patterns.
fn encode(f: u64, p: u32, infinity: u64, m: u128, k: i32) -> (r: u64)
    requires
        1 <= p <= 53,
        f == pow2((p - 1) as nat),
        -6000 <= k <= 6000,
    ensures
        r == at_most(rounding::round(f as nat, m as nat * up(k as int), up(-k)), infinity as nat),
{
    if m == 0 {
        proof {
            lemma_pow2_pos((p - 1) as nat);
            if k < 0 {
                lemma_pow2_pos((-k) as nat);
            } else {
                lemma_pow2_pos(k as nat);
            }
            assert(0 * up(k as int) == 0) by (nonlinear_arith);
            assert(2 * f * up(-k) >= 1) by (nonlinear_arith)
                requires
                    f >= 1,
                    up(-k) >= 1,
            ;
            rounding::lemma_nearest_exact(0, up(-k));
        }
        return 0;
    }
    let l: i32 = bit_count(m) as i32;
    let want: i32 = l - p as i32;
    let s: i32 = if want >= -k {
        want
    } else {
        -k
    };
    let j: i32 = k + s;
    let sig: u128;
    if s >= 0 {
        sig = shift_round(m, s as u32);
        proof {
            lemma_encode_down(f as nat, p as nat, m as nat, l as nat, k as int, s as nat, j as nat);
        }
    } else {
        proof {
            lemma_encode_up(f as nat, p as nat, m as nat, l as nat, k as int, (-s) as nat, j as nat);
            lemma_128();
            lemma_pow2_le(p as nat, 64);
        }
        sig = m * two_to((-s) as u32);
    }
    proof {
        lemma_128();
        lemma_pow2_le((p - 1) as nat, 52);
        assert(j * f <= 7000 * 0x10_0000_0000_0000) by (nonlinear_arith)
            requires
                0 <= j <= 7000,
                0 <= f <= 0x10_0000_0000_0000,
        ;
        assert(j * f >= 0) by (nonlinear_arith)
            requires
                0 <= j,
                0 <= f,
        ;
    }
    let total: u128 = (j as u128) * (f as u128) + sig;
    if total < infinity as u128 {
        total as u64
    } else {
        infinity
    }
}

proof fn lemma_encode_down(f: nat, p: nat, m: nat, l: nat, k: int, s: nat, j: nat)
    requires
        1 <= p <= 53,
        f == pow2((p - 1) as nat),
        rounding::has_bits(m, l),
        s == if l - p >= -k { l - p } else { -k },
        j == k + s,
    ensures
        rounding::round(f, m * up(k), up(-k)) == j * f + rounding::nearest(m, pow2(s)),
        rounding::nearest(m, pow2(s)) <= 2 * f,
{
    let n = m * up(k);
    let d = up(-k);
    let kp: nat = if k >= 0 {
        k as nat
    } else {
        0
    };
    let kn: nat = if k >= 0 {
        0
    } else {
        (-k) as nat
    };
    lemma2_to64();
    lemma_pow2_pos(kp);
    lemma_pow2_pos(kn);
    lemma_pow2_pos(s);
    lemma_pow2_pos((p - 1) as nat);
    lemma_pow2_adds(kn, j);
    lemma_pow2_adds(kp, s);
    assert(kn + j == kp + s);
    assert(up(k) == pow2(kp));
    assert(d == pow2(kn));
    assert(d * pow2(j) == pow2(s) * pow2(kp)) by (nonlinear_arith)
        requires
            d == pow2(kn),
            pow2(kn) * pow2(j) == pow2(kn + j),
            pow2(kp) * pow2(s) == pow2(kp + s),
            kn + j == kp + s,
    ;
    lemma_pow2_adds((p - 1) as nat, s);
    rounding::lemma_double((p - 1 + s) as nat);
    // m < 2 * f * 2^s
    lemma_pow2_le(l, p + s);
    assert(m < 2 * (f * pow2(s)));
    assert(n < 2 * f * (d * pow2(j))) by (nonlinear_arith)
        requires
            n == m * pow2(kp),
            d * pow2(j) == pow2(s) * pow2(kp),
            m < 2 * (f * pow2(s)),
            pow2(kp) >= 1,
    ;
    if j != 0 {
        assert(s == l - p);
        assert(f * pow2(s) <= m);
        assert(f * (d * pow2(j)) <= n) by (nonlinear_arith)
            requires
                n == m * pow2(kp),
                d * pow2(j) == pow2(s) * pow2(kp),
                f * pow2(s) <= m,
                pow2(kp) >= 1,
        ;
    }
    rounding::lemma_round_at(f, n, d, j);
    rounding::lemma_nearest_scale(m, pow2(s), pow2(kp));
    // bound
    let q = m / pow2(s);
    lemma_fundamental_div_mod(m as int, pow2(s) as int);
    assert(q < 2 * f) by (nonlinear_arith)
        requires
            m == pow2(s) * q + m % pow2(s),
            m % pow2(s) >= 0,
            m < 2 * (f * pow2(s)),
            pow2(s) >= 1,
    ;
}

proof fn lemma_encode_up(f: nat, p: nat, m: nat, l: nat, k: int, t: nat, j: nat)
    requires
        1 <= p <= 53,
        f == pow2((p - 1) as nat),
        rounding::has_bits(m, l),
        t >= 1,
        -t == if l - p >= -k { l - p } else { -k },
        j == k - t,
    ensures
        rounding::round(f, m * up(k), up(-k)) == j * f + m * pow2(t),
        m * pow2(t) < 2 * f,
        t <= 53,
{
    let n = m * up(k);
    lemma2_to64();
    assert(up(k) == pow2(k as nat));
    assert(up(-k) == 1);
    lemma_pow2_adds(j, t);
    lemma_pow2_adds(l, t);
    lemma_pow2_adds((l - 1) as nat, t);
    lemma_pow2_pos(t);
    lemma_pow2_pos(j);
    lemma_pow2_pos(l);
    rounding::lemma_double((p - 1) as nat);
    lemma_pow2_le(l + t, p);
    let c = m * pow2(t);
    assert(c < 2 * f) by (nonlinear_arith)
        requires
            c == m * pow2(t),
            m < pow2(l),
            pow2(l) * pow2(t) <= 2 * f,
            pow2(t) >= 1,
    ;
    assert(n == c * pow2(j)) by (nonlinear_arith)
        requires
            n == m * pow2(k as nat),
            pow2(j) * pow2(t) == pow2(k as nat),
            c == m * pow2(t),
    ;
    assert(1 * pow2(j) == pow2(j));
    assert(n < 2 * f * pow2(j)) by (nonlinear_arith)
        requires
            n == c * pow2(j),
            c < 2 * f,
            pow2(j) >= 1,
    ;
    if j != 0 {
        assert(l + t == p);
        assert(f <= c) by (nonlinear_arith)
            requires
                c == m * pow2(t),
                pow2((l - 1) as nat) <= m,
                pow2((l - 1) as nat) * pow2(t) == f,
                pow2(t) >= 1,
        ;
        assert(f * pow2(j) <= n) by (nonlinear_arith)
            requires
                n == c * pow2(j),
                f <= c,
                pow2(j) >= 1,
        ;
    }
    rounding::lemma_round_at(f, n, 1, j);
    rounding::lemma_nearest_exact(c, pow2(j));
}

proof fn lemma_bits_exist(q: nat) -> (l: nat)
    requires
        q >= 1,
    ensures
        rounding::has_bits(q, l),
    decreases q,
{
    lemma2_to64();
    if q == 1 {
        1
    } else {
        let i = lemma_bits_exist(q / 2);
        rounding::lemma_double(i);
        rounding::lemma_double((i - 1) as nat);
        i + 1
    }
}

/// A quotient of `a * 2^c` by `m2 * 2^k2` rounds as its whole part does, doubled,
/// with one added where the division leaves a remainder.
proof fn lemma_quotient(f: nat, p: nat, a: nat, c: nat, m2: nat, k2: nat, q: nat, r: nat)
    requires
        1 <= p <= 53,
        f == pow2((p - 1) as nat),
        a == q * m2 + r,
        r < m2,
        q >= pow2(60),
    ensures
        ({
            let m = 2 * q + if r == 0 {
                0nat
            } else {
                1nat
            };
            let e = c - k2 - 1;
            rounding::round(f, a * pow2(c), m2 * pow2(k2)) == rounding::round(f, m * up(e), up(-e))
        }),
{
    let st: nat = if r == 0 {
        0
    } else {
        1
    };
    let m = 2 * q + st;
    let e = c - k2;
    let n = a * pow2(c);
    let d = m2 * pow2(k2);
    lemma_pow2_pos(60);
    let l = lemma_bits_exist(q);
    if l <= 60 {
        lemma_pow2_le(l, 60);
    }
    let s: nat = if l - p >= -e {
        (l - p) as nat
    } else {
        (-e) as nat
    };
    let j: nat = (e + s) as nat;
    rounding::lemma_double(l);
    rounding::lemma_double((l - 1) as nat);
    assert(rounding::has_bits(m, l + 1));
    lemma_encode_down(f, p, m, l + 1, e - 1, s + 1, j);
    let h = pow2((s - 1) as nat);
    rounding::lemma_double((s - 1) as nat);
    rounding::lemma_double(s);
    let w = m2 * pow2(c);
    lemma_pow2_pos(c);
    lemma_pow2_pos(k2);
    lemma_pow2_pos(s);
    lemma_pow2_pos((p - 1) as nat);
    lemma_pow2_adds(k2, j);
    lemma_pow2_adds(c, s);
    assert(k2 + j == c + s);
    assert(d * pow2(j) == w * pow2(s)) by (nonlinear_arith)
        requires
            d == m2 * pow2(k2),
            w == m2 * pow2(c),
            pow2(k2) * pow2(j) == pow2(k2 + j),
            pow2(c) * pow2(s) == pow2(c + s),
            k2 + j == c + s,
    ;
    let rr = r * pow2(c);
    assert(n == q * w + rr) by (nonlinear_arith)
        requires
            n == a * pow2(c),
            a == q * m2 + r,
            w == m2 * pow2(c),
            rr == r * pow2(c),
    ;
    assert(rr < w) by (nonlinear_arith)
        requires
            rr == r * pow2(c),
            w == m2 * pow2(c),
            r < m2,
            pow2(c) >= 1,
    ;
    assert((rr == 0) == (r == 0)) by (nonlinear_arith)
        requires
            rr == r * pow2(c),
            pow2(c) >= 1,
    ;
    // q < 2 * f * 2^s
    lemma_pow2_adds((p - 1) as nat, s);
    rounding::lemma_double((p - 1 + s) as nat);
    lemma_pow2_le(l, p + s);
    assert(q + 1 <= 2 * (f * pow2(s)));
    assert(n < 2 * f * (d * pow2(j))) by (nonlinear_arith)
        requires
            n == q * w + rr,
            rr < w,
            q + 1 <= 2 * (f * pow2(s)),
            d * pow2(j) == w * pow2(s),
    ;
    if j != 0 {
        assert(s == l - p);
        assert(f * pow2(s) <= q);
        assert(f * (d * pow2(j)) <= n) by (nonlinear_arith)
            requires
                n == q * w + rr,
                rr >= 0,
                f * pow2(s) <= q,
                d * pow2(j) == w * pow2(s),
                w >= 0,
        ;
    }
    assert(d >= 1) by (nonlinear_arith)
        requires
            d == m2 * pow2(k2),
            m2 >= 1,
            pow2(k2) >= 1,
    ;
    rounding::lemma_round_at(f, n, d, j);
    rounding::lemma_nearest_sticky(n, q, rr, w, h);
    assert(w * (2 * h) == d * pow2(j));
    assert(4 * h == pow2(s + 1));
}

/// Takes a pattern apart: it is worth `m * 2^k` units.
fn decode(f: u64, bits: u64) -> (r: (u64, i32))
    requires
        f == SINGLE_BINADE || f == DOUBLE_BINADE,
        f == SINGLE_BINADE ==> bits <= u32::MAX,
    ensures
        rounding::units(f as nat, bits as nat) == r.0 * pow2(r.1 as nat),
        r.0 < 2 * f,
        r.1 == 0 || r.0 >= f,
        0 <= r.1 <= 4094,
        r.1 * f + r.0 == bits,
{
    if bits < 2 * f {
        proof {
            lemma2_to64();
            assert(bits * pow2(0) == bits);
        }
        (bits, 0)
    } else {
        let e: u64 = bits / f;
        let m: u64 = f + bits % f;
        proof {
            lemma_fundamental_div_mod(bits as int, f as int);
            assert((e - 1) * f + m == bits) by (nonlinear_arith)
                requires
                    bits == f * e + bits % f,
                    m == f + bits % f,
            ;
            let k = (e - 1) as nat;
            rounding::lemma_units_at(f as nat, k, m as nat);
            assert(k * (f as nat) + m as nat == bits as nat);
        }
        (m, (e - 1) as i32)
    }
}

/// The pattern of the sum of two numbers.
fn sum(f: u64, p: u32, infinity: u64, a: u64, b: u64) -> (r: u64)
    requires
        (f == SINGLE_BINADE && p == 24 && a <= u32::MAX && b <= u32::MAX) || (f == DOUBLE_BINADE
            && p == 53),
    ensures
        r == at_most(
            rounding::round(
                f as nat,
                rounding::units(f as nat, a as nat) + rounding::units(f as nat, b as nat),
                1,
            ),
            infinity as nat,
        ),
{
    let x = decode(f, a);
    let y = decode(f, b);
    proof {
        lemma_128();
    }
    if x.1 >= y.1 {
        sum_aligned(f, p, infinity, x.0, x.1, y.0, y.1)
    } else {
        sum_aligned(f, p, infinity, y.0, y.1, x.0, x.1)
    }
}

/// The pattern of `m1 * 2^k1 + m2 * 2^k2` units.
fn sum_aligned(f: u64, p: u32, infinity: u64, m1: u64, k1: i32, m2: u64, k2: i32) -> (r: u64)
    requires
        1 <= p <= 53,
        f == pow2((p - 1) as nat),
        m1 < 2 * f,
        m2 < 2 * f,
        k1 == 0 || m1 >= f,
        0 <= k2 <= k1 <= 4094,
    ensures
        r == at_most(
            rounding::round(f as nat, m1 as nat * pow2(k1 as nat) + m2 as nat * pow2(k2 as nat), 1),
            infinity as nat,
        ),
{
    let gap: i32 = k1 - k2;
    let ghost n = m1 * pow2(k1 as nat) + m2 * pow2(k2 as nat);
    proof {
        lemma_128();
        lemma2_to64();
        lemma_pow2_le((p - 1) as nat, 52);
        lemma_pow2_adds(k2 as nat, gap as nat);
        lemma_pow2_pos(k2 as nat);
        lemma_pow2_pos((p - 1) as nat);
    }
    if gap <= 70 {
        let w: u128 = two_to(gap as u32);
        proof {
            lemma_pow2_le(gap as nat, 70);
            lemma_pow2_adds(64, 6);
            assert(pow2(6) == 64);
            assert(m1 * w <= 0x20_0000_0000_0000 * (0x1_0000_0000_0000_0000 * 64)) by (nonlinear_arith)
                requires
                    0 <= m1 <= 0x20_0000_0000_0000,
                    0 <= w <= 0x1_0000_0000_0000_0000 * 64,
            ;
            let total = (m1 * w + m2) as nat;
            assert(n == total * pow2(k2 as nat)) by (nonlinear_arith)
                requires
                    n == m1 * pow2(k1 as nat) + m2 * pow2(k2 as nat),
                    pow2(k2 as nat) * w == pow2(k1 as nat),
                    total == m1 * w + m2,
            ;
        }
        let total: u128 = (m1 as u128) * w + m2 as u128;
        encode(f, p, infinity, total, k2)
    } else {
        proof {
            let small = (m2 * pow2(k2 as nat)) as nat;
            lemma_pow2_le(70, (gap - 1) as nat);
            rounding::lemma_double((gap - 1) as nat);
            lemma_pow2_adds(64, 6);
            assert(pow2(6) == 64);
            assert(2 * small < pow2(k1 as nat)) by (nonlinear_arith)
                requires
                    small == m2 * pow2(k2 as nat),
                    m2 < 0x20_0000_0000_0000,
                    pow2(k2 as nat) * pow2(gap as nat) == pow2(k1 as nat),
                    pow2(gap as nat) >= 2 * (0x1_0000_0000_0000_0000 * 64),
                    pow2(k2 as nat) >= 1,
            ;
            let big = pow2(k1 as nat);
            assert(n < 2 * f * (1 * big)) by (nonlinear_arith)
                requires
                    n == m1 * big + small,
                    small < big,
                    m1 + 1 <= 2 * f,
            ;
            assert(f * (1 * big) <= n) by (nonlinear_arith)
                requires
                    n == m1 * big + small,
                    m1 >= f,
                    small >= 0,
                    big >= 0,
            ;
            assert(1 * big == big);
            rounding::lemma_round_at(f as nat, n as nat, 1, k1 as nat);
            rounding::lemma_nearest_just_above(n as nat, m1 as nat, small, big);
            assert(k1 * f <= 4094 * 0x10_0000_0000_0000) by (nonlinear_arith)
                requires
                    0 <= k1 <= 4094,
                    0 <= f <= 0x10_0000_0000_0000,
            ;
        }
        let total: u64 = (k1 as u64) * f + m1;
        if total < infinity {
            total
        } else {
            infinity
        }
    }
}

/// The pattern of `m1 * 2^k1 - m2 * 2^k2` units, which is not negative.
fn difference(f: u64, p: u32, infinity: u64, m1: u64, k1: i32, m2: u64, k2: i32) -> (r: u64)
    requires
        2 <= p <= 53,
        f == pow2((p - 1) as nat),
        m1 < 2 * f,
        m2 < 2 * f,
        k1 == 0 || m1 >= f,
        0 <= k2 <= k1 <= 4094,
        m1 as nat * pow2(k1 as nat) >= m2 as nat * pow2(k2 as nat),
    ensures
        r == at_most(
            rounding::round(
                f as nat,
                (m1 as nat * pow2(k1 as nat) - m2 as nat * pow2(k2 as nat)) as nat,
                1,
            ),
            infinity as nat,
        ),
{
    let gap: i32 = k1 - k2;
    let ghost n = m1 * pow2(k1 as nat) - m2 * pow2(k2 as nat);
    proof {
        lemma_128();
        lemma2_to64();
        lemma_pow2_le((p - 1) as nat, 52);
        lemma_pow2_adds(k2 as nat, gap as nat);
        lemma_pow2_pos(k2 as nat);
        lemma_pow2_pos((p - 1) as nat);
    }
    if gap <= 72 {
        let w: u128 = two_to(gap as u32);
        proof {
            lemma_pow2_le(gap as nat, 72);
            lemma_pow2_adds(64, 8);
            assert(pow2(8) == 256);
            assert(m1 * w <= 0x20_0000_0000_0000 * (0x1_0000_0000_0000_0000 * 256)) by (nonlinear_arith)
                requires
                    0 <= m1 <= 0x20_0000_0000_0000,
                    0 <= w <= 0x1_0000_0000_0000_0000 * 256,
            ;
            assert(n == (m1 * w - m2) * pow2(k2 as nat)) by (nonlinear_arith)
                requires
                    n == m1 * pow2(k1 as nat) - m2 * pow2(k2 as nat),
                    pow2(k2 as nat) * w == pow2(k1 as nat),
            ;
            assert(m1 * w - m2 >= 0) by (nonlinear_arith)
                requires
                    n == (m1 * w - m2) * pow2(k2 as nat),
                    n >= 0,
                    pow2(k2 as nat) >= 1,
            ;
        }
        let rest: u128 = (m1 as u128) * w - m2 as u128;
        encode(f, p, infinity, rest, k2)
    } else {
        proof {
            let small = (m2 * pow2(k2 as nat)) as nat;
            lemma_pow2_le(71, (gap - 2) as nat);
            lemma_pow2_le(1, (p - 1) as nat);
            rounding::lemma_double(71);
            rounding::lemma_double((gap - 1) as nat);
            rounding::lemma_double((gap - 2) as nat);
            lemma_pow2_adds(64, 8);
            assert(pow2(8) == 256);
            let big = pow2(k1 as nat);
            assert(4 * small < big) by (nonlinear_arith)
                requires
                    small == m2 * pow2(k2 as nat),
                    m2 < 0x20_0000_0000_0000,
                    pow2(k2 as nat) * pow2(gap as nat) == big,
                    pow2(gap as nat) >= 2 * (0x1_0000_0000_0000_0000 * 256),
                    pow2(k2 as nat) >= 1,
            ;
            lemma_just_below(f as nat, m1 as nat, k1 as nat, small);
            assert(k1 * f <= 4094 * 0x10_0000_0000_0000) by (nonlinear_arith)
                requires
                    0 <= k1 <= 4094,
                    0 <= f <= 0x10_0000_0000_0000,
            ;
        }
        let total: u64 = (k1 as u64) * f + m1;
        if total < infinity {
            total
        } else {
            infinity
        }
    }
}

/// What is a little below a number rounds to that number.
proof fn lemma_just_below(f: nat, m: nat, k: nat, small: nat)
    requires
        f >= 2,
        f <= m < 2 * f,
        k >= 1,
        4 * small < pow2(k),
    ensures
        rounding::round(f, (m * pow2(k) - small) as nat, 1) == k * f + m,
{
    let big = pow2(k);
    let n = (m * big - small) as nat;
    lemma2_to64();
    lemma_pow2_pos(k);
    assert(m * big >= big) by (nonlinear_arith)
        requires
            m >= 1,
            big >= 1,
    ;
    if small == 0 {
        lemma_at(f, m, k, n, big);
        rounding::lemma_round_at(f, n, 1, k);
        rounding::lemma_nearest_exact(m, big);
    } else if m > f {
        // n == (m - 1) * big + (big - small)
        assert(n == (m - 1) * big + (big - small)) by (nonlinear_arith)
            requires
                n == m * big - small,
        ;
        assert(f * (1 * big) <= n) by (nonlinear_arith)
            requires
                n == (m - 1) * big + (big - small),
                m - 1 >= f,
                small <= big,
        ;
        assert(n < 2 * f * (1 * big)) by (nonlinear_arith)
            requires
                n == m * big - small,
                m < 2 * f,
                small >= 0,
                big >= 1,
        ;
        assert(1 * big == big);
        rounding::lemma_round_at(f, n, 1, k);
        assert((m - 1) * big == big * (m - 1)) by (nonlinear_arith);
        lemma_fundamental_div_mod_converse(n as int, big as int, m - 1, big - small);
    } else {
        // one binade down, where the numbers stand twice as close
        let half = pow2((k - 1) as nat);
        rounding::lemma_double((k - 1) as nat);
        let top = 2 * f;
        assert(n == (top - 1) * half + (half - small)) by (nonlinear_arith)
            requires
                n == f * big - small,
                big == 2 * half,
                top == 2 * f,
        ;
        assert(f * (1 * half) <= n) by (nonlinear_arith)
            requires
                n == (top - 1) * half + (half - small),
                top - 1 >= f,
                small <= half,
                half >= 0,
        ;
        assert(n < 2 * f * (1 * half)) by (nonlinear_arith)
            requires
                n == (top - 1) * half + (half - small),
                top == 2 * f,
                small >= 1,
        ;
        assert(1 * half == half);
        rounding::lemma_round_at(f, n, 1, (k - 1) as nat);
        assert((top - 1) * half == half * (top - 1)) by (nonlinear_arith);
        lemma_fundamental_div_mod_converse(n as int, half as int, top - 1, half - small);
        assert((k - 1) * f + top == k * f + m) by (nonlinear_arith)
            requires
                top == 2 * f,
                m == f,
        ;
    }
}

proof fn lemma_at(f: nat, m: nat, k: nat, n: nat, big: nat)
    requires
        f <= m < 2 * f,
        big == pow2(k),
        n == m * big,
        big >= 1,
    ensures
        f * (1 * big) <= n,
        n < 2 * f * (1 * big),
        1 * big == big,
{
    assert(f * (1 * big) <= n && n < 2 * f * (1 * big)) by (nonlinear_arith)
        requires
            n == m * big,
            f <= m < 2 * f,
            big >= 1,
    ;
}

/// The pattern of the product of two numbers; the format's unit is `2^-u`.
fn product(f: u64, p: u32, infinity: u64, u: i32, a: u64, b: u64) -> (r: u64)
    requires
        (f == SINGLE_BINADE && p == 24 && u == 149 && a <= u32::MAX && b <= u32::MAX) || (f
            == DOUBLE_BINADE && p == 53 && u == 1074 && a <= DOUBLE_INFINITY && b
            <= DOUBLE_INFINITY),
    ensures
        r == at_most(
            rounding::round(
                f as nat,
                rounding::units(f as nat, a as nat) * rounding::units(f as nat, b as nat),
                pow2(u as nat),
            ),
            infinity as nat,
        ),
{
    let x = decode(f, a);
    let y = decode(f, b);
    proof {
        lemma_128();
        assert(x.1 <= 2046) by (nonlinear_arith)
            requires
                x.1 * f + x.0 == a,
                (f == 0x80_0000 && a <= 0xffff_ffff) || (f == 0x10_0000_0000_0000 && a
                    <= 0x7ff0_0000_0000_0000),
                x.1 == 0 || x.0 >= f,
        ;
        assert(y.1 <= 2046) by (nonlinear_arith)
            requires
                y.1 * f + y.0 == b,
                (f == 0x80_0000 && b <= 0xffff_ffff) || (f == 0x10_0000_0000_0000 && b
                    <= 0x7ff0_0000_0000_0000),
                y.1 == 0 || y.0 >= f,
        ;
        assert(x.0 * y.0 <= 0x20_0000_0000_0000 * 0x20_0000_0000_0000) by (nonlinear_arith)
            requires
                0 <= x.0 <= 0x20_0000_0000_0000,
                0 <= y.0 <= 0x20_0000_0000_0000,
        ;
        let m = (x.0 * y.0) as nat;
        let kk = (x.1 + y.1) as nat;
        let ux = rounding::units(f as nat, a as nat);
        let uy = rounding::units(f as nat, b as nat);
        lemma_pow2_adds(x.1 as nat, y.1 as nat);
        assert(ux * uy == m * pow2(kk)) by (nonlinear_arith)
            requires
                ux == x.0 * pow2(x.1 as nat),
                uy == y.0 * pow2(y.1 as nat),
                pow2(x.1 as nat) * pow2(y.1 as nat) == pow2(kk),
                m == x.0 * y.0,
        ;
        lemma_round_cancel(f as nat, m, kk, u as nat);
    }
    encode(f, p, infinity, (x.0 as u128) * (y.0 as u128), x.1 + y.1 - u)
}

/// Common powers of two cancel before rounding.
proof fn lemma_round_cancel(f: nat, m: nat, a: nat, b: nat)
    requires
        f >= 1,
    ensures
        rounding::round(f, m * pow2(a), pow2(b)) == rounding::round(f, m * up(a - b), up(b - a)),
{
    lemma2_to64();
    lemma_pow2_pos(a);
    lemma_pow2_pos(b);
    if a >= b {
        lemma_pow2_adds((a - b) as nat, b);
        lemma_pow2_pos((a - b) as nat);
        let v = m * pow2((a - b) as nat);
        assert(m * pow2(a) == v * pow2(b)) by (nonlinear_arith)
            requires
                v == m * pow2((a - b) as nat),
                pow2((a - b) as nat) * pow2(b) == pow2(a),
        ;
        rounding::lemma_round_scale(f, v, 1, pow2(b));
        assert(1 * pow2(b) == pow2(b));
    } else {
        lemma_pow2_adds((b - a) as nat, a);
        lemma_pow2_pos((b - a) as nat);
        rounding::lemma_round_scale(f, m, pow2((b - a) as nat), pow2(a));
        assert(m * 1 == m);
    }
}

/// The pattern of the quotient of two numbers; the format's unit is `2^-u`.
fn quotient(f: u64, p: u32, infinity: u64, u: i32, a: u64, b: u64) -> (r: u64)
    requires
        (f == SINGLE_BINADE && p == 24 && u == 149 && a <= u32::MAX && b <= u32::MAX) || (f
            == DOUBLE_BINADE && p == 53 && u == 1074 && a <= DOUBLE_INFINITY && b
            <= DOUBLE_INFINITY),
        b > 0,
    ensures
        r == at_most(
            rounding::round(
                f as nat,
                rounding::units(f as nat, a as nat) * pow2(u as nat),
                rounding::units(f as nat, b as nat),
            ),
            infinity as nat,
        ),
{
    let x = decode(f, a);
    let y = decode(f, b);
    let ghost ux = rounding::units(f as nat, a as nat);
    let ghost uy = rounding::units(f as nat, b as nat);
    proof {
        lemma_128();
        lemma_pow2_pos(y.1 as nat);
        lemma_pow2_pos(x.1 as nat);
        assert(uy >= 1) by (nonlinear_arith)
            requires
                uy == y.0 * pow2(y.1 as nat),
                y.0 >= 1,
                pow2(y.1 as nat) >= 1,
        ;
    }
    if x.0 == 0 {
        proof {
            assert(ux * pow2(u as nat) == 0) by (nonlinear_arith)
                requires
                    ux == 0 * pow2(x.1 as nat),
            ;
            assert(2 * f * uy >= 1) by (nonlinear_arith)
                requires
                    f >= 1,
                    uy >= 1,
            ;
            rounding::lemma_nearest_exact(0, uy);
            assert(0 * uy == 0) by (nonlinear_arith);
        }
        return 0;
    }
    proof {
        assert(x.1 <= 2046) by (nonlinear_arith)
            requires
                x.1 * f + x.0 == a,
                (f == 0x80_0000 && a <= 0xffff_ffff) || (f == 0x10_0000_0000_0000 && a
                    <= 0x7ff0_0000_0000_0000),
                x.1 == 0 || x.0 >= f,
        ;
        assert(y.1 <= 2046) by (nonlinear_arith)
            requires
                y.1 * f + y.0 == b,
                (f == 0x80_0000 && b <= 0xffff_ffff) || (f == 0x10_0000_0000_0000 && b
                    <= 0x7ff0_0000_0000_0000),
                y.1 == 0 || y.0 >= f,
        ;
    }
    let l: u32 = bit_count(x.0 as u128);
    proof {
        // x.0 < 2^64, so l <= 64
        if l > 64 {
            lemma_pow2_le(64, (l - 1) as nat);
        }
        lemma_pow2_adds(l as nat, (126 - l) as nat);
        lemma_pow2_adds((l - 1) as nat, (126 - l) as nat);
        lemma_pow2_pos((126 - l) as nat);
        lemma_pow2_le(126, 127);
        rounding::lemma_double(126);
        let w = pow2((126 - l) as nat);
        assert(x.0 * w < pow2(126)) by (nonlinear_arith)
            requires
                x.0 < pow2(l as nat),
                pow2(l as nat) * w == pow2(126),
                w >= 1,
        ;
        assert(x.0 * w >= pow2(125)) by (nonlinear_arith)
            requires
                x.0 >= pow2((l - 1) as nat),
                pow2((l - 1) as nat) * w == pow2(125),
                w >= 1,
        ;
    }
    let shift: u32 = 126 - l;
    let n: u128 = (x.0 as u128) * two_to(shift);
    let d: u128 = y.0 as u128;
    let q: u128 = n / d;
    let r: u128 = n % d;
    let e: i32 = x.1 + u - shift as i32 - y.1 - 1;
    let ghost c = (x.1 + u - shift) as nat;
    proof {
        lemma_fundamental_div_mod(n as int, d as int);
        // q >= 2^60
        lemma_pow2_adds(64, 61);
        lemma_pow2_adds(60, 1);
        lemma_pow2_pos(60);
        lemma2_to64();
        assert(d <= pow2(64));
        assert(q >= pow2(60)) by (nonlinear_arith)
            requires
                n == d * q + r,
                r < d,
                d <= pow2(64),
                n >= pow2(125),
                pow2(125) == pow2(64) * pow2(61),
                pow2(61) == 2 * pow2(60),
                pow2(60) >= 1,
                q >= 0,
                d >= 1,
        ;
        assert(q <= n) by (nonlinear_arith)
            requires
                n == d * q + r,
                r >= 0,
                d >= 1,
                q >= 0,
        ;
        assert(q * d == d * q) by (nonlinear_arith);
        lemma_pow2_adds(c, shift as nat);
        lemma_pow2_adds(x.1 as nat, u as nat);
        assert(ux * pow2(u as nat) == n * pow2(c)) by (nonlinear_arith)
            requires
                ux == x.0 * pow2(x.1 as nat),
                n == x.0 * pow2(shift as nat),
                pow2(c) * pow2(shift as nat) == pow2(x.1 as nat) * pow2(u as nat),
        ;
        lemma_quotient(f as nat, p as nat, n as nat, c, d as nat, y.1 as nat, q as nat, r as nat);
    }
    let m: u128 = 2 * q + if r == 0 {
        0
    } else {
        1
    };
    encode(f, p, infinity, m, e)
}

/// A number's value times `c`, rounded to an integer: `r.0 * 2^r.1`.
pub(crate) fn scaled(f: u64, u: i32, bits: u64, c: u64) -> (r: (u128, u32))
    requires
        (f == SINGLE_BINADE && u == 149 && bits <= u32::MAX) || (f == DOUBLE_BINADE && u == 1074),
        1 <= c <= 10,
    ensures
        rounding::nearest(rounding::units(f as nat, bits as nat) * c as nat, pow2(u as nat))
            == r.0 * pow2(r.1 as nat),
        r.1 > 0 ==> r.0 > 0,
        r.0 <= 0x20_0000_0000_0000 * 10,
        r.1 <= 4094,
{
    let x = decode(f, bits);
    let ghost ux = rounding::units(f as nat, bits as nat);
    proof {
        assert(x.0 * c <= 0x1f_ffff_ffff_ffff * 10) by (nonlinear_arith)
            requires
                0 <= x.0 <= 0x1f_ffff_ffff_ffff,
                0 <= c <= 10,
        ;
    }
    let m: u128 = (x.0 as u128) * (c as u128);
    proof {
        lemma_128();
        assert(m <= 0x1f_ffff_ffff_ffff * 10) by (nonlinear_arith)
            requires
                m == x.0 * c,
                0 <= x.0 <= 0x1f_ffff_ffff_ffff,
                0 <= c <= 10,
        ;
        assert(ux * c as nat == m as nat * pow2(x.1 as nat)) by (nonlinear_arith)
            requires
                ux == x.0 * pow2(x.1 as nat),
                m == x.0 * c,
        ;
        lemma_pow2_pos(u as nat);
        lemma_pow2_pos(x.1 as nat);
    }
    if x.1 >= u {
        proof {
            let t = (x.1 - u) as nat;
            lemma_pow2_adds(t, u as nat);
            let v = m as nat * pow2(t);
            assert(m as nat * pow2(x.1 as nat) == v * pow2(u as nat)) by (nonlinear_arith)
                requires
                    v == m as nat * pow2(t),
                    pow2(t) * pow2(u as nat) == pow2(x.1 as nat),
            ;
            rounding::lemma_nearest_exact(v, pow2(u as nat));
            assert(m >= 1) by (nonlinear_arith)
                requires
                    m == x.0 * c,
                    x.0 >= 1,
                    c >= 1,
            ;
        }
        (m, (x.1 - u) as u32)
    } else {
        let t: u32 = (u - x.1) as u32;
        let n: u128 = shift_round(m, t);
        proof {
            lemma_pow2_adds(t as nat, x.1 as nat);
            lemma_pow2_pos(t as nat);
            rounding::lemma_nearest_scale(m as nat, pow2(t as nat), pow2(x.1 as nat));
            lemma2_to64();
            assert(n * pow2(0) == n) by (nonlinear_arith)
                requires
                    pow2(0) == 1,
            ;
        }
        (n, 0)
    }
}

/// The whole part of a number, at most `u64::MAX`.
fn whole_part(f: u64, u: i32, bits: u64) -> (r: u64)
    requires
        (f == SINGLE_BINADE && u == 149 && bits <= u32::MAX) || (f == DOUBLE_BINADE && u == 1074),
    ensures
        r == at_most(rounding::units(f as nat, bits as nat) / pow2(u as nat), u64::MAX as nat),
{
    let x = decode(f, bits);
    let ghost ux = rounding::units(f as nat, bits as nat);
    proof {
        lemma_128();
        lemma_pow2_pos(u as nat);
        lemma_pow2_pos(x.1 as nat);
    }
    if x.1 >= u {
        let t: i32 = x.1 - u;
        proof {
            lemma_pow2_adds(t as nat, u as nat);
            lemma_pow2_pos(t as nat);
            let v = x.0 as nat * pow2(t as nat);
            assert(ux == v * pow2(u as nat)) by (nonlinear_arith)
                requires
                    v == x.0 as nat * pow2(t as nat),
                    pow2(t as nat) * pow2(u as nat) == pow2(x.1 as nat),
                    ux == x.0 * pow2(x.1 as nat),
            ;
            lemma_fundamental_div_mod_converse(ux as int, pow2(u as nat) as int, v as int, 0);
        }
        if t >= 64 {
            proof {
                lemma_pow2_le(64, t as nat);
                assert(x.0 as nat * pow2(t as nat) >= pow2(64)) by (nonlinear_arith)
                    requires
                        x.0 >= 1,
                        pow2(t as nat) >= pow2(64),
                ;
            }
            return u64::MAX;
        }
        proof {
            lemma_pow2_le(t as nat, 64);
            assert(x.0 * pow2(t as nat) <= 0x20_0000_0000_0000 * 0x1_0000_0000_0000_0000)
                by (nonlinear_arith)
                requires
                    0 <= x.0 <= 0x20_0000_0000_0000,
                    0 <= pow2(t as nat) <= 0x1_0000_0000_0000_0000,
            ;
        }
        let v: u128 = (x.0 as u128) * two_to(t as u32);
        if v < u64::MAX as u128 {
            v as u64
        } else {
            u64::MAX
        }
    } else {
        let t: u32 = (u - x.1) as u32;
        proof {
            lemma_pow2_adds(t as nat, x.1 as nat);
            lemma_pow2_pos(t as nat);
            lemma_div_scale(x.0 as nat, pow2(t as nat), pow2(x.1 as nat));
        }
        if t >= 64 {
            proof {
                lemma_pow2_le(64, t as nat);
                lemma_fundamental_div_mod_converse(x.0 as int, pow2(t as nat) as int, 0, x.0 as int);
            }
            return 0;
        }
        let d: u128 = two_to(t);
        let v: u128 = (x.0 as u128) / d;
        proof {
            lemma_fundamental_div_mod(x.0 as int, d as int);
            assert(v <= x.0) by (nonlinear_arith)
                requires
                    x.0 == d * v + x.0 as u128 % d,
                    d >= 1,
                    v >= 0,
                    x.0 as u128 % d >= 0,
            ;
        }
        v as u64
    }
}

proof fn lemma_div_scale(n: nat, d: nat, c: nat)
    requires
        d >= 1,
        c >= 1,
    ensures
        (n * c) / (d * c) == n / d,
{
    let q = n / d;
    let r = n % d;
    lemma_fundamental_div_mod(n as int, d as int);
    assert(n * c == q * (d * c) + r * c) by (nonlinear_arith)
        requires
            n == d * q + r,
    ;
    assert(0 <= r * c < d * c) by (nonlinear_arith)
        requires
            0 <= r < d,
            c >= 1,
    ;
    lemma_fundamental_div_mod_converse((n * c) as int, (d * c) as int, q as int, (r * c) as int);
}

/// A number in the 32-bit format.
#[derive(Clone, Copy, Debug, PartialEq, Eq, Structural)]
pub struct Single {
    pub bits: u32,
}

/// A number in the 64-bit format.
#[derive(Clone, Copy, Debug, PartialEq, Eq, Structural)]
pub struct Double {
    pub bits: u64,
}

impl Single {
    /// Patterns of non-negative numbers and of infinity.
    pub open spec fn wf(self) -> bool {
        self.bits <= SINGLE_INFINITY
    }

    /// What the number is worth, in units of `2^-149`.
    pub open spec fn units(self) -> nat {
        rounding::units(SINGLE_BINADE as nat, self.bits as nat)
    }

    /// The number one, in units.
    pub open spec fn one() -> nat {
        pow2(149)
    }

    /// The number nearest to `n / d` units, infinity where that is too large.
    pub open spec fn nearest_to(n: nat, d: nat) -> Single {
        Single { bits: at_most(rounding::round(SINGLE_BINADE as nat, n, d), SINGLE_INFINITY as nat) as u32 }
    }

    pub open spec fn infinite() -> Single {
        Single { bits: SINGLE_INFINITY as u32 }
    }

    /// The integer `n`.
    pub open spec fn of(n: nat) -> Single {
        Single::nearest_to(n * Single::one(), 1)
    }

    /// The sum.
    pub open spec fn plus(self, other: Single) -> Single {
        Single::nearest_to(self.units() + other.units(), 1)
    }

    /// The product is a number: not one of zero and infinity.
    pub open spec fn has_product(self, other: Single) -> bool {
        &&& self.bits >= SINGLE_INFINITY ==> other.bits != 0
        &&& other.bits >= SINGLE_INFINITY ==> self.bits != 0
    }

    /// The quotient is a number: not one of two zeros or of two infinities.
    pub open spec fn has_quotient(self, other: Single) -> bool {
        &&& self.bits == 0 ==> other.bits != 0
        &&& self.bits >= SINGLE_INFINITY ==> other.bits < SINGLE_INFINITY
    }

    /// The product, where there is one. It is infinite where a factor is.
    pub open spec fn times(self, other: Single) -> Single {
        if self.bits >= SINGLE_INFINITY || other.bits >= SINGLE_INFINITY {
            Single::infinite()
        } else {
            Single::nearest_to(self.units() * other.units(), Single::one())
        }
    }

    /// The quotient, where there is one. It is infinite where the dividend is or the
    /// divisor is zero.
    pub open spec fn over(self, other: Single) -> Single {
        if self.bits >= SINGLE_INFINITY || other.bits == 0 {
            Single::infinite()
        } else if other.bits >= SINGLE_INFINITY {
            Single { bits: 0 }
        } else {
            Single::nearest_to(self.units() * Single::one(), other.units())
        }
    }

    /// `self > other`, as numbers.
    pub open spec fn gt(self, other: Single) -> bool {
        self.units() > other.units()
    }

    /// `self >= other`, as numbers.
    pub open spec fn ge(self, other: Single) -> bool {
        self.units() >= other.units()
    }

    pub open spec fn larger(self, other: Single) -> Single {
        if other.gt(self) {
            other
        } else {
            self
        }
    }

    pub open spec fn smaller(self, other: Single) -> Single {
        if self.gt(other) {
            other
        } else {
            self
        }
    }

    /// The whole part.
    pub open spec fn whole(self) -> nat {
        self.units() / Single::one()
    }

    /// `c` times the number, rounded to the nearest integer, halves to even.
    pub open spec fn scaled(self, c: nat) -> nat {
        rounding::nearest(self.units() * c, Single::one())
    }

    /// The number with this bit pattern, unless that is negative or not a number.
    pub fn from_bits(bits: u32) -> (r: Option<Single>)
        ensures
            r == if bits <= SINGLE_INFINITY {
                Some(Single { bits })
            } else {
                None
            },
    {
        if bits <= SINGLE_INFINITY as u32 {
            Some(Single { bits })
        } else {
            None
        }
    }

    pub fn from_int(n: u64) -> (r: Single)
        ensures
            r == Single::of(n as nat),
            r.bits < SINGLE_INFINITY,
            n > 0 ==> r.bits > 0,
    {
        proof {
            crate::exact::lemma_single_of_is_finite(n as nat);
            lemma_128();
            lemma2_to64();
            assert(1 * Single::one() == Single::one());
        }
        Single { bits: encode(SINGLE_BINADE, 24, SINGLE_INFINITY, n as u128, 149) as u32 }
    }

    pub fn add(self, other: Single) -> (r: Single)
        ensures
            r == self.plus(other),
            r.wf(),
    {
        Single { bits: sum(SINGLE_BINADE, 24, SINGLE_INFINITY, self.bits as u64, other.bits as u64) as u32 }
    }

    pub fn mul(self, other: Single) -> (r: Single)
        requires
            self.has_product(other),
        ensures
            r == self.times(other),
            r.wf(),
    {
        if self.bits >= SINGLE_INFINITY as u32 || other.bits >= SINGLE_INFINITY as u32 {
            return Single { bits: SINGLE_INFINITY as u32 };
        }
        Single {
            bits: product(SINGLE_BINADE, 24, SINGLE_INFINITY, 149, self.bits as u64, other.bits as u64) as u32,
        }
    }

    pub fn div(self, other: Single) -> (r: Single)
        requires
            self.has_quotient(other),
        ensures
            r == self.over(other),
            r.wf(),
    {
        if self.bits >= SINGLE_INFINITY as u32 || other.bits == 0 {
            return Single { bits: SINGLE_INFINITY as u32 };
        }
        if other.bits >= SINGLE_INFINITY as u32 {
            return Single { bits: 0 };
        }
        Single {
            bits: quotient(SINGLE_BINADE, 24, SINGLE_INFINITY, 149, self.bits as u64, other.bits as u64) as u32,
        }
    }

    pub fn above(self, other: Single) -> (r: bool)
        ensures
            r == self.gt(other),
    {
        proof {
            rounding::lemma_units_order(SINGLE_BINADE as nat, self.bits as nat, other.bits as nat);
            rounding::lemma_units_order(SINGLE_BINADE as nat, other.bits as nat, self.bits as nat);
        }
        self.bits > other.bits
    }

    pub fn at_least(self, other: Single) -> (r: bool)
        ensures
            r == self.ge(other),
    {
        !other.above(self)
    }

    pub fn max(self, other: Single) -> (r: Single)
        ensures
            r == self.larger(other),
    {
        if other.above(self) {
            other
        } else {
            self
        }
    }

    pub fn min(self, other: Single) -> (r: Single)
        ensures
            r == self.smaller(other),
    {
        if self.above(other) {
            other
        } else {
            self
        }
    }

    /// The whole part, at most `u64::MAX`.
    pub fn to_int(self) -> (r: u64)
        ensures
            r == at_most(self.whole(), u64::MAX as nat),
    {
        whole_part(SINGLE_BINADE, 149, self.bits as u64)
    }
}

impl Double {
    /// Patterns of non-negative numbers and of infinity.
    pub open spec fn wf(self) -> bool {
        self.bits <= DOUBLE_INFINITY
    }

    /// What the number is worth, in units of `2^-1074`.
    pub open spec fn units(self) -> nat {
        rounding::units(DOUBLE_BINADE as nat, self.bits as nat)
    }

    /// The number one, in units.
    pub open spec fn one() -> nat {
        pow2(1074)
    }

    /// The number nearest to `n / d` units, infinity where that is too large.
    pub open spec fn nearest_to(n: nat, d: nat) -> Double {
        Double { bits: at_most(rounding::round(DOUBLE_BINADE as nat, n, d), DOUBLE_INFINITY as nat) as u64 }
    }

    pub open spec fn infinite() -> Double {
        Double { bits: DOUBLE_INFINITY as u64 }
    }

    /// The integer `n`.
    pub open spec fn of(n: nat) -> Double {
        Double::nearest_to(n * Double::one(), 1)
    }

    /// The sum.
    pub open spec fn plus(self, other: Double) -> Double {
        Double::nearest_to(self.units() + other.units(), 1)
    }

    /// The product is a number: not one of zero and infinity.
    pub open spec fn has_product(self, other: Double) -> bool {
        &&& self.bits >= DOUBLE_INFINITY ==> other.bits != 0
        &&& other.bits >= DOUBLE_INFINITY ==> self.bits != 0
    }

    /// The quotient is a number: not one of two zeros or of two infinities.
    pub open spec fn has_quotient(self, other: Double) -> bool {
        &&& self.bits == 0 ==> other.bits != 0
        &&& self.bits >= DOUBLE_INFINITY ==> other.bits < DOUBLE_INFINITY
    }

    /// The product, where there is one. It is infinite where a factor is.
    pub open spec fn times(self, other: Double) -> Double {
        if self.bits >= DOUBLE_INFINITY || other.bits >= DOUBLE_INFINITY {
            Double::infinite()
        } else {
            Double::nearest_to(self.units() * other.units(), Double::one())
        }
    }

    /// The quotient, where there is one. It is infinite where the dividend is or the
    /// divisor is zero.
    pub open spec fn over(self, other: Double) -> Double {
        if self.bits >= DOUBLE_INFINITY || other.bits == 0 {
            Double::infinite()
        } else if other.bits >= DOUBLE_INFINITY {
            Double { bits: 0 }
        } else {
            Double::nearest_to(self.units() * Double::one(), other.units())
        }
    }

    /// `self > other`, as numbers.
    pub open spec fn gt(self, other: Double) -> bool {
        self.units() > other.units()
    }

    /// `self >= other`, as numbers.
    pub open spec fn ge(self, other: Double) -> bool {
        self.units() >= other.units()
    }

    pub open spec fn larger(self, other: Double) -> Double {
        if other.gt(self) {
            other
        } else {
            self
        }
    }

    pub open spec fn smaller(self, other: Double) -> Double {
        if self.gt(other) {
            other
        } else {
            self
        }
    }

    /// The whole part.
    pub open spec fn whole(self) -> nat {
        self.units() / Double::one()
    }

    /// `c` times the number, rounded to the nearest integer, halves to even.
    pub open spec fn scaled(self, c: nat) -> nat {
        rounding::nearest(self.units() * c, Double::one())
    }

    /// The number with this bit pattern, unless that is negative or not a number.
    pub fn from_bits(bits: u64) -> (r: Option<Double>)
        ensures
            r == if bits <= DOUBLE_INFINITY {
                Some(Double { bits })
            } else {
                None
            },
    {
        if bits <= DOUBLE_INFINITY as u64 {
            Some(Double { bits })
        } else {
            None
        }
    }

    pub fn from_int(n: u64) -> (r: Double)
        ensures
            r == Double::of(n as nat),
            r.bits < DOUBLE_INFINITY,
            n > 0 ==> r.bits > 0,
    {
        proof {
            crate::exact::lemma_double_of_is_finite(n as nat);
            lemma_128();
            lemma2_to64();
            assert(1 * Double::one() == Double::one());
        }
        Double { bits: encode(DOUBLE_BINADE, 53, DOUBLE_INFINITY, n as u128, 1074) as u64 }
    }

    pub fn add(self, other: Double) -> (r: Double)
        ensures
            r == self.plus(other),
            r.wf(),
    {
        Double { bits: sum(DOUBLE_BINADE, 53, DOUBLE_INFINITY, self.bits as u64, other.bits as u64) as u64 }
    }

    pub fn mul(self, other: Double) -> (r: Double)
        requires
            self.has_product(other),
        ensures
            r == self.times(other),
            r.wf(),
    {
        if self.bits >= DOUBLE_INFINITY as u64 || other.bits >= DOUBLE_INFINITY as u64 {
            return Double { bits: DOUBLE_INFINITY as u64 };
        }
        Double {
            bits: product(DOUBLE_BINADE, 53, DOUBLE_INFINITY, 1074, self.bits as u64, other.bits as u64) as u64,
        }
    }

    pub fn div(self, other: Double) -> (r: Double)
        requires
            self.has_quotient(other),
        ensures
            r == self.over(other),
            r.wf(),
    {
        if self.bits >= DOUBLE_INFINITY as u64 || other.bits == 0 {
            return Double { bits: DOUBLE_INFINITY as u64 };
        }
        if other.bits >= DOUBLE_INFINITY as u64 {
            return Double { bits: 0 };
        }
        Double {
            bits: quotient(DOUBLE_BINADE, 53, DOUBLE_INFINITY, 1074, self.bits as u64, other.bits as u64) as u64,
        }
    }

    pub fn above(self, other: Double) -> (r: bool)
        ensures
            r == self.gt(other),
    {
        proof {
            rounding::lemma_units_order(DOUBLE_BINADE as nat, self.bits as nat, other.bits as nat);
            rounding::lemma_units_order(DOUBLE_BINADE as nat, other.bits as nat, self.bits as nat);
        }
        self.bits > other.bits
    }

    pub fn at_least(self, other: Double) -> (r: bool)
        ensures
            r == self.ge(other),
    {
        !other.above(self)
    }

    pub fn max(self, other: Double) -> (r: Double)
        ensures
            r == self.larger(other),
    {
        if other.above(self) {
            other
        } else {
            self
        }
    }

    pub fn min(self, other: Double) -> (r: Double)
        ensures
            r == self.smaller(other),
    {
        if self.above(other) {
            other
        } else {
            self
        }
    }

    /// The whole part, at most `u64::MAX`.
    pub fn to_int(self) -> (r: u64)
        ensures
            r == at_most(self.whole(), u64::MAX as nat),
    {
        whole_part(DOUBLE_BINADE, 1074, self.bits as u64)
    }
}

impl Single {
    /// The same number in the wider format.
    pub open spec fn widened(self) -> Double {
        if self.bits >= SINGLE_INFINITY {
            Double::infinite()
        } else {
            Double::nearest_to(self.units() * pow2(925), 1)
        }
    }

    /// How far two numbers are apart.
    pub open spec fn apart(self, other: Single) -> Single {
        let a = self.units();
        let b = other.units();
        Single::nearest_to(
            if a >= b {
                (a - b) as nat
            } else {
                (b - a) as nat
            },
            1,
        )
    }

    /// How far two numbers are apart.
    pub fn distance(self, other: Single) -> (r: Single)
        ensures
            r == self.apart(other),
            r.wf(),
    {
        let (hi, lo) = if self.bits >= other.bits {
            (self, other)
        } else {
            (other, self)
        };
        proof {
            lemma_128();
            rounding::lemma_units_order(SINGLE_BINADE as nat, lo.bits as nat, hi.bits as nat);
            rounding::lemma_units_order(SINGLE_BINADE as nat, self.bits as nat, other.bits as nat);
            rounding::lemma_units_order(SINGLE_BINADE as nat, other.bits as nat, self.bits as nat);
        }
        let x = decode(SINGLE_BINADE, hi.bits as u64);
        let y = decode(SINGLE_BINADE, lo.bits as u64);
        proof {
            assert(x.1 >= y.1) by (nonlinear_arith)
                requires
                    x.1 * 0x80_0000 + x.0 >= y.1 * 0x80_0000 + y.0,
                    x.0 < 2 * 0x80_0000,
                    y.0 >= 0,
                    y.1 == 0 || y.0 >= 0x80_0000,
                    x.1 >= 0,
            ;
        }
        Single {
            bits: difference(SINGLE_BINADE, 24, SINGLE_INFINITY, x.0, x.1, y.0, y.1) as u32,
        }
    }

    /// The nearest integer, halves away from zero.
    pub open spec fn rounded(self) -> nat {
        (2 * self.units() + Single::one()) / (2 * Single::one())
    }

    pub fn to_double(self) -> (r: Double)
        ensures
            r == self.widened(),
            r.wf(),
    {
        if self.bits >= SINGLE_INFINITY as u32 {
            return Double { bits: DOUBLE_INFINITY };
        }
        let x = decode(SINGLE_BINADE, self.bits as u64);
        proof {
            lemma_128();
            lemma2_to64();
            lemma_pow2_adds(x.1 as nat, 925);
            let n = self.units() * pow2(925);
            assert(n == x.0 as nat * pow2((x.1 + 925) as nat)) by (nonlinear_arith)
                requires
                    n == self.units() * pow2(925),
                    self.units() == x.0 * pow2(x.1 as nat),
                    pow2(x.1 as nat) * pow2(925) == pow2((x.1 + 925) as nat),
            ;
        }
        Double { bits: encode(DOUBLE_BINADE, 53, DOUBLE_INFINITY, x.0 as u128, x.1 + 925) }
    }

    /// The nearest integer, halves away from zero, at most `u64::MAX`.
    pub fn round(self) -> (r: u64)
        ensures
            r == at_most(self.rounded(), u64::MAX as nat),
    {
        let whole: u64 = self.to_int();
        let x = decode(SINGLE_BINADE, self.bits as u64);
        let ghost ux = self.units();
        let ghost one = Single::one();
        proof {
            lemma_pow2_pos(149);
            lemma_fundamental_div_mod(ux as int, one as int);
        }
        if x.1 >= 149 {
            proof {
                let t = (x.1 - 149) as nat;
                lemma_pow2_adds(t, 149);
                let v = x.0 as nat * pow2(t);
                assert(ux == v * one) by (nonlinear_arith)
                    requires
                        v == x.0 as nat * pow2(t),
                        pow2(t) * one == pow2(x.1 as nat),
                        ux == x.0 * pow2(x.1 as nat),
                ;
                lemma_fundamental_div_mod_converse(ux as int, one as int, v as int, 0);
                assert(2 * ux + one == v * (2 * one) + one) by (nonlinear_arith)
                    requires
                        ux == v * one,
                ;
                lemma_fundamental_div_mod_converse(
                    (2 * ux + one) as int,
                    (2 * one) as int,
                    v as int,
                    one as int,
                );
            }
            return whole;
        }
        let t: u32 = (149 - x.1) as u32;
        proof {
            lemma_pow2_adds(t as nat, x.1 as nat);
            lemma_pow2_pos(x.1 as nat);
            lemma_pow2_pos(t as nat);
            lemma_pow2_le(24, 64);
            lemma2_to64();
            let w = pow2(x.1 as nat);
            let h = pow2(t as nat);
            assert(2 * ux + one == (2 * x.0 as nat + h) * w) by (nonlinear_arith)
                requires
                    ux == x.0 * w,
                    one == h * w,
            ;
            assert(2 * one == (2 * h) * w) by (nonlinear_arith)
                requires
                    one == h * w,
            ;
            lemma_div_scale(2 * x.0 as nat + h, 2 * h, w);
        }
        if t >= 64 {
            proof {
                lemma_128();
                lemma_pow2_le(64, t as nat);
                let h = pow2(t as nat);
                lemma_fundamental_div_mod_converse(
                    (2 * x.0 + h) as int,
                    (2 * h) as int,
                    0,
                    (2 * x.0 + h) as int,
                );
            }
            return 0;
        }
        proof {
            lemma_128();
            lemma_pow2_le(t as nat, 64);
        }
        let h: u128 = two_to(t);
        let v: u128 = (2 * (x.0 as u128) + h) / (2 * h);
        proof {
            lemma_fundamental_div_mod((2 * x.0 + h) as int, (2 * h) as int);
            assert(v <= 2 * x.0 + 1) by (nonlinear_arith)
                requires
                    2 * x.0 + h == (2 * h) * v + (2 * x.0 as u128 + h) as u128 % (2 * h) as u128,
                    (2 * x.0 as u128 + h) as u128 % (2 * h) as u128 >= 0,
                    h >= 1,
                    v >= 0,
                    x.0 >= 0,
            ;
        }
        v as u64
    }
}

impl Double {
    /// The nearest number in the narrower format.
    pub open spec fn narrowed(self) -> Single {
        if self.bits >= DOUBLE_INFINITY {
            Single::infinite()
        } else {
            Single::nearest_to(self.units(), pow2(925))
        }
    }

    pub fn to_single(self) -> (r: Single)
        ensures
            r == self.narrowed(),
            r.wf(),
    {
        if self.bits >= DOUBLE_INFINITY {
            return Single { bits: SINGLE_INFINITY as u32 };
        }
        let x = decode(DOUBLE_BINADE, self.bits);
        proof {
            lemma_128();
            lemma_round_cancel(SINGLE_BINADE as nat, x.0 as nat, x.1 as nat, 925);
        }
        Single { bits: encode(SINGLE_BINADE, 24, SINGLE_INFINITY, x.0 as u128, x.1 - 925) as u32 }
    }
}

impl Single {
    /// The whole part, at most 255.
    pub open spec fn byte(self) -> u8 {
        at_most(self.whole(), 255) as u8
    }

    /// The whole part, at most 255.
    pub fn to_byte(self) -> (r: u8)
        ensures
            r == self.byte(),
    {
        let n: u64 = self.to_int();
        if n < 255 {
            n as u8
        } else {
            255
        }
    }
}

impl Double {
    /// The whole part, at most 255.
    pub open spec fn byte(self) -> u8 {
        at_most(self.whole(), 255) as u8
    }

    /// The whole part, at most 255.
    pub fn to_byte(self) -> (r: u8)
        ensures
            r == self.byte(),
    {
        let n: u64 = self.to_int();
        if n < 255 {
            n as u8
        } else {
            255
        }
    }
}

} // verus!
