//! Numbers written out in decimal.
use crate::float::{Double, Single, DOUBLE_BINADE, DOUBLE_INFINITY, SINGLE_BINADE, SINGLE_INFINITY};
use crate::rounding;
use crate::text;
use vstd::arithmetic::power2::*;
use vstd::prelude::*;

verus! {

/// The character of a digit.
pub open spec fn digit(d: nat) -> char {
    (48 + d) as char
}

/// `n` in decimal.
pub open spec fn dec(n: nat) -> Seq<char>
    decreases n,
{
    if n < 10 {
        seq![digit(n)]
    } else {
        dec(n / 10).push(digit(n % 10))
    }
}

/// The decimal digits of `n`, none for zero.
spec fn digits(n: nat) -> Seq<u8>
    decreases n,
{
    if n == 0 {
        Seq::empty()
    } else {
        digits(n / 10).push((n % 10) as u8)
    }
}

proof fn lemma_dec(n: nat)
    requires
        n > 0,
    ensures
        dec(n) =~= digits(n).map_values(|d: u8| digit(d as nat)),
        digits(n).len() > 0,
    decreases n,
{
    if n >= 10 {
        lemma_dec(n / 10);
    } else {
        assert(digits(n / 10) =~= Seq::empty());
        assert(n / 10 == 0);
    }
}

proof fn lemma_small(n: nat)
    ensures
        forall|i: int| 0 <= i < digits(n).len() ==> digits(n)[i] < 10,
    decreases n,
{
    if n > 0 {
        lemma_small(n / 10);
        assert forall|i: int| 0 <= i < digits(n).len() implies digits(n)[i] < 10 by {
            if i < digits(n / 10).len() {
                assert(digits(n)[i] == digits(n / 10)[i]);
            } else {
                assert(digits(n)[i] == (n % 10) as u8);
            }
        }
    }
}

fn digits_of(n: u128) -> (r: Vec<u8>)
    ensures
        r@ == digits(n as nat),
    decreases n,
{
    if n == 0 {
        Vec::new()
    } else {
        let mut r = digits_of(n / 10);
        r.push((n % 10) as u8);
        r
    }
}

/// The digits of `2 * n + carry`, from the first `len` digits of `ds`, which are those of `n`.
fn doubled(ds: &Vec<u8>, len: usize, carry: u8, Ghost(n): Ghost<nat>) -> (r: Vec<u8>)
    requires
        len <= ds@.len(),
        ds@.take(len as int) == digits(n),
        carry <= 1,
    ensures
        r@ == digits(2 * n + carry as nat),
    decreases len,
{
    if len == 0 {
        proof {
            if n > 0 {
                lemma_dec(n);
            }
            assert(digits(0) =~= Seq::empty());
            assert(digits(1) =~= digits(0).push(1u8));
        }
        let mut r: Vec<u8> = Vec::new();
        if carry > 0 {
            r.push(carry);
        }
        r
    } else {
        proof {
            lemma_small(n);
            assert(ds@.take(len as int)[len - 1] == ds@[len - 1]);
            assert(ds@.take(len - 1) =~= ds@.take(len as int).drop_last());
            assert(digits(n).drop_last() =~= digits(n / 10));
        }
        let t: u8 = 2 * ds[len - 1] + carry;
        let mut r = doubled(ds, len - 1, t / 10, Ghost(n / 10));
        r.push(t % 10);
        r
    }
}

/// `n * 2^k` in decimal.
fn big_decimal(n: u128, k: u32) -> (r: String)
    requires
        k > 0 ==> n > 0,
    ensures
        r@ == dec(n as nat * pow2(k as nat)),
{
    let mut ds = digits_of(n);
    let mut i: u32 = 0;
    proof {
        lemma2_to64();
        assert(n as nat * pow2(0) == n as nat) by (nonlinear_arith)
            requires
                pow2(0) == 1,
        ;
    }
    while i < k
        invariant
            i <= k,
            ds@ == digits(n as nat * pow2(i as nat)),
        decreases k - i,
    {
        let ghost v = n as nat * pow2(i as nat);
        proof {
            rounding::lemma_double(i as nat);
            assert(n as nat * pow2((i + 1) as nat) == 2 * v) by (nonlinear_arith)
                requires
                    v == n as nat * pow2(i as nat),
                    pow2((i + 1) as nat) == 2 * pow2(i as nat),
            ;
            assert(ds@.take(ds@.len() as int) =~= ds@);
        }
        ds = doubled(&ds, ds.len(), 0, Ghost(v));
        i = i + 1;
    }
    let ghost v = n as nat * pow2(k as nat);
    let mut r = String::new();
    if ds.len() == 0 {
        proof {
            if v > 0 {
                lemma_dec(v);
            }
            assert(Seq::<char>::empty().push('0') =~= seq!['0']);
            assert(digit(0) == '0');
        }
        r.push('0');
        return r;
    }
    proof {
        if v == 0 {
            assert(digits(0) =~= Seq::empty());
        }
        lemma_dec(v);
        lemma_small(v);
    }
    let mut j: usize = 0;
    let ghost whole = digits(v).map_values(|d: u8| digit(d as nat));
    while j < ds.len()
        invariant
            j <= ds@.len(),
            ds@ == digits(v),
            whole == digits(v).map_values(|d: u8| digit(d as nat)),
            forall|i: int| 0 <= i < ds@.len() ==> ds@[i] < 10,
            r@ == whole.take(j as int),
        decreases ds@.len() - j,
    {
        let c: char = (48 + ds[j]) as char;
        r.push(c);
        assert(whole.take(j + 1) =~= whole.take(j as int).push(c));
        j = j + 1;
    }
    assert(whole.take(ds@.len() as int) =~= whole);
    r
}

/// `n` in decimal.
pub fn decimal(n: u64) -> (r: String)
    ensures
        r@ == dec(n as nat),
{
    proof {
        lemma2_to64();
        assert(n as nat * pow2(0) == n as nat) by (nonlinear_arith)
            requires
                pow2(0) == 1,
        ;
    }
    big_decimal(n as u128, 0)
}

/// `n` in decimal, with a minus sign where it is negative.
pub open spec fn signed(n: int) -> Seq<char> {
    if n < 0 {
        "-"@ + dec((-n) as nat)
    } else {
        dec(n as nat)
    }
}

/// `n` in decimal, with a minus sign where it is negative.
pub fn signed_decimal(n: i32) -> (r: String)
    ensures
        r@ == signed(n as int),
{
    if n < 0 {
        let mut s = "-".to_owned();
        s.append(decimal((-(n as i64)) as u64).as_str());
        s
    } else {
        decimal(n as u64)
    }
}

/// A number of tenths in decimal, with a decimal point.
pub open spec fn tenths(n: nat) -> Seq<char> {
    dec(n / 10) + seq!['.'] + dec(n % 10)
}

/// `n * 2^k` tenths in decimal.
fn point(n: u128, k: u32) -> (r: String)
    requires
        k > 0 ==> n > 0,
    ensures
        r@ == tenths(n as nat * pow2(k as nat)),
{
    let ghost v = n as nat * pow2(k as nat);
    let s = text::chars_of(big_decimal(n, k).as_str());
    proof {
        lemma_dec_len(v);
    }
    let last: char = s[s.len() - 1];
    let mut r = String::new();
    if s.len() == 1 {
        r.push('0');
    }
    let mut i: usize = 0;
    let ghost start = r@;
    while i < s.len() - 1
        invariant
            i < s@.len(),
            r@ == start + s@.take(i as int),
        decreases s@.len() - i,
    {
        r.push(s[i]);
        assert(s@.take(i + 1) =~= s@.take(i as int).push(s@[i as int]));
        i = i + 1;
    }
    proof {
        if v < 10 {
            assert(s@.take(0) =~= Seq::empty());
            assert(r@ =~= seq!['0']);
            assert(digit(0) == '0');
        } else {
            assert(s@.take(i as int) =~= dec(v / 10));
            assert(start =~= Seq::empty());
            assert(r@ =~= dec(v / 10));
        }
        assert(last == digit(v % 10));
    }
    r.push('.');
    r.push(last);
    assert(r@ =~= tenths(v));
    r
}

proof fn lemma_dec_len(n: nat)
    ensures
        dec(n).len() >= 1,
        n >= 10 ==> dec(n).len() >= 2,
    decreases n,
{
    if n >= 10 {
        lemma_dec_len(n / 10);
    }
}

impl Single {
    /// The number with no decimals.
    pub open spec fn text0(self) -> Seq<char> {
        if self.bits >= SINGLE_INFINITY {
            "inf"@
        } else {
            dec(self.scaled(1))
        }
    }

    /// The number with one decimal.
    pub open spec fn text1(self) -> Seq<char> {
        if self.bits >= SINGLE_INFINITY {
            "inf"@
        } else {
            tenths(self.scaled(10))
        }
    }

    /// The number with no decimals.
    pub fn fixed0(self) -> (r: String)
        ensures
            r@ == self.text0(),
    {
        if self.bits >= SINGLE_INFINITY as u32 {
            return "inf".to_owned();
        }
        let x = crate::float::scaled(SINGLE_BINADE, 149, self.bits as u64, 1);
        big_decimal(x.0, x.1)
    }

    /// The number with one decimal.
    pub fn fixed1(self) -> (r: String)
        ensures
            r@ == self.text1(),
    {
        if self.bits >= SINGLE_INFINITY as u32 {
            return "inf".to_owned();
        }
        let x = crate::float::scaled(SINGLE_BINADE, 149, self.bits as u64, 10);
        point(x.0, x.1)
    }
}

impl Double {
    /// The number with no decimals.
    pub open spec fn text0(self) -> Seq<char> {
        if self.bits >= DOUBLE_INFINITY {
            "inf"@
        } else {
            dec(self.scaled(1))
        }
    }

    /// The number with one decimal.
    pub open spec fn text1(self) -> Seq<char> {
        if self.bits >= DOUBLE_INFINITY {
            "inf"@
        } else {
            tenths(self.scaled(10))
        }
    }

    /// The number with no decimals.
    pub fn fixed0(self) -> (r: String)
        ensures
            r@ == self.text0(),
    {
        if self.bits >= DOUBLE_INFINITY {
            return "inf".to_owned();
        }
        let x = crate::float::scaled(DOUBLE_BINADE, 1074, self.bits, 1);
        big_decimal(x.0, x.1)
    }

    /// The number with one decimal.
    pub fn fixed1(self) -> (r: String)
        ensures
            r@ == self.text1(),
    {
        if self.bits >= DOUBLE_INFINITY {
            return "inf".to_owned();
        }
        let x = crate::float::scaled(DOUBLE_BINADE, 1074, self.bits, 10);
        point(x.0, x.1)
    }
}

/// The number that these decimal digits stand for.
pub open spec fn read(s: Seq<char>) -> nat
    decreases s.len(),
{
    if s.len() == 0 {
        0
    } else {
        read(s.drop_last()) * 10 + (s.last() as nat - 48) as nat
    }
}

/// A number can be read back from how it is written.
pub proof fn numbers_can_be_read_back(n: nat)
    ensures
        read(dec(n)) == n,
        forall|i: int| 0 <= i < dec(n).len() ==> '0' <= #[trigger] dec(n)[i] <= '9',
    decreases n,
{
    if n < 10 {
        assert(dec(n).drop_last() =~= Seq::empty());
        assert(read(Seq::empty()) == 0);
    } else {
        numbers_can_be_read_back(n / 10);
        assert(dec(n).drop_last() =~= dec(n / 10));
    }
}

} // verus!
