use smart_top::decimal::{decimal, signed_decimal};
use smart_top::diagnose::{fmt_bps, fmt_bytes, percent};
use smart_top::float::{Double, Single};
use smart_top::rank::rank;

fn double(x: f64) -> Double {
    match Double::from_bits(x.to_bits()) {
        Some(d) => d,
        None => panic!("not a non-negative number: {}", x),
    }
}

fn single(x: f32) -> Single {
    match Single::from_bits(x.to_bits()) {
        Some(s) => s,
        None => panic!("not a non-negative number: {}", x),
    }
}

fn f64_of(x: Double) -> f64 {
    f64::from_bits(x.bits)
}

fn f32_of(x: Single) -> f32 {
    f32::from_bits(x.bits)
}

/// A stream of bit patterns that visits every part of the range.
struct Patterns {
    state: u64,
}

impl Patterns {
    fn new(seed: u64) -> Patterns {
        Patterns { state: seed }
    }

    fn next(&mut self) -> u64 {
        self.state = self.state.wrapping_mul(6364136223846793005).wrapping_add(1442695040888963407);
        let x = self.state;
        (x >> 29) ^ x
    }

    fn double(&mut self) -> f64 {
        f64::from_bits(self.next() % 0x7ff0_0000_0000_0000)
    }

    /// A double near one, where sums and differences of exponents stay small.
    fn near(&mut self) -> f64 {
        let mantissa = self.next() % (1 << 52);
        let exponent = 1023 - 40 + self.next() % 80;
        f64::from_bits((exponent << 52) | mantissa)
    }

    fn single(&mut self) -> f32 {
        f32::from_bits((self.next() % 0x7f80_0000) as u32)
    }

    fn near_single(&mut self) -> f32 {
        let mantissa = (self.next() % (1 << 23)) as u32;
        let exponent = 127 - 20 + (self.next() % 40) as u32;
        f32::from_bits((exponent << 23) | mantissa)
    }
}

fn edge_doubles() -> Vec<f64> {
    vec![
        0.0,
        f64::from_bits(1),
        f64::from_bits(0x000f_ffff_ffff_ffff),
        f64::MIN_POSITIVE,
        0.1,
        0.5,
        1.0,
        1.0 + f64::EPSILON,
        1.5,
        2.5,
        100.0,
        1024.0,
        9007199254740992.0,
        1.0e300,
        f64::MAX,
    ]
}

#[test]
fn patterns_of_negative_numbers_and_of_nan_are_refused() {
    assert!(Double::from_bits((-1.0f64).to_bits()).is_none());
    assert!(Double::from_bits((-0.0f64).to_bits()).is_none());
    assert!(Double::from_bits(f64::NAN.to_bits()).is_none());
    assert!(Single::from_bits((-1.0f32).to_bits()).is_none());
    assert!(Single::from_bits(f32::NAN.to_bits()).is_none());
    assert_eq!(f64_of(double(f64::INFINITY)), f64::INFINITY);
    assert_eq!(f32_of(single(f32::INFINITY)), f32::INFINITY);
}

#[test]
fn sums_agree_with_the_machine() {
    let mut p = Patterns::new(1);
    for _ in 0..20_000 {
        let (a, b) = (p.near(), p.near());
        assert_eq!(f64_of(double(a).add(double(b))), a + b, "{} + {}", a, b);
        let (a, b) = (p.double(), p.double());
        assert_eq!(f64_of(double(a).add(double(b))), a + b, "{} + {}", a, b);
        let (a, b) = (p.near_single(), p.near_single());
        assert_eq!(f32_of(single(a).add(single(b))), a + b, "{} + {}", a, b);
        let (a, b) = (p.single(), p.single());
        assert_eq!(f32_of(single(a).add(single(b))), a + b, "{} + {}", a, b);
    }
    for a in edge_doubles() {
        for b in edge_doubles() {
            assert_eq!(f64_of(double(a).add(double(b))), a + b, "{} + {}", a, b);
        }
    }
    assert_eq!(f64_of(double(0.1).add(double(0.2))), 0.30000000000000004);
}

#[test]
fn products_agree_with_the_machine() {
    let mut p = Patterns::new(2);
    for _ in 0..20_000 {
        let (a, b) = (p.near(), p.near());
        assert_eq!(f64_of(double(a).mul(double(b))), a * b, "{} * {}", a, b);
        let (a, b) = (p.double(), p.double());
        assert_eq!(f64_of(double(a).mul(double(b))), a * b, "{} * {}", a, b);
        let (a, b) = (p.near_single(), p.near_single());
        assert_eq!(f32_of(single(a).mul(single(b))), a * b, "{} * {}", a, b);
        let (a, b) = (p.single(), p.single());
        assert_eq!(f32_of(single(a).mul(single(b))), a * b, "{} * {}", a, b);
    }
    for a in edge_doubles() {
        for b in edge_doubles() {
            assert_eq!(f64_of(double(a).mul(double(b))), a * b, "{} * {}", a, b);
        }
    }
}

#[test]
fn quotients_agree_with_the_machine() {
    let mut p = Patterns::new(3);
    for _ in 0..20_000 {
        let (a, b) = (p.near(), p.near());
        assert_eq!(f64_of(double(a).div(double(b))), a / b, "{} / {}", a, b);
        let (a, b) = (p.double(), p.double());
        assert_eq!(f64_of(double(a).div(double(b))), a / b, "{} / {}", a, b);
        let (a, b) = (p.near_single(), p.near_single());
        assert_eq!(f32_of(single(a).div(single(b))), a / b, "{} / {}", a, b);
        let (a, b) = (p.single(), p.single());
        assert_eq!(f32_of(single(a).div(single(b))), a / b, "{} / {}", a, b);
    }
    for a in edge_doubles() {
        for b in edge_doubles() {
            if b > 0.0 {
                assert_eq!(f64_of(double(a).div(double(b))), a / b, "{} / {}", a, b);
            }
        }
    }
    assert_eq!(f64_of(double(1.0).div(double(0.0))), f64::INFINITY);
    assert_eq!(f64_of(double(1.0).div(double(f64::INFINITY))), 0.0);
    assert_eq!(f32_of(single(7.0).div(single(10.0))), 0.7);
    assert_eq!(f64_of(double(1.0).div(double(2.0))), 0.5);
}

#[test]
fn integers_agree_with_the_machine() {
    let mut p = Patterns::new(4);
    let mut numbers: Vec<u64> = vec![0, 1, 2, 9, 10, 255, 256, 0xff_ffff, 0x100_0001, u64::MAX];
    for shift in 0..64 {
        numbers.push(p.next() >> shift);
    }
    for n in numbers {
        assert_eq!(f64_of(Double::from_int(n)), n as f64);
        assert_eq!(f32_of(Single::from_int(n)), n as f32);
        assert_eq!(Double::from_int(n).to_int(), (n as f64) as u64);
        assert_eq!(decimal(n), n.to_string());
    }
}

#[test]
fn integers_below_two_to_the_53_are_exact() {
    let n: u64 = (1 << 53) - 1;
    assert_eq!(Double::from_int(n).to_int(), n);
    assert_eq!(Double::from_int(n + 2).to_int(), n + 1);
    let m: u64 = (1 << 24) - 1;
    assert_eq!(Single::from_int(m).to_int(), m);
    assert_eq!(Single::from_int(m + 2).to_int(), m + 1);
}

#[test]
fn whole_parts_agree_with_the_machine() {
    let mut p = Patterns::new(5);
    for _ in 0..5_000 {
        let a = p.near();
        assert_eq!(double(a).to_int(), a as u64, "{}", a);
        assert_eq!(double(a).to_byte(), a as u8, "{}", a);
        let a = p.double();
        assert_eq!(double(a).to_int(), a as u64, "{}", a);
        let b = p.near_single();
        assert_eq!(single(b).to_int(), b as u64, "{}", b);
        assert_eq!(single(b).to_byte(), b as u8, "{}", b);
        assert_eq!(single(b).round(), b.round() as u64, "{}", b);
    }
    assert_eq!(single(2.5).round(), 3);
    assert_eq!(single(3.5).round(), 4);
    assert_eq!(single(0.49999997).round(), 0);
    assert_eq!(double(f64::INFINITY).to_int(), u64::MAX);
    assert_eq!(double(1.0e30).to_byte(), 255);
}

#[test]
fn formats_convert_as_on_the_machine() {
    let mut p = Patterns::new(6);
    for _ in 0..10_000 {
        let a = p.near();
        assert_eq!(f32_of(double(a).to_single()), a as f32, "{}", a);
        let a = p.double();
        assert_eq!(f32_of(double(a).to_single()), a as f32, "{}", a);
        let b = p.single();
        assert_eq!(f64_of(single(b).to_double()), b as f64, "{}", b);
    }
    assert_eq!(f64_of(single(f32::INFINITY).to_double()), f64::INFINITY);
    assert_eq!(f32_of(double(f64::INFINITY).to_single()), f32::INFINITY);
}

#[test]
fn numbers_compare_as_on_the_machine() {
    let mut p = Patterns::new(7);
    for _ in 0..5_000 {
        let (a, b) = (p.near(), p.near());
        assert_eq!(double(a).above(double(b)), a > b);
        assert_eq!(double(a).at_least(double(b)), a >= b);
        assert_eq!(f64_of(double(a).max(double(b))), a.max(b));
        assert_eq!(f64_of(double(a).min(double(b))), a.min(b));
        let (a, b) = (p.near_single(), p.near_single());
        assert_eq!(single(a).above(single(b)), a > b);
        assert_eq!(single(a).at_least(single(b)), a >= b);
        assert_eq!(f32_of(single(a).max(single(b))), a.max(b));
        assert_eq!(f32_of(single(a).min(single(b))), a.min(b));
        assert_eq!(f32_of(single(a).distance(single(b))), (a - b).abs(), "{} {}", a, b);
        let (a, b) = (p.single(), p.single());
        assert_eq!(f32_of(single(a).distance(single(b))), (a - b).abs(), "{} {}", a, b);
    }
    assert!(double(1.0).at_least(double(1.0)));
    assert!(!double(1.0).above(double(1.0)));
}

#[test]
fn numbers_print_as_on_the_machine() {
    let mut p = Patterns::new(8);
    for _ in 0..3_000 {
        let a = p.near();
        assert_eq!(double(a).fixed0(), format!("{:.0}", a));
        assert_eq!(double(a).fixed1(), format!("{:.1}", a));
        let b = p.near_single();
        assert_eq!(single(b).fixed0(), format!("{:.0}", b));
        assert_eq!(single(b).fixed1(), format!("{:.1}", b));
    }
    for _ in 0..40 {
        let a = p.double();
        assert_eq!(double(a).fixed0(), format!("{:.0}", a));
        assert_eq!(double(a).fixed1(), format!("{:.1}", a));
        let b = p.single();
        assert_eq!(single(b).fixed1(), format!("{:.1}", b));
    }
    // halves go to the even neighbour
    for a in vec![0.0, 0.5, 1.5, 2.5, 3.5, 0.25, 0.75, 0.05, 0.15, 99.95, 1.0e15] {
        assert_eq!(double(a).fixed0(), format!("{:.0}", a));
        assert_eq!(double(a).fixed1(), format!("{:.1}", a));
    }
    assert_eq!(double(2.5).fixed0(), "2");
    assert_eq!(double(0.25).fixed1(), "0.2");
    assert_eq!(double(f64::INFINITY).fixed1(), "inf");
    assert_eq!(single(f32::INFINITY).fixed0(), "inf");
}

#[test]
fn signed_numbers_have_a_sign_when_negative() {
    assert_eq!(signed_decimal(10), "10");
    assert_eq!(signed_decimal(0), "0");
    assert_eq!(signed_decimal(-7), "-7");
    assert_eq!(signed_decimal(i32::MIN), i32::MIN.to_string());
}

#[test]
fn numbers_can_be_read_back_from_how_they_are_written() {
    for n in vec![0u64, 7, 10, 1_000_000, 18_446_744_073_709_551_615] {
        assert_eq!(decimal(n).parse::<u64>(), Ok(n));
    }
}

fn rate(bps: f64) -> String {
    if bps >= 1_073_741_824.0 {
        format!("{:.1} GB/s", bps / 1_073_741_824.0)
    } else if bps >= 1_048_576.0 {
        format!("{:.1} MB/s", bps / 1_048_576.0)
    } else if bps >= 1_024.0 {
        format!("{:.0} KB/s", bps / 1_024.0)
    } else {
        format!("{:.0} B/s", bps)
    }
}

#[test]
fn rates_are_told_in_the_largest_unit() {
    assert_eq!(fmt_bps(double(0.0)), "0 B/s");
    assert_eq!(fmt_bps(double(1023.0)), "1023 B/s");
    assert_eq!(fmt_bps(double(1023.9)), "1024 B/s");
    assert_eq!(fmt_bps(double(1024.0)), "1 KB/s");
    assert_eq!(fmt_bps(double(1_048_576.0)), "1.0 MB/s");
    assert_eq!(fmt_bps(double(2.5 * 1_048_576.0)), "2.5 MB/s");
    assert_eq!(fmt_bps(double(1_073_741_824.0)), "1.0 GB/s");
    let mut p = Patterns::new(9);
    for _ in 0..2_000 {
        let a = p.near();
        assert_eq!(fmt_bps(double(a)), rate(a));
    }
}

#[test]
fn sizes_are_told_in_the_largest_unit() {
    assert_eq!(fmt_bytes(0), "0 B");
    assert_eq!(fmt_bytes(1023), "1023 B");
    assert_eq!(fmt_bytes(1024), "1 KB");
    assert_eq!(fmt_bytes(1536), "2 KB");
    assert_eq!(fmt_bytes(2560), "2 KB");
    assert_eq!(fmt_bytes(1_048_575), "1024 KB");
    assert_eq!(fmt_bytes(1_048_576), "1 MB");
    assert_eq!(fmt_bytes(1_073_741_824), "1.0 GB");
    assert_eq!(fmt_bytes(16_642_998_272), "15.5 GB");
    assert_eq!(fmt_bytes(u64::MAX), "17179869184.0 GB");
}

/// The nearest number of tenths of gigabytes, halves to even.
#[test]
fn sizes_are_nearest_tenths() {
    let gib: u64 = 1 << 30;
    let mut p = Patterns::new(10);
    for _ in 0..2_000 {
        let b = gib + p.next() % (1 << 44);
        let (q, r) = (b * 10 / gib, b * 10 % gib);
        let up = 2 * r > gib || (2 * r == gib && q % 2 == 1);
        let tenths = if up { q + 1 } else { q };
        assert_eq!(fmt_bytes(b), format!("{}.{} GB", tenths / 10, tenths % 10));
    }
}

#[test]
fn percentages_agree_with_the_machine() {
    for (a, b) in vec![(1u64, 3u64), (50, 100), (7, 9), (0, 5), (u64::MAX, 12345)] {
        assert_eq!(f64_of(percent(a, b)), a as f64 / b as f64 * 100.0);
    }
}

#[test]
fn rounding_goes_to_the_nearest_number() {
    // 2^53 + 1 lies halfway between two numbers, and the even pattern wins
    assert_eq!(Double::from_int((1 << 53) + 1).to_int(), 1 << 53);
    assert_eq!(Double::from_int((1 << 53) + 3).to_int(), (1 << 53) + 4);
    // a number of the format is kept
    assert_eq!(double(0.1).add(double(0.0)), double(0.1));
    // a larger sum is not rounded lower
    let mut p = Patterns::new(11);
    for _ in 0..2_000 {
        let (a, b) = (double(p.near()), double(p.near()));
        let more = a.add(double(1.0));
        assert!(more.add(b).at_least(a.add(b)));
    }
}

#[test]
fn ranking_is_stable_and_starts_with_the_largest() {
    assert_eq!(rank(&vec![]), Vec::<usize>::new());
    assert_eq!(rank(&vec![5]), vec![0]);
    assert_eq!(rank(&vec![1, 3, 2]), vec![1, 2, 0]);
    assert_eq!(rank(&vec![2, 3, 2, 3]), vec![1, 3, 0, 2]);
}
