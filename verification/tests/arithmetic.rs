use visiomatch::ieee::{Binary32, Binary64};

/// A pseudo-random sequence that is the same in every run.
struct Sequence {
    state: u64,
}

impl Sequence {
    fn new(seed: u64) -> Self {
        Sequence { state: seed }
    }

    fn next(&mut self) -> u64 {
        self.state = self
            .state
            .wrapping_mul(6364136223846793005)
            .wrapping_add(1442695040888963407);
        let x = self.state;
        (x >> 32) ^ x.rotate_left(17)
    }
}

fn singles() -> Vec<f32> {
    vec![
        0.0,
        -0.0,
        1.0,
        -1.0,
        0.5,
        0.1,
        -0.3,
        3.0,
        1.0e-10,
        1.0e10,
        f32::MIN_POSITIVE,
        f32::MAX,
        f32::MIN,
        f32::EPSILON,
        f32::from_bits(1),
        f32::from_bits(2),
        f32::from_bits(0x007f_ffff),
        f32::from_bits(0x0080_0001),
        f32::from_bits(0x7f7f_fffe),
        16777216.0,
        16777217.0,
        f32::INFINITY,
        f32::NEG_INFINITY,
        f32::NAN,
    ]
}

fn doubles() -> Vec<f64> {
    vec![
        0.0,
        -0.0,
        1.0,
        -1.0,
        0.5,
        0.1,
        -0.3,
        0.4,
        1.0e-300,
        1.0e300,
        f64::MIN_POSITIVE,
        f64::MAX,
        f64::MIN,
        f64::EPSILON,
        f64::from_bits(1),
        f64::from_bits(3),
        f64::from_bits(0x000f_ffff_ffff_ffff),
        f64::from_bits(0x0010_0000_0000_0001),
        9007199254740993.0,
        f64::INFINITY,
        f64::NEG_INFINITY,
        f64::NAN,
    ]
}

fn b32(v: f32) -> Binary32 {
    Binary32 { bits: v.to_bits() }
}

fn b64(v: f64) -> Binary64 {
    Binary64 { bits: v.to_bits() }
}

fn same32(got: Binary32, want: f32) -> bool {
    if want.is_nan() {
        f32::from_bits(got.bits).is_nan()
    } else {
        got.bits == want.to_bits()
    }
}

fn same64(got: Binary64, want: f64) -> bool {
    if want.is_nan() {
        f64::from_bits(got.bits).is_nan()
    } else {
        got.bits == want.to_bits()
    }
}

fn check_single_pair(a: f32, b: f32) {
    assert!(same32(b32(a).plus(b32(b)), a + b), "{a:e} + {b:e}");
    assert!(same32(b32(a).minus(b32(b)), a - b), "{a:e} - {b:e}");
    assert!(same32(b32(a).times(b32(b)), a * b), "{a:e} * {b:e}");
    assert!(same32(b32(a).over(b32(b)), a / b), "{a:e} / {b:e}");
    assert_eq!(b32(a).is_less(b32(b)), a < b, "{a:e} < {b:e}");
    assert_eq!(b32(a).is_at_most(b32(b)), a <= b, "{a:e} <= {b:e}");
}

fn check_double_pair(a: f64, b: f64) {
    assert!(same64(b64(a).plus(b64(b)), a + b), "{a:e} + {b:e}");
    assert!(same64(b64(a).minus(b64(b)), a - b), "{a:e} - {b:e}");
    assert!(same64(b64(a).times(b64(b)), a * b), "{a:e} * {b:e}");
    assert!(same64(b64(a).over(b64(b)), a / b), "{a:e} / {b:e}");
    assert_eq!(b64(a).is_less(b64(b)), a < b, "{a:e} < {b:e}");
    assert_eq!(b64(a).is_at_most(b64(b)), a <= b, "{a:e} <= {b:e}");
}

#[test]
fn single_operations_on_special_values() {
    for a in singles() {
        for b in singles() {
            check_single_pair(a, b);
        }
    }
}

#[test]
fn double_operations_on_special_values() {
    for a in doubles() {
        for b in doubles() {
            check_double_pair(a, b);
        }
    }
}

#[test]
fn single_operations_on_any_bits() {
    let mut sequence = Sequence::new(7);
    for _ in 0..5000 {
        let a = f32::from_bits(sequence.next() as u32);
        let b = f32::from_bits(sequence.next() as u32);
        check_single_pair(a, b);
    }
}

#[test]
fn single_operations_on_neighbouring_exponents() {
    let mut sequence = Sequence::new(11);
    for _ in 0..5000 {
        let a = f32::from_bits((sequence.next() as u32 & 0x87ff_ffff) | 0x3800_0000);
        let b = f32::from_bits((sequence.next() as u32 & 0x87ff_ffff) | 0x3800_0000);
        check_single_pair(a, b);
    }
}

#[test]
fn double_operations_on_any_bits() {
    let mut sequence = Sequence::new(13);
    for _ in 0..5000 {
        let a = f64::from_bits(sequence.next() << 32 | sequence.next() & 0xffff_ffff);
        let b = f64::from_bits(sequence.next() << 32 | sequence.next() & 0xffff_ffff);
        check_double_pair(a, b);
    }
}

#[test]
fn double_operations_on_neighbouring_exponents() {
    let mut sequence = Sequence::new(17);
    for _ in 0..5000 {
        let x = sequence.next() << 32 | sequence.next() & 0xffff_ffff;
        let y = sequence.next() << 32 | sequence.next() & 0xffff_ffff;
        let a = f64::from_bits((x & 0x83ff_ffff_ffff_ffff) | 0x3c00_0000_0000_0000);
        let b = f64::from_bits((y & 0x83ff_ffff_ffff_ffff) | 0x3c00_0000_0000_0000);
        check_double_pair(a, b);
    }
}

#[test]
fn square_roots() {
    for a in singles() {
        assert!(same32(b32(a).sqrt(), a.sqrt()), "sqrt {a:e}");
    }
    let mut sequence = Sequence::new(19);
    for _ in 0..5000 {
        let a = f32::from_bits(sequence.next() as u32);
        assert!(same32(b32(a).sqrt(), a.sqrt()), "sqrt {a:e}");
    }
    assert_eq!(b32(4.0).sqrt(), b32(2.0));
    assert_eq!(b32(2.0).sqrt().bits, 0x3fb5_04f3);
}

#[test]
fn whole_parts_and_widening() {
    for a in singles() {
        assert_eq!(b32(a).to_i32(), a as i32, "{a:e} as i32");
        assert!(same64(b32(a).widen(), a as f64), "{a:e} as f64");
        assert!(same32(b32(a).negate(), -a), "-{a:e}");
    }
    let mut sequence = Sequence::new(23);
    for _ in 0..5000 {
        let a = f32::from_bits(sequence.next() as u32);
        assert_eq!(b32(a).to_i32(), a as i32, "{a:e} as i32");
        assert!(same64(b32(a).widen(), a as f64), "{a:e} as f64");
        let b = f32::from_bits((sequence.next() as u32 & 0x87ff_ffff) | 0x4800_0000);
        assert_eq!(b32(b).to_i32(), b as i32, "{b:e} as i32");
    }
    assert_eq!(b32(2147483648.0).to_i32(), i32::MAX);
    assert_eq!(b32(-2147483648.0).to_i32(), i32::MIN);
    assert_eq!(b32(-3.99).to_i32(), -3);
    assert_eq!(b32(f32::NAN).to_i32(), 0);
}

#[test]
fn numbers_from_integers() {
    for i in [0, 1, -1, 16777216, 16777217, -16777219, i32::MAX, i32::MIN] {
        assert_eq!(Binary32::from_i32(i), b32(i as f32), "{i}");
    }
    for n in [0usize, 1, 5, 16777217, 33554435] {
        assert_eq!(Binary32::from_usize(n), b32(n as f32), "{n}");
    }
    for n in [0u64, 1, 1024, 9007199254740993, u64::MAX] {
        assert_eq!(Binary64::from_u64(n), b64(n as f64), "{n}");
    }
}

#[test]
fn greater_of_two_and_magnitude() {
    assert_eq!(b32(1.0).max(b32(2.0)), b32(2.0));
    assert_eq!(b32(3.0).max(b32(2.0)), b32(3.0));
    assert_eq!(b32(f32::NAN).max(b32(2.0)), b32(2.0));
    assert_eq!(b32(2.0).max(b32(f32::NAN)), b32(2.0));
    assert_eq!(b64(-2.5).abs(), b64(2.5));
    assert_eq!(b64(2.5).abs(), b64(2.5));
}

#[test]
fn operands_commute() {
    let mut sequence = Sequence::new(29);
    for _ in 0..1000 {
        let a = Binary32 { bits: sequence.next() as u32 };
        let b = Binary32 { bits: sequence.next() as u32 };
        assert_eq!(a.plus(b), b.plus(a));
        assert_eq!(a.times(b), b.times(a));
    }
}

#[test]
fn exact_results_are_kept() {
    assert_eq!(b32(1.5).plus(b32(2.25)), b32(3.75));
    assert_eq!(b32(1.0).times(b32(0.1)), b32(0.1));
    assert_eq!(b64(0.4).over(b64(1.0)), b64(0.4));
}

#[test]
fn rounding_passes_over_no_number() {
    // A sum above one never rounds below it, and a quotient of less than one
    // never above it.
    let mut sequence = Sequence::new(43);
    for _ in 0..1000 {
        let a = f32::from_bits(sequence.next() as u32 & 0x7f7f_ffff);
        assert!(b32(1.0).is_at_most(b32(1.0).plus(b32(a))));
        assert!(b32(1.0).over(b32(1.0).plus(b32(a))).is_at_most(b32(1.0)));
    }
}

#[test]
fn no_number_is_nearer_than_the_sum() {
    // Halfway between two numbers, the one of even encoding.
    assert_eq!(b32(16777216.0).plus(b32(1.0)), b32(16777216.0));
    assert_eq!(b32(16777218.0).plus(b32(1.0)), b32(16777220.0));
    assert_eq!(b32(f32::MAX).plus(b32(f32::MAX)), b32(f32::INFINITY));
    assert_eq!(b64(9007199254740992.0).plus(b64(1.0)), b64(9007199254740992.0));
}
