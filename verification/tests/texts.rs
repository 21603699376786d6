use visiomatch::ieee::{Binary32, Binary64};
use visiomatch::literal::is_float_literal;
use visiomatch::numerals::{push_double, push_single, read_literal};

fn next(state: &mut u64) -> u64 {
    *state = state.wrapping_mul(6364136223846793005).wrapping_add(1442695040888963407);
    (*state >> 32) ^ state.rotate_left(17)
}

fn written_single(v: f32, digits: u32) -> String {
    let mut out = String::new();
    push_single(&mut out, Binary32 { bits: v.to_bits() }, digits);
    out
}

fn written_double(v: f64, digits: u32) -> String {
    let mut out = String::new();
    push_double(&mut out, Binary64 { bits: v.to_bits() }, digits);
    out
}

fn read(text: &str) -> Binary32 {
    let chars: Vec<char> = text.chars().collect();
    assert!(is_float_literal(&chars, 0, chars.len()), "{text}");
    read_literal(&chars, 0, chars.len())
}

fn check_single_text(v: f32) {
    assert_eq!(written_single(v, 6), format!("{v:.6}"));
    assert_eq!(written_single(v, 0), format!("{v:.0}"));
    assert_eq!(written_single(v, 2), format!("{v:.2}"));
}

#[test]
fn singles_are_written_with_fixed_digits() {
    for v in [
        0.0f32, -0.0, 1.0, -1.0, 0.5, 1.5, 2.5, 3.5, 0.25, 0.125, 0.0000005, 0.0000015, 0.9999995,
        0.99999997, 123.456, -99.995, 1.0e10, 1.0e-20, 3.0e38, f32::MAX, f32::MIN_POSITIVE,
        f32::INFINITY, f32::NEG_INFINITY, f32::NAN,
    ] {
        check_single_text(v);
    }
    let mut state = 31;
    for _ in 0..2000 {
        check_single_text(f32::from_bits(next(&mut state) as u32));
        check_single_text(f32::from_bits((next(&mut state) as u32 & 0x87ff_ffff) | 0x3800_0000));
    }
}

#[test]
fn doubles_are_written_with_fixed_digits() {
    let mut state = 37;
    for _ in 0..500 {
        let v = f64::from_bits(next(&mut state) << 32 | next(&mut state) & 0xffff_ffff);
        assert_eq!(written_double(v, 2), format!("{v:.2}"));
        assert_eq!(written_double(v, 1), format!("{v:.1}"));
    }
    for v in [0.4f64, -0.005, 0.015, 0.045, 29.97, 30.0, 59.95, 1.0e22, 1.0e300, f64::MAX] {
        assert_eq!(written_double(v, 2), format!("{v:.2}"));
        assert_eq!(written_double(v, 1), format!("{v:.1}"));
    }
    assert_eq!(written_double(0.4, 2), "0.40");
}

#[test]
fn literals_are_read_to_the_nearest() {
    for text in [
        "0", "-0", "+1", "1.", ".5", "0.1", "-0.3", "3.14159265358979", "1e10", "1E-10", "1.5e+3",
        "16777217", "16777219", "33554433.0000001", "3.4028235e38", "3.4028236e38", "3.5e38",
        "1e39", "1e400", "-1e400", "1e-45", "7e-46", "7.1e-46", "1e-60", "1e-400", "0e999999999999",
        "1e999999999999999999999999999999", "1e-999999999999999999999999999999", "0.000001",
        "0.123456", "-0.999999", "1.17549435e-38", "1.17549429e-38", "0.00000000000000000000001",
        "123456789012345678901234567890", "inf", "-inf", "Infinity", "-INFINITY", "000.5000",
        "1.00000005960464477539062500000000000000000000000000000000000000000000000000000000001",
    ] {
        let want: f32 = text.parse().unwrap();
        assert_eq!(read(text).bits, want.to_bits(), "{text}");
    }
    assert!(f32::from_bits(read("nan").bits).is_nan());
    assert!(f32::from_bits(read("-NaN").bits).is_nan());
}

#[test]
fn written_singles_are_read_back() {
    let mut state = 41;
    for _ in 0..300 {
        let v = f32::from_bits((next(&mut state) as u32 & 0x87ff_ffff) | 0x3800_0000);
        let text = written_single(v, 6);
        let want: f32 = text.parse().unwrap();
        let got = read(&text);
        assert_eq!(got.bits, want.to_bits(), "{text}");
        // Writing again what was read gives the same text.
        assert_eq!(written_single(f32::from_bits(got.bits), 6), text);
        let w = f32::from_bits(next(&mut state) as u32);
        if w.is_finite() {
            let long = format!("{w:e}");
            assert_eq!(read(&long).bits, w.to_bits(), "{long}");
        }
    }
}

#[test]
fn literals_are_told_from_other_texts() {
    for text in [
        "", ".", "+", "-", "e5", "1e", "1e+", "1 ", " 1", "0x10", "1_000", "in", "infin", "nanx",
        "1.2.3", "--1", "1e5.5", "١",
    ] {
        let chars: Vec<char> = text.chars().collect();
        assert!(!is_float_literal(&chars, 0, chars.len()), "{text}");
        assert!(text.parse::<f32>().is_err(), "{text}");
    }
}
