//! The camera: what is asked of it, and the rate at which its frames come.
use vstd::arithmetic::power2::{lemma_pow2_adds, lemma_pow2_pos, pow2};
use vstd::prelude::*;

use crate::float::{lemma_parts, magnitude};
use crate::ieee::{
    double_near, law_double_difference_is_near, law_double_product_is_near,
    law_double_quotient_is_near, law_double_sum_is_near, law_finite_doubles_have_finite_operands,
    Binary64,
};
use crate::numerals::{double_text, push_double};
use crate::rounding::{
    double, law_nearest_exists, lemma_even_unit, lemma_multiple_order, lemma_multiple_zero,
    lemma_nearest_unique,
};

verus! {

/// Default camera device.
pub const CAMERA_INDEX: i32 = 0;

/// Width that is asked of the camera, in pixels.
pub const FRAME_WIDTH: i32 = 1280;

/// Height that is asked of the camera, in pixels.
pub const FRAME_HEIGHT: i32 = 720;

/// Frames per second that are asked of the camera.
pub const FRAME_FPS: i32 = 30;

/// What is said if the camera cannot be opened.
pub fn check_opened(opened: bool) -> (checked: Result<(), String>)
    ensures
        checked is Ok <==> opened,
        checked matches Err(why) ==> why@
            == "[-] FATAL: Could not open camera device (index 0). Check permissions or connection."@,
{
    if opened {
        Ok(())
    } else {
        Err(
            "[-] FATAL: Could not open camera device (index 0). Check permissions or connection.".to_owned(),
        )
    }
}

/// 1280.
pub open spec fn wanted_width() -> Binary64 {
    Binary64 { bits: 0x4094_0000_0000_0000 }
}

/// 720.
pub open spec fn wanted_height() -> Binary64 {
    Binary64 { bits: 0x4086_8000_0000_0000 }
}

/// One.
pub open spec fn one() -> Binary64 {
    Binary64 { bits: 0x3ff0_0000_0000_0000 }
}

/// Whether a size differs by more than one from the wanted one.
pub open spec fn is_off(actual: Binary64, wanted: Binary64) -> bool {
    one().less(actual.difference(wanted).magnitude())
}

fn differs(actual: Binary64, wanted: Binary64) -> (off: bool)
    ensures
        off == is_off(actual, wanted),
{
    let unit: Binary64 = Binary64 { bits: 0x3ff0_0000_0000_0000 };
    unit.is_less(actual.minus(wanted).abs())
}

/// The warning if the camera provides another resolution than the wanted one.
/// The texts are those of the two sizes.
pub fn resolution_warning(
    actual_w: Binary64,
    actual_h: Binary64,
    w_text: &str,
    h_text: &str,
) -> (warning: Option<String>)
    ensures
        warning is Some <==> is_off(actual_w, wanted_width()) || is_off(actual_h, wanted_height()),
        warning matches Some(text) ==> text@
            == "[!] Warning: Requested 1280x720, but camera provided "@ + w_text@ + "x"@ + h_text@,
{
    let width: Binary64 = Binary64 { bits: 0x4094_0000_0000_0000 };
    let height: Binary64 = Binary64 { bits: 0x4086_8000_0000_0000 };
    if differs(actual_w, width) || differs(actual_h, height) {
        let mut text: String = "[!] Warning: Requested 1280x720, but camera provided ".to_owned();
        text.append(w_text);
        text.append("x");
        text.append(h_text);
        Some(text)
    } else {
        None
    }
}

// ---------------------------------------------------------------------------
// Frame rate
// ---------------------------------------------------------------------------

/// 0.15: the weight of the newest frame in the smoothed frame rate.  Higher is
/// more responsive but noisier; lower is smoother but more latent.
pub open spec fn fps_weight() -> Binary64 {
    Binary64 { bits: 0x3fc3_3333_3333_3333 }
}

/// The smoothed frame rate after a frame that took `dt` seconds; a frame that
/// took no time does not count.
pub open spec fn smoothed_fps(fps: Binary64, dt: Binary64) -> Binary64 {
    if (Binary64 { bits: 0 }).less(dt) {
        fps.product(one().difference(fps_weight())).sum(one().quotient(dt).product(fps_weight()))
    } else {
        fps
    }
}

/// The smoothed frame rate after a frame that took `dt` seconds.
pub fn next_fps(fps: Binary64, dt: Binary64) -> (next: Binary64)
    ensures
        next == smoothed_fps(fps, dt),
{
    let zero: Binary64 = Binary64 { bits: 0 };
    let unit: Binary64 = Binary64 { bits: 0x3ff0_0000_0000_0000 };
    let weight: Binary64 = Binary64 { bits: 0x3fc3_3333_3333_3333 };
    if zero.is_less(dt) {
        fps.times(unit.minus(weight)).plus(unit.over(dt).times(weight))
    } else {
        fps
    }
}

/// The line that shows the frame rate, and what stands behind it.
pub fn fps_line(fps: Binary64, tail: &str) -> (line: String)
    ensures
        line@ == "FPS: "@ + double_text(fps, 1) + tail@,
{
    let mut line: String = "FPS: ".to_owned();
    push_double(&mut line, fps, 1);
    line.append(tail);
    line
}

/// A power of two times an integer, as the number of these fields.
proof fn lemma_number(fields: nat, fraction: nat, exp: nat)
    requires
        fraction < 0x10_0000_0000_0000,
        exp >= 1,
        fields == exp * 0x10_0000_0000_0000 + fraction,
    ensures
        double().number(fields) == (0x10_0000_0000_0000 + fraction) * pow2((exp - 1) as nat),
{
    lemma_even_unit(double());
    assert(fields % 0x10_0000_0000_0000 == fraction && fields / 0x10_0000_0000_0000 == exp);
}

/// The weights: 0.15 and 0.85, in units of 2^-55.
proof fn lemma_fps_weights()
    ensures
        fps_weight().finite(),
        fps_weight().value() == 5404319552844595 * pow2(1019),
        one().difference(fps_weight()).finite(),
        one().difference(fps_weight()).value() == 30624477466119372 * pow2(1019),
        one().finite(),
        one().value() == pow2(1074),
        pow2(1074) == 36028797018963968 * pow2(1019),
{
    let format = double();
    let g = pow2(1019);
    let (a, z, w) = (0x3ff0_0000_0000_0000nat, 0x3fc3_3333_3333_3333nat, 0x3feb_3333_3333_3333nat);
    lemma_even_unit(format);
    lemma_number(a, 0, 1023);
    lemma_number(z, 0x3_3333_3333_3333, 1020);
    lemma_number(w, 0xb_3333_3333_3333, 1022);
    lemma_number((w + 1) as nat, 0xb_3333_3333_3334, 1022);
    lemma_number((w - 1) as nat, 0xb_3333_3333_3332, 1022);
    lemma_pow2_adds(1019, 55);
    lemma_pow2_adds(1019, 3);
    lemma_pow2_adds(1019, 2);
    lemma_pow2_pos(1019);
    vstd::arithmetic::power2::lemma2_to64();
    vstd::arithmetic::power2::lemma2_to64_rest();
    assert(a % 0x8000_0000_0000_0000 == a && z % 0x8000_0000_0000_0000 == z && w
        % 0x8000_0000_0000_0000 == w);
    let (b, e) = (pow2(1022), pow2(1021));
    assert((0x10_0000_0000_0000 + 0) * b == 36028797018963968 * g) by (nonlinear_arith)
        requires
            b == g * 8,
    ;
    let (n, m, o) = (
        format.number(w),
        format.number((w - 1) as nat),
        format.number((w + 1) as nat),
    );
    assert(n == 30624477466119372 * g && m == 30624477466119368 * g && o == 30624477466119376 * g)
        by (nonlinear_arith)
        requires
            n == (0x10_0000_0000_0000 + 0xb_3333_3333_3333) * e,
            m == (0x10_0000_0000_0000 + 0xb_3333_3333_3332) * e,
            o == (0x10_0000_0000_0000 + 0xb_3333_3333_3334) * e,
            e == g * 4,
    ;
    let v = (format.value(a) - format.value(z)) as nat;
    assert(v == 30624477466119373 * g) by (nonlinear_arith)
        requires
            v == 36028797018963968 * g - 5404319552844595 * g,
    ;
    assert((m + n) * 1 < 2 * v && 2 * v < (n + o) * 1) by (nonlinear_arith)
        requires
            v == 30624477466119373 * g,
            n == 30624477466119372 * g,
            m == 30624477466119368 * g,
            o == 30624477466119376 * g,
            g > 0,
    ;
    assert(format.nearest(w, v, 1));
    law_nearest_exists(format, v, 1);
    lemma_nearest_unique(format, w, format.rounded(v, 1), v, 1);
    let opposite = format.opposite(z);
    assert(opposite % 0x8000_0000_0000_0000 == z);
    assert(format.value(opposite) == -format.value(z));
    assert(one().difference(fps_weight()).bits == w);
}

/// A weighted number, in twentieths.
proof fn lemma_twentieths(p: int, f: int, a: int, share: int, g: int, t: int)
    requires
        double_near(p * t, f * (a * g), t),
        t == 36028797018963968 * g,
        g > 0,
        (a == 30624477466119372 && share == 17) || (a == 5404319552844595 && share == 3),
    ensures
        ({
            let most = 3 * magnitude(f) + 0x30_0000_0000_0000;
            -(4 * most) <= 0x4_0000_0000_0000 * (20 * p - share * f) <= 4 * most
        }),
{
    let big = 36028797018963968int;
    let m = magnitude(f);
    let fa = f * a;
    let ma = m * a;
    assert(f * (a * g) == fa * g && p * t == (big * p) * g && magnitude(fa * g) == ma * g)
        by (nonlinear_arith)
        requires
            fa == f * a,
            ma == m * a,
            t == big * g,
            g > 0,
            a > 0,
            m == f || m == -f,
            m >= 0,
    ;
    let off = big * p - fa;
    let most = ma + 0x10_0000_0000_0000 * big;
    assert(-most <= 0x20_0000_0000_0000 * off <= most) by (nonlinear_arith)
        requires
            -(ma * g + 0x10_0000_0000_0000 * t) <= 0x20_0000_0000_0000 * ((big * p) * g - fa * g)
                <= ma * g + 0x10_0000_0000_0000 * t,
            most == ma + 0x10_0000_0000_0000 * big,
            off == big * p - fa,
            t == big * g,
            g > 0,
    {
        assert(ma * g + 0x10_0000_0000_0000 * t == most * g);
        assert((0x20_0000_0000_0000 * off) * g == 0x20_0000_0000_0000 * ((big * p) * g - fa * g));
        assert((0x20_0000_0000_0000 * off) * g <= most * g);
        assert((0x20_0000_0000_0000 * off) * g >= (-most) * g);
    }
    if share == 17 {
        assert(fa == 30624477466119372 * f && ma == 30624477466119372 * m) by (nonlinear_arith)
            requires
                fa == f * a,
                ma == m * a,
                a == 30624477466119372,
        ;
    } else {
        assert(fa == 5404319552844595 * f && ma == 5404319552844595 * m) by (nonlinear_arith)
            requires
                fa == f * a,
                ma == m * a,
                a == 5404319552844595,
        ;
    }
}

/// The frame rate after a frame is 17/20 of the one before and 3/20 of the one
/// that the time of the frame gives, up to rounding; that one, times the time,
/// is one up to rounding.  A frame that took no time changes nothing.
pub proof fn law_frame_rate_follows_the_frames(fps: Binary64, dt: Binary64)
    requires
        fps.finite(),
        dt.finite(),
    ensures
        dt.value() <= 0 ==> smoothed_fps(fps, dt) == fps,
        dt.value() > 0 && smoothed_fps(fps, dt).finite() ==> ({
            let rate = one().quotient(dt);
            let off = 20 * smoothed_fps(fps, dt).value() - (17 * fps.value() + 3 * rate.value());
            let most = 64 * (magnitude(fps.value()) + magnitude(rate.value()))
                + 0x400_0000_0000_0000;
            &&& rate.finite()
            &&& double_near(
                rate.value() * dt.value(),
                (pow2(1074) * pow2(1074)) as int,
                dt.value(),
            )
            &&& -most <= 0x4_0000_0000_0000 * off <= most
        }),
{
    let format = double();
    lemma_even_unit(format);
    lemma_multiple_zero(0, format.unit());
    assert(0nat % 0x8000_0000_0000_0000 == 0);
    lemma_fps_weights();
    lemma_pow2_pos(1019);
    if dt.value() > 0 && smoothed_fps(fps, dt).finite() {
        let (g, t) = (pow2(1019) as int, pow2(1074) as int);
        let (w, z) = (one().difference(fps_weight()), fps_weight());
        let rate = one().quotient(dt);
        let (p, q) = (fps.product(w), rate.product(z));
        let s = p.sum(q);
        assert((Binary64 { bits: 0 }).less(dt));
        law_finite_doubles_have_finite_operands(p, q);
        law_finite_doubles_have_finite_operands(rate, z);
        law_double_quotient_is_near(one(), dt);
        law_double_product_is_near(fps, w);
        law_double_product_is_near(rate, z);
        law_double_sum_is_near(p, q, 0);
        lemma_twentieths(p.value(), fps.value(), 30624477466119372, 17, g, t);
        lemma_twentieths(q.value(), rate.value(), 5404319552844595, 3, g, t);
        let (x, y) = (p.value(), q.value());
        let (f, r) = (fps.value(), rate.value());
        assert(magnitude(x + y) <= magnitude(x) + magnitude(y));
        assert(magnitude(x) <= 2 * magnitude(f) + 3 && magnitude(y) <= 2 * magnitude(r) + 3);
    }
}

/// A size counts as another than the wanted one exactly if it differs by more
/// than one, in either direction: 1280 wide and 720 high are wanted.
pub proof fn law_sizes_may_differ_by_one(actual: Binary64)
    requires
        actual.finite(),
    ensures
        wanted_width().value() == 1280 * pow2(1074),
        wanted_height().value() == 720 * pow2(1074),
        magnitude(actual.value() - wanted_width().value()) <= pow2(1074) ==> !is_off(
            actual,
            wanted_width(),
        ),
        magnitude(actual.value() - wanted_width().value()) >= pow2(1074) + pow2(1022) ==> is_off(
            actual,
            wanted_width(),
        ),
        magnitude(actual.value() - wanted_height().value()) <= pow2(1074) ==> !is_off(
            actual,
            wanted_height(),
        ),
        magnitude(actual.value() - wanted_height().value()) >= pow2(1074) + pow2(1022) ==> is_off(
            actual,
            wanted_height(),
        ),
{
    let (a, b) = (0x4094_0000_0000_0000nat, 0x4086_8000_0000_0000nat);
    let p = pow2(1022);
    lemma_number(a, 0x4_0000_0000_0000, 1033);
    lemma_number(b, 0x6_8000_0000_0000, 1032);
    lemma_number(0x3ff0_0000_0000_0000, 0, 1023);
    lemma_pow2_adds(1022, 10);
    lemma_pow2_adds(1022, 9);
    lemma_pow2_adds(1022, 52);
    vstd::arithmetic::power2::lemma2_to64();
    vstd::arithmetic::power2::lemma2_to64_rest();
    assert(a % 0x8000_0000_0000_0000 == a && b % 0x8000_0000_0000_0000 == b);
    assert((0x10_0000_0000_0000 + 0x4_0000_0000_0000) * (p * 0x400) == 1280 * (p
        * 0x10_0000_0000_0000)) by (nonlinear_arith);
    assert((0x10_0000_0000_0000 + 0x6_8000_0000_0000) * (p * 0x200) == 720 * (p
        * 0x10_0000_0000_0000)) by (nonlinear_arith);
    lemma_off(actual, wanted_width());
    lemma_off(actual, wanted_height());
}

proof fn lemma_off(actual: Binary64, wanted: Binary64)
    requires
        actual.finite(),
        wanted.finite(),
    ensures
        magnitude(actual.value() - wanted.value()) <= pow2(1074) ==> !is_off(actual, wanted),
        magnitude(actual.value() - wanted.value()) >= pow2(1074) + pow2(1022) ==> is_off(
            actual,
            wanted,
        ),
{
    let format = double();
    let (f, g) = (0x3ff0_0000_0000_0000nat, 0x3ff0_0000_0000_0001nat);
    let d = actual.difference(wanted);
    let m = d.magnitude();
    lemma_even_unit(format);
    lemma_parts(format, d.bits as nat);
    lemma_number(f, 0, 1023);
    lemma_number(g, 1, 1023);
    lemma_pow2_adds(1022, 52);
    vstd::arithmetic::power2::lemma2_to64_rest();
    let p = pow2(1022);
    assert((0x10_0000_0000_0000 + 1) * p == 0x10_0000_0000_0000 * p + p && (0x10_0000_0000_0000
        + 0) * p == 0x10_0000_0000_0000 * p && p * 0x10_0000_0000_0000 == 0x10_0000_0000_0000 * p)
        by (nonlinear_arith);
    law_double_difference_is_near(actual, wanted, f);
    law_double_difference_is_near(actual, wanted, g);
    assert(m.bits as nat % 0x8000_0000_0000_0000 == d.fields());
    assert(f % 0x8000_0000_0000_0000 == f);
    lemma_multiple_order(f, d.fields(), format.unit());
    lemma_multiple_order(g, d.fields(), format.unit());
    lemma_multiple_order(f, g, format.unit());
}

} // verus!
