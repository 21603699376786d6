//! The length of vectors of numbers in the format binary32: what rounding does
//! to dot products, norms and normalized vectors.
use vstd::arithmetic::power2::{lemma_pow2_adds, lemma_pow2_pos, pow2};
use vstd::prelude::*;

use crate::arcface::{
    any_counts, best_match, cosine, dot, first_greatest, lowest, mean, norm, normalized,
    similarities, total,
};
use crate::embeddings::EMBEDDING_DIM;
use crate::float::{lemma_parts, magnitude};
use crate::ieee::{
    law_finite_results_have_finite_operands, law_of_int_is_near, law_product_is_near,
    law_quotient_is_near, law_sum_is_near, law_widening_is_exact, near, Binary32, Binary64,
};
use crate::recognize::{law_match_is_two_fifths, matches_threshold};
use crate::rounding::{
    double, law_nearest_exists, law_nearest_root_exists, law_rounding_keeps_order, lemma_below_middle,
    lemma_error, lemma_even_unit, lemma_gap, lemma_multiple_order, lemma_multiple_zero, single,
};

verus! {

/// The squares of the first `n` elements, added up exactly, in squares of the
/// smallest number.
pub open spec fn square_sum(v: Seq<Binary32>, n: nat) -> int
    decreases n,
{
    if n == 0 {
        0
    } else {
        square_sum(v, (n - 1) as nat) + v[n - 1].value() * v[n - 1].value()
    }
}

/// All elements are finite.
pub open spec fn all_finite(v: Seq<Binary32>) -> bool {
    forall|i: int| 0 <= i < v.len() ==> (#[trigger] v[i]).finite()
}

/// All elements are finite, and so are their squares, added up.
pub open spec fn squares_fit(v: Seq<Binary32>) -> bool {
    all_finite(v) && dot(v, v, v.len()).finite()
}

/// Finite elements of a magnitude of at most 2^59.
pub open spec fn moderate(v: Seq<Binary32>) -> bool {
    forall|i: int| 0 <= i < v.len() ==> (#[trigger] v[i]).fields() <= 0x5d00_0000
}

/// 1e-10, the least number by which a vector is divided, in smallest numbers.
pub open spec fn least_norm() -> int {
    (Binary32 { bits: 0x2edb_e6ff }).value()
}

/// The length is one up to rounding: its square differs from one by no more than
/// 1/2048.
pub open spec fn has_length_one(v: Seq<Binary32>) -> bool {
    let one = pow2(298) as int;
    -one <= 2048 * (square_sum(v, v.len()) - one) <= one
}

// ---------------------------------------------------------------------------
// Powers of two as numbers
// ---------------------------------------------------------------------------

/// The number of a power of two: exponent alone, and no fraction.
proof fn lemma_power_number(exp: nat)
    requires
        1 <= exp <= 255,
    ensures
        single().number(exp * 0x80_0000) == pow2((exp + 22) as nat),
{
    lemma_even_unit(single());
    let f = exp * 0x80_0000;
    assert(f % 0x80_0000 == 0 && f / 0x80_0000 == exp);
    lemma_pow2_adds(23, (exp - 1) as nat);
    let (u, p) = (0x80_0000nat, pow2((exp - 1) as nat));
    assert((u + 0) * p == u * p);
}

/// The value of a number that is not negative, and what its fields are.
proof fn lemma_positive(v: Binary32)
    requires
        v.bits < 0x8000_0000,
    ensures
        v.fields() == v.bits,
        v.value() == single().number(v.fields()),
{
    assert(v.bits as nat % 0x8000_0000 == v.bits);
}

/// The square of a value is the square of the number that its fields encode.
proof fn lemma_value_squared(v: Binary32)
    ensures
        v.value() * v.value() == single().number(v.fields()) * single().number(v.fields()),
{
    let n = single().number(v.fields()) as int;
    assert((-n) * (-n) == n * n) by (nonlinear_arith);
}

// ---------------------------------------------------------------------------
// Dot products
// ---------------------------------------------------------------------------

/// A square: not negative, and near to the exact one unless it is infinite.
proof fn lemma_square(x: Binary32)
    requires
        x.finite(),
    ensures
        ({
            let p = x.product(x);
            let (s, t) = (x.value() * x.value(), pow2(149) as int);
            let off = p.value() * t - s;
            &&& p.bits <= 0x7f80_0000
            &&& s >= 0
            &&& p.finite() ==> {
                &&& x.fields() <= 0x5f80_0000
                &&& p.value() >= 0
                &&& -(s + 0x80_0000 * t) <= 0x100_0000 * off <= s + 0x80_0000 * t
            }
        }),
{
    let format = single();
    let (n, t) = (format.number(x.fields()), pow2(149));
    let num = n * n;
    lemma_even_unit(format);
    lemma_pow2_pos(149);
    law_nearest_exists(format, num, t);
    let p = x.product(x);
    let bits = format.product(x.bits as nat, x.bits as nat);
    assert(bits == format.rounded(num, t));
    lemma_positive(p);
    lemma_value_squared(x);
    if x.fields() > 0x5f80_0000 {
        lemma_power_number(0xbf);
        lemma_power_number(0xff);
        lemma_pow2_adds(213, 213);
        lemma_pow2_adds(277, 149);
        lemma_multiple_order(0x5f80_0000, x.fields(), format.unit());
        let (a, b) = (pow2(213), pow2(277));
        assert(num >= b * t) by (nonlinear_arith)
            requires
                num == n * n,
                n >= a,
                a * a == b * t,
        ;
        law_rounding_keeps_order(format, num, t, 0x7f80_0000);
    }
    if p.finite() {
        lemma_error(format, num, t);
        let off = p.value() * t - num;
        assert(2 * (0x80_0000 * off) == 0x100_0000 * off);
    }
}

/// One step of a dot product.
proof fn lemma_accumulate(d: Binary32, p: Binary32)
    requires
        d.finite(),
        d.value() >= 0,
        p.bits < 0x7f80_0000,
    ensures
        ({
            let s = d.sum(p);
            let exact = d.value() + p.value();
            let off = s.value() - exact;
            &&& s.bits <= 0x7f80_0000
            &&& s.finite() ==> {
                &&& s.value() >= 0
                &&& -(exact + 0x80_0000) <= 0x100_0000 * off <= exact + 0x80_0000
            }
        }),
{
    let format = single();
    let u = format.unit();
    lemma_even_unit(format);
    lemma_parts(format, d.bits as nat);
    lemma_positive(p);
    lemma_multiple_zero(d.fields(), u);
    lemma_multiple_zero(0, u);
    let v = (d.value() + p.value()) as nat;
    law_nearest_exists(format, v, 1);
    let s = d.sum(p);
    let bits = format.sum(d.bits as nat, p.bits as nat);
    if v == 0 {
        assert(bits == 0);
    } else {
        assert(bits == format.rounded(v, 1));
        if s.finite() {
            lemma_error(format, v, 1);
        }
    }
    lemma_positive(s);
    let off = s.value() - v;
    assert(2 * (0x80_0000 * off) == 0x100_0000 * off);
}

/// A dot product of a vector with itself is a number that is not negative, or
/// infinite.  Where it is finite, so are all squares.
proof fn lemma_dot(v: Seq<Binary32>, n: nat)
    requires
        n <= v.len(),
        all_finite(v),
    ensures
        n > 0 ==> dot(v, v, n).bits <= 0x7f80_0000,
        dot(v, v, n).fields() <= 0x7f80_0000,
        dot(v, v, n).finite() ==> {
            &&& dot(v, v, n).value() >= 0
            &&& forall|i: int| 0 <= i < n ==> (#[trigger] v[i]).fields() <= 0x5f80_0000
            &&& n > 0 ==> dot(v, v, (n - 1) as nat).finite() && v[n - 1].product(v[n - 1]).finite()
        },
    decreases n,
{
    if n == 0 {
        lemma_even_unit(single());
        lemma_multiple_zero(0, single().unit());
        assert(0x8000_0000nat % 0x8000_0000 == 0);
    } else {
        let before = dot(v, v, (n - 1) as nat);
        let x = v[n - 1];
        let p = x.product(x);
        lemma_dot(v, (n - 1) as nat);
        lemma_square(x);
        lemma_positive(p);
        lemma_parts(single(), before.bits as nat);
        if before.finite() && p.finite() {
            lemma_accumulate(before, p);
        } else if !before.finite() {
            assert(before.bits == 0x7f80_0000);
            assert(before.sum(p) == before);
        } else {
            assert(before.sum(p) == p);
        }
        lemma_positive(dot(v, v, n));
    }
}

/// How far a dot product of a vector with itself can be from the exact one.
proof fn lemma_dot_error(v: Seq<Binary32>, n: nat)
    requires
        n <= v.len(),
        n <= 512,
        all_finite(v),
        dot(v, v, n).finite(),
    ensures
        ({
            let (s, t) = (square_sum(v, n), pow2(149) as int);
            let off = dot(v, v, n).value() * t - s;
            let most = 2 * (n * (s + 0x80_0000 * t));
            &&& s >= 0
            &&& -most <= 0x80_0000 * off <= most
        }),
    decreases n,
{
    let t = pow2(149) as int;
    lemma_pow2_pos(149);
    if n == 0 {
        lemma_even_unit(single());
        lemma_multiple_zero(0, single().unit());
        assert(0x8000_0000nat % 0x8000_0000 == 0);
        assert(0 * t == 0) by (nonlinear_arith);
        let b = 0x80_0000 * t;
        assert(0 * (0 + b) == 0) by (nonlinear_arith);
    } else {
        let k = (n - 1) as nat;
        let x = v[n - 1];
        lemma_dot(v, n);
        lemma_dot(v, k);
        lemma_dot_error(v, k);
        lemma_square(x);
        lemma_accumulate(dot(v, v, k), x.product(x));
        lemma_error_grows(
            dot(v, v, k).value(),
            x.product(x).value(),
            dot(v, v, n).value(),
            square_sum(v, k),
            x.value() * x.value(),
            t,
            n as int,
        );
    }
}

/// What one step adds to the error of a dot product.
proof fn lemma_error_grows(d: int, p: int, e: int, s: int, q: int, t: int, n: int)
    requires
        1 <= n <= 512,
        d >= 0,
        p >= 0,
        s >= 0,
        q >= 0,
        t > 0,
        ({
            let most = 2 * ((n - 1) * (s + 0x80_0000 * t));
            -most <= 0x80_0000 * (d * t - s) <= most
        }),
        -(q + 0x80_0000 * t) <= 0x100_0000 * (p * t - q) <= q + 0x80_0000 * t,
        -(d + p + 0x80_0000) <= 0x100_0000 * (e - (d + p)) <= d + p + 0x80_0000,
    ensures
        ({
            let most = 2 * (n * (s + q + 0x80_0000 * t));
            -most <= 0x80_0000 * (e * t - (s + q)) <= most
        }),
{
    let ut = 0x80_0000 * t;
    let b = s + q + ut;
    let (f, g, h) = (d * t - s, p * t - q, e - (d + p));
    assert(e * t - (s + q) == h * t + f + g) by (nonlinear_arith)
        requires
            f == d * t - s,
            g == p * t - q,
            h == e - (d + p),
    ;
    let dp = (d + p) * t;
    assert(dp == s + f + q + g) by (nonlinear_arith)
        requires
            dp == (d + p) * t,
            f == d * t - s,
            g == p * t - q,
    ;
    assert(-(dp + ut) <= 0x100_0000 * (h * t) <= dp + ut) by (nonlinear_arith)
        requires
            -(d + p + 0x80_0000) <= 0x100_0000 * h <= d + p + 0x80_0000,
            dp == (d + p) * t,
            ut == 0x80_0000 * t,
            t > 0,
    ;
    let m = (n - 1) * (s + ut);
    let w = (n - 1) * b;
    assert(0 <= m <= w && w <= 511 * b && n * b == w + b) by (nonlinear_arith)
        requires
            m == (n - 1) * (s + ut),
            w == (n - 1) * b,
            b == s + q + ut,
            1 <= n <= 512,
            s >= 0,
            q >= 0,
            ut >= 0,
    ;
    assert(-(2 * w) <= 0x80_0000 * f <= 2 * w);
    assert(-b <= 0x100_0000 * g <= b);
    assert(f <= b && g <= b);
    assert(-(4 * b) <= 0x100_0000 * (h * t) <= 4 * b);
    // Half of what is granted pays for the rounding of the sum and the product.
    assert(0x100_0000 * (h * t + f + g) <= 3 * b + b + 4 * w);
}

// ---------------------------------------------------------------------------
// Norms
// ---------------------------------------------------------------------------

/// The square of a root, when the roots of `x` are bounded by a share of `r`.
proof fn lemma_root_squared(x: int, r: int, below: int, above: int)
    requires
        r >= 0,
        0 <= 0x80_0000 * below <= r,
        0 <= 0x80_0000 * above <= r,
        (2 * r - below) * (2 * r - below) <= 4 * x <= (2 * r + above) * (2 * r + above),
    ensures
        -(r * r) <= 0x10_0000 * (x - r * r) <= r * r,
{
    let s = r * r;
    let (f, g) = (0x80_0000 * below, 0x80_0000 * above);
    let scaled = 0x1_0000_0000_0000 * x;
    assert(scaled <= 0x1_0000_0200_0001 * s) by (nonlinear_arith)
        requires
            scaled == 0x1_0000_0000_0000 * x,
            s == r * r,
            r >= 0,
            g == 0x80_0000 * above,
            0 <= g <= r,
            4 * x <= (2 * r + above) * (2 * r + above),
    {
        let p = 0x100_0000 * r + g;
        let q = 0x100_0001 * r;
        assert(p == 0x80_0000 * (2 * r + above));
        assert(p * p == 0x80_0000 * 0x80_0000 * ((2 * r + above) * (2 * r + above)));
        assert(0 <= p <= q);
        assert(p * p <= q * q);
        assert(q * q == 0x1_0000_0200_0001 * (r * r));
    }
    assert(scaled >= 0xffff_fe00_0001 * s) by (nonlinear_arith)
        requires
            scaled == 0x1_0000_0000_0000 * x,
            s == r * r,
            r >= 0,
            f == 0x80_0000 * below,
            0 <= f <= r,
            (2 * r - below) * (2 * r - below) <= 4 * x,
    {
        let p = 0x100_0000 * r - f;
        let q = 0xff_ffff * r;
        assert(p == 0x80_0000 * (2 * r - below));
        assert(p * p == 0x80_0000 * 0x80_0000 * ((2 * r - below) * (2 * r - below)));
        assert(0 <= q <= p);
        assert(q * q <= p * p);
        assert(q * q == 0xffff_fe00_0001 * (r * r));
    }
    assert(s >= 0) by (nonlinear_arith)
        requires
            s == r * r,
    ;
}

/// The root of a positive number is a number, and its square differs from that
/// number by no more than a share of 1/2^20.
pub proof fn law_root_is_near(d: Binary32)
    requires
        0 < d.bits < 0x7f80_0000,
    ensures
        ({
            let r = d.root();
            let x = d.value() * pow2(149);
            let s = r.value() * r.value();
            &&& r.bits < 0x7f80_0000
            &&& -s <= 0x10_0000 * (x - s) <= s
        }),
{
    lemma_root(d);
}

proof fn lemma_root(d: Binary32)
    requires
        0 < d.bits < 0x7f80_0000,
    ensures
        ({
            let r = d.root();
            let x = d.value() * pow2(149);
            let s = r.value() * r.value();
            &&& r.bits < 0x7f80_0000
            &&& -s <= 0x10_0000 * (x - s) <= s
        }),
{
    let format = single();
    let u = format.unit();
    let t = pow2(149);
    lemma_positive(d);
    let n = format.number(d.fields());
    let x = n * t;
    let f = format.rounded_root(x);
    let r = format.number(f);
    lemma_even_unit(format);
    law_nearest_root_exists(format, x);
    lemma_power_number(0xff);
    lemma_multiple_order(0x7f80_0000, d.fields(), u);
    lemma_pow2_pos(149);
    lemma_pow2_adds(277, 149);
    vstd::arithmetic::power2::lemma2_to64();
    assert(x <= pow2(426)) by {
        let a = pow2(277);
        assert(n * t <= a * t) by (nonlinear_arith)
            requires
                n <= a,
        ;
    }
    if f == format.infinity {
        let before = format.number((f - 1) as nat);
        let twice = before + r;
        lemma_pow2_adds(277, 277);
        lemma_pow2_adds(426, 128);
        lemma_pow2_adds(64, 64);
        lemma_pow2_pos(426);
        let (a, b, c) = (pow2(277), pow2(426), pow2(128));
        assert(c > 4) by {
            let e = pow2(64);
            assert(e * e > 4) by (nonlinear_arith)
                requires
                    e == 0x1_0000_0000_0000_0000nat,
            ;
        }
        assert(twice * twice > 4 * x) by (nonlinear_arith)
            requires
                twice >= a,
                a * a == b * c,
                c > 4,
                b > 0,
                x <= b,
        {
            assert(twice * twice >= a * a);
            assert(b * c >= b * 5);
        }
    }
    assert(d.root().bits == f);
    lemma_positive(d.root());
    lemma_gap(format, f);
    let next = format.number(f + 1);
    let gap = next - r;
    lemma_multiple_zero(d.fields(), u);
    lemma_pow2_adds(64, 85);
    lemma_pow2_pos(85);
    assert(x >= 0x1_0000_0000_0000_0000) by {
        let (a, b) = (pow2(64), pow2(85));
        assert(n * t >= a) by (nonlinear_arith)
            requires
                t == a * b,
                b >= 1,
                n >= 1,
        ;
    }
    if r < 0x80_0000 {
        assert(gap == 1);
        assert((r + next) * (r + next) < 4 * x) by (nonlinear_arith)
            requires
                0 <= r < 0x80_0000,
                next == r + 1,
                x >= 0x1_0000_0000_0000_0000,
        {
            let q = r + next;
            assert(q * q <= 0x100_0000 * 0x100_0000);
        }
    }
    assert(0x80_0000 * gap <= r);
    assert(f > 0) by {
        lemma_multiple_zero(f, u);
    }
    let before = format.number((f - 1) as nat);
    lemma_gap(format, (f - 1) as nat);
    assert(0x80_0000 * (r - before) <= r);
    assert(r + next == 2 * r + gap && before + r == 2 * r - (r - before));
    lemma_root_squared(x as int, r as int, r - before, gap as int);
}

/// From the error of a dot product and of its root to that of the norm.
proof fn lemma_norm_squared(s: int, x: int, e: int, r: int, c: int, m: int)
    requires
        -(s + e) <= 0x2000 * (x - s) <= s + e,
        0 <= e <= s,
        -(r * r) <= 0x10_0000 * (x - r * r) <= r * r,
        c > 0,
        r >= 0,
        s >= c * c,
        m == if r < c {
            c
        } else {
            r
        },
    ensures
        -(m * m) <= 3000 * (s - m * m) <= m * m,
{
    let rr = r * r;
    let cc = c * c;
    assert(0 <= rr && (r < c ==> rr <= cc)) by (nonlinear_arith)
        requires
            rr == r * r,
            cc == c * c,
            r >= 0,
            c > 0,
    ;
    assert(-rr <= 3000 * (s - rr) <= rr);
}

/// The norm is a number of at least 1e-10.  Where the length reaches 1e-10, it is
/// near to the length.
proof fn lemma_norm(v: Seq<Binary32>)
    requires
        squares_fit(v),
    ensures
        0x2edb_e6ff <= norm(v).bits < 0x7f80_0000,
        ({
            let s = square_sum(v, v.len());
            let m = norm(v).value() * norm(v).value();
            v.len() <= 512 && s >= least_norm() * least_norm() ==> -m <= 3000 * (s - m) <= m
        }),
{
    let format = single();
    let u = format.unit();
    let least = Binary32 { bits: 0x2edb_e6ff };
    let d = dot(v, v, v.len());
    let s = square_sum(v, v.len());
    let c = least_norm();
    let t = pow2(149) as int;
    let x = d.value() * t;
    lemma_even_unit(format);
    lemma_parts(format, d.bits as nat);
    lemma_dot(v, v.len());
    lemma_positive(least);
    lemma_power_number(0x5d);
    lemma_multiple_order(0x2edb_e6ff, 0x2e80_0000, u);
    lemma_pow2_pos(115);
    lemma_pow2_adds(115, 115);
    lemma_multiple_zero(d.fields(), u);
    assert(c * c >= pow2(230)) by {
        let a = pow2(115) as int;
        assert(c * c >= a * a) by (nonlinear_arith)
            requires
                c >= a >= 0,
        ;
    }
    let reached = v.len() <= 512 && s >= c * c;
    let e = 0x80_0000 * t;
    if reached {
        lemma_dot_error(v, v.len());
        lemma_pow2_adds(149, 81);
        lemma_pow2_adds(24, 57);
        lemma_pow2_pos(57);
        lemma_pow2_pos(149);
        vstd::arithmetic::power2::lemma2_to64();
        assert(s >= 2 * e) by {
            let (a, b) = (pow2(57) as int, pow2(81) as int);
            assert(t * b >= 2 * e) by (nonlinear_arith)
                requires
                    b == 0x100_0000 * a,
                    a > 0,
                    e == 0x80_0000 * t,
                    t > 0,
            {
                assert(b >= 0x100_0000);
                assert(t * b >= t * 0x100_0000);
            }
        }
        let n = v.len() as int;
        let b = s + e;
        assert(n * b <= 512 * b) by (nonlinear_arith)
            requires
                n <= 512,
                b >= 0,
        ;
        assert(-(s + e) <= 0x2000 * (x - s) <= s + e);
        assert(x > 0);
        assert(d.value() != 0) by {
            if d.value() == 0 {
                assert(0 * t == 0) by (nonlinear_arith);
            }
        }
    }
    if d.fields() == 0 {
        assert(d.value() == 0);
        assert(d.root() == d);
        assert(norm(v) == least);
    } else {
        lemma_root(d);
        let r = d.root();
        lemma_positive(r);
        if r.bits < least.bits {
            lemma_multiple_order(0x2edb_e6ff, r.fields(), u);
        } else {
            lemma_multiple_order(r.fields(), 0x2edb_e6ff, u);
        }
        if reached {
            lemma_norm_squared(s, x, e, r.value(), c, norm(v).value());
        }
    }
}

// ---------------------------------------------------------------------------
// Normalized vectors
// ---------------------------------------------------------------------------

/// A quotient by a norm is a number, and near to the exact one.
proof fn lemma_quotient(x: Binary32, m: Binary32)
    requires
        x.fields() <= 0x5f80_0000,
        0x2edb_e6ff <= m.bits < 0x7f80_0000,
    ensures
        ({
            let q = x.quotient(m);
            let exact = single().number(x.fields()) * pow2(149);
            let least = 0x80_0000 * m.value();
            let off = single().number(q.fields()) * m.value() - exact;
            &&& q.fields() <= 0x7180_0000
            &&& m.value() > 0
            &&& -(exact + least) <= 0x100_0000 * off <= exact + least
        }),
{
    let format = single();
    let u = format.unit();
    let t = pow2(149);
    lemma_even_unit(format);
    lemma_parts(format, x.bits as nat);
    lemma_positive(m);
    lemma_power_number(0x5d);
    lemma_power_number(0xbf);
    lemma_power_number(0xe3);
    lemma_multiple_order(m.fields(), 0x2e80_0000, u);
    lemma_multiple_order(0x5f80_0000, x.fields(), u);
    lemma_multiple_zero(0, u);
    lemma_pow2_pos(115);
    lemma_pow2_pos(149);
    lemma_pow2_pos(249);
    lemma_pow2_adds(213, 149);
    lemma_pow2_adds(249, 115);
    lemma_pow2_adds(362, 2);
    lemma_pow2_pos(2);
    lemma_pow2_pos(362);
    let (n, d) = (format.number(x.fields()), format.number(m.fields()));
    let num = n * t;
    let (a, b, c, e) = (pow2(213), pow2(249), pow2(115), pow2(2));
    assert(num <= b * d) by (nonlinear_arith)
        requires
            num == n * t,
            n <= a,
            d >= c,
            b * c == (a * t) * e,
            e > 0,
    {
        assert(n * t <= a * t);
        assert(b * d >= b * c);
        assert((a * t) * e >= a * t);
    }
    law_nearest_exists(format, num, d);
    law_rounding_keeps_order(format, num, d, 0x7180_0000);
    lemma_error(format, num, d);
    let q = x.quotient(m);
    let bits = format.quotient(x.bits as nat, m.bits as nat);
    if x.fields() == 0 {
        assert(0 * t == 0 && 0 * d == 0) by (nonlinear_arith);
        assert(bits == format.signed(format.negative(x.bits as nat), 0));
    } else {
        assert(bits == format.signed(format.negative(x.bits as nat), format.rounded(num, d)));
        let off = format.number(format.rounded(num, d)) * d - num;
        assert(2 * (0x80_0000 * off) == 0x100_0000 * off);
    }
    lemma_parts(format, q.bits as nat);
}

/// From the error of a number to that of its square.
proof fn lemma_squares(a: int, b: int, m: int)
    requires
        a >= 0,
        b >= 0,
        m >= 0,
        -(a + 0x80_0000 * m) <= 0x100_0000 * (b - a) <= a + 0x80_0000 * m,
    ensures
        ({
            let most = a * a + 0x100_0000_0000 * (m * m);
            -most <= 0x8_0000 * (b * b - a * a) <= most
        }),
{
    let (aa, am, mm) = (a * a, a * m, m * m);
    let e = a + 0x80_0000 * m;
    let f = 0x100_0000 * (b - a);
    let g = 0x200_0000 * a;
    let scaled = 0x1_0000_0000_0000 * (b * b - a * a);
    assert(scaled == f * (g + f)) by (nonlinear_arith)
        requires
            f == 0x100_0000 * (b - a),
            g == 0x200_0000 * a,
            scaled == 0x1_0000_0000_0000 * (b * b - a * a),
    ;
    assert(-(e * (g + e)) <= f * (g + f) <= e * (g + e)) by (nonlinear_arith)
        requires
            -e <= f <= e,
            g >= 0,
            e >= 0,
    {
        assert(f * g <= e * g && -(e * g) <= f * g);
        assert(f * f <= e * e && f * f >= 0);
    }
    assert(e * (g + e) == 0x200_0001 * aa + 0x1_0000_0100_0000 * am + 0x4000_0000_0000 * mm)
        by (nonlinear_arith)
        requires
            e == a + 0x80_0000 * m,
            g == 0x200_0000 * a,
            aa == a * a,
            am == a * m,
            mm == m * m,
    ;
    assert(0x20_0000 * am <= aa + 0x100_0000_0000 * mm && mm >= 0 && aa >= 0)
        by (nonlinear_arith)
        requires
            aa == a * a,
            am == a * m,
            mm == m * m,
    {
        let d = a - 0x10_0000 * m;
        assert(d * d >= 0);
        assert(d * d == a * a - 0x20_0000 * (a * m) + 0x100_0000_0000 * (m * m));
    }
}

/// How far the squares of the first `n` quotients, added up, can be from those of
/// the elements.
proof fn lemma_quotients(v: Seq<Binary32>, n: nat)
    requires
        squares_fit(v),
        n <= v.len(),
    ensures
        ({
            let m = norm(v).value() * norm(v).value();
            let whole = pow2(298) * square_sum(v, n);
            let most = whole + 0x100_0000_0000 * (n * m);
            let off = square_sum(normalized(v), n) * m - whole;
            -most <= 0x8_0000 * off <= most
        }),
    decreases n,
{
    let m = norm(v).value();
    let mm = m * m;
    let t = pow2(149) as int;
    let one = pow2(298) as int;
    if n == 0 {
        assert(one * 0 == 0 && 0 * mm == 0) by (nonlinear_arith);
    } else {
        let k = (n - 1) as nat;
        let x = v[n - 1];
        let q = normalized(v)[n - 1];
        let (y, z) = (single().number(x.fields()) as int, single().number(q.fields()) as int);
        lemma_quotients(v, k);
        lemma_dot(v, v.len());
        lemma_norm(v);
        lemma_quotient(x, norm(v));
        lemma_value_squared(x);
        lemma_value_squared(q);
        lemma_pow2_adds(149, 149);
        let (a, b) = (y * t, z * m);
        assert(a >= 0 && b >= 0) by (nonlinear_arith)
            requires
                a == y * t,
                b == z * m,
                y >= 0,
                t >= 0,
                z >= 0,
                m >= 0,
        ;
        lemma_squares(a, b, m);
        let (yy, zz) = (y * y, z * z);
        assert(a * a == one * yy && b * b == zz * mm) by (nonlinear_arith)
            requires
                a == y * t,
                b == z * m,
                one == t * t,
                yy == y * y,
                zz == z * z,
                mm == m * m,
        ;
        let (s, w) = (square_sum(v, k), square_sum(normalized(v), k));
        assert(one * (s + yy) == one * s + one * yy) by (nonlinear_arith);
        assert((w + zz) * mm == w * mm + zz * mm) by (nonlinear_arith);
        assert(n * mm == k * mm + mm) by (nonlinear_arith)
            requires
                n == k + 1,
        ;
    }
}

/// No element of a normalized vector is infinite or not a number, when none of
/// the vector is.
pub proof fn law_normalized_is_finite(v: Seq<Binary32>)
    requires
        all_finite(v),
    ensures
        normalized(v).len() == v.len(),
        all_finite(normalized(v)),
{
    let format = single();
    let d = dot(v, v, v.len());
    lemma_dot(v, v.len());
    lemma_even_unit(format);
    lemma_parts(format, d.bits as nat);
    if !d.finite() {
        let least = Binary32 { bits: 0x2edb_e6ff };
        assert(d.bits == 0x7f80_0000);
        assert(d.root() == d);
        lemma_positive(d);
        lemma_positive(least);
        lemma_multiple_order(0x7f80_0000, 0x2edb_e6ff, format.unit());
        assert(norm(v) == d);
    }
    assert forall|i: int| 0 <= i < v.len() implies (#[trigger] normalized(v)[i]).finite() by {
        if d.finite() {
            lemma_norm(v);
            lemma_quotient(v[i], norm(v));
        } else {
            let q = v[i].quotient(d);
            let bits = format.quotient(v[i].bits as nat, d.bits as nat);
            assert(bits == format.signed(format.negative(v[i].bits as nat), 0));
            lemma_parts(format, q.bits as nat);
        }
    }
}

/// What one step adds to a dot product, at most.
proof fn lemma_growth(d: int, p: int, e: int, most: int, n: int)
    requires
        0 <= n < 512,
        0 <= p <= most,
        most >= 0x10_0000,
        0 <= 0x10_0000 * d <= n * ((0x10_0000 + n) * most),
        0x100_0000 * (e - (d + p)) <= d + p + 0x80_0000,
    ensures
        0x10_0000 * e <= (n + 1) * ((0x10_0000 + (n + 1)) * most),
        d + p <= 513 * most,
{
    let nn = n * n;
    assert(nn <= 511 * n && nn >= 0) by (nonlinear_arith)
        requires
            nn == n * n,
            0 <= n < 512,
    ;
    let (a, b) = (n * most, nn * most);
    assert(n * ((0x10_0000 + n) * most) == 0x10_0000 * a + b && (n + 1) * ((0x10_0000 + (n + 1))
        * most) == 0x10_0000 * a + 0x10_0000 * most + b + 2 * a + most) by (nonlinear_arith)
        requires
            a == n * most,
            b == nn * most,
            nn == n * n,
    ;
    assert(0 <= b <= 511 * a && 0 <= a <= 511 * most) by (nonlinear_arith)
        requires
            a == n * most,
            b == nn * most,
            0 <= nn <= 511 * n,
            0 <= n <= 511,
            most >= 0,
    ;
}

/// Up to 2^59, the squares of the elements of an embedding can be added up.
pub proof fn law_moderate_squares_fit(v: Seq<Binary32>)
    requires
        moderate(v),
        v.len() <= EMBEDDING_DIM,
    ensures
        squares_fit(v),
{
    lemma_moderate_dot(v, v.len());
}

proof fn lemma_moderate_dot(v: Seq<Binary32>, n: nat)
    requires
        moderate(v),
        n <= v.len(),
        n <= 512,
    ensures
        dot(v, v, n).finite(),
        0x10_0000 * dot(v, v, n).value() <= n * ((0x10_0000 + n) * pow2(267)),
    decreases n,
{
    let format = single();
    let u = format.unit();
    let most = pow2(267) as int;
    lemma_even_unit(format);
    if n == 0 {
        lemma_multiple_zero(0, u);
        assert(0x8000_0000nat % 0x8000_0000 == 0);
        assert(0 * ((0x10_0000 + 0) * most) == 0) by (nonlinear_arith);
    } else {
        let k = (n - 1) as nat;
        let x = v[n - 1];
        let (d, p) = (dot(v, v, k), x.product(x));
        let t = pow2(149);
        lemma_moderate_dot(v, k);
        lemma_dot(v, k);
        lemma_square(x);
        lemma_positive(p);
        // The square is at most 2^118.
        lemma_power_number(0xba);
        lemma_power_number(0xf5);
        lemma_multiple_order(0x5d00_0000, x.fields(), u);
        lemma_pow2_pos(149);
        lemma_pow2_adds(208, 208);
        lemma_pow2_adds(267, 149);
        let (m, a) = (format.number(x.fields()), pow2(208));
        assert(m * m <= a * a) by (nonlinear_arith)
            requires
                m <= a,
        ;
        law_rounding_keeps_order(format, m * m, t, 0x7a80_0000);
        lemma_multiple_order(0x7a80_0000, p.fields(), u);
        lemma_accumulate(d, p);
        let e = d.sum(p);
        let exact = (d.value() + p.value()) as nat;
        lemma_pow2_adds(20, 247);
        lemma_pow2_adds(267, 9);
        lemma_pow2_pos(247);
        vstd::arithmetic::power2::lemma2_to64();
        assert(most >= 0x10_0000) by {
            let (g, h) = (pow2(20) as int, pow2(247) as int);
            assert(g * h >= g) by (nonlinear_arith)
                requires
                    h > 0,
                    g > 0,
            ;
        }
        // Far below the first number that is infinite.
        lemma_growth(d.value(), p.value(), d.value() + p.value(), most, k as int);
        law_rounding_keeps_order(format, exact, 1, 0x7f7f_ffff);
        lemma_near_top();
        lemma_parts(format, d.bits as nat);
        lemma_positive(e);
        assert(e.finite());
        lemma_growth(d.value(), p.value(), e.value(), most, k as int);
    }
}

/// The greatest number is above 2^127 by more than half.
proof fn lemma_near_top()
    ensures
        2 * single().number(0x7f7f_ffff) >= 3 * pow2(276),
{
    let format = single();
    let u = format.unit();
    lemma_even_unit(format);
    assert(0x7f7f_ffffnat % 0x80_0000 == 0x7f_ffff && 0x7f7f_ffffnat / 0x80_0000 == 254);
    lemma_pow2_adds(23, 253);
    lemma_pow2_pos(253);
    vstd::arithmetic::power2::lemma2_to64();
    let q = pow2(253);
    assert(2 * ((u + 0x7f_ffff) * q) >= 3 * (0x80_0000 * q)) by (nonlinear_arith)
        requires
            u == 0x80_0000,
            q > 0,
    ;
}

/// A normalized vector has length one up to rounding, where the length of the
/// vector is at least 1e-10 and its square does not overflow.
pub proof fn law_normalized_has_length_one(v: Seq<Binary32>)
    requires
        squares_fit(v),
        v.len() <= EMBEDDING_DIM,
        square_sum(v, v.len()) >= least_norm() * least_norm(),
    ensures
        has_length_one(normalized(v)),
{
    let n = v.len();
    let m = norm(v).value();
    let mm = m * m;
    let one = pow2(298) as int;
    let (s, w) = (square_sum(v, n), square_sum(normalized(v), n));
    lemma_norm(v);
    lemma_positive(norm(v));
    lemma_even_unit(single());
    lemma_multiple_zero(norm(v).fields(), single().unit());
    lemma_quotients(v, n);
    lemma_pow2_adds(64, 234);
    lemma_pow2_pos(234);
    vstd::arithmetic::power2::lemma2_to64();
    let whole = one * mm;
    assert(mm > 0) by (nonlinear_arith)
        requires
            mm == m * m,
            m > 0,
    ;
    assert(one >= 0x1_0000_0000_0000_0000) by {
        let (a, b) = (pow2(64), pow2(234));
        assert(a * b >= a) by (nonlinear_arith)
            requires
                b > 0,
        ;
    }
    assert(whole >= 0x1_0000_0000_0000_0000 * mm && n * mm <= 512 * mm) by (nonlinear_arith)
        requires
            whole == one * mm,
            one >= 0x1_0000_0000_0000_0000,
            mm > 0,
            n <= 512,
    ;
    assert(-whole <= 3000 * (one * s - whole) <= whole) by (nonlinear_arith)
        requires
            whole == one * mm,
            one > 0,
            -mm <= 3000 * (s - mm) <= mm,
    {
        let d = s - mm;
        assert(one * s - one * mm == one * d);
        assert(one * (3000 * d) <= one * mm);
        assert(one * (3000 * d) >= one * (-mm));
    }
    assert(-whole <= 2048 * (w * mm - whole) <= whole);
    let off = w - one;
    assert(-one <= 2048 * off <= one) by (nonlinear_arith)
        requires
            whole == one * mm,
            off == w - one,
            mm > 0,
            -whole <= 2048 * (w * mm - whole) <= whole,
    {
        assert(w * mm - one * mm == off * mm);
        assert((2048 * off - one) * mm <= 0);
        assert((2048 * off + one) * mm >= 0);
    }
}

// ---------------------------------------------------------------------------
// Averages
// ---------------------------------------------------------------------------

/// All elements are numbers of a magnitude of at most 2^34.
pub open spec fn small_elements(embeddings: Seq<Vec<Binary32>>) -> bool {
    forall|k: int, i: int|
        0 <= k < embeddings.len() && 0 <= i < embeddings[k]@.len() ==> (
        #[trigger] embeddings[k]@[i]).fields() <= 0x5080_0000
}

/// A sum of elements does not exceed 2^59: there, adding 2^34 is lost.
proof fn lemma_total(embeddings: Seq<Vec<Binary32>>, i: int, k: nat)
    requires
        small_elements(embeddings),
        0 <= i,
        k <= embeddings.len(),
    ensures
        total(embeddings, i, k).fields() <= 0x5d00_0000,
    decreases k,
{
    if k > 0 {
        let before = total(embeddings, i, (k - 1) as nat);
        let last = embeddings[k - 1]@;
        lemma_total(embeddings, i, (k - 1) as nat);
        if i < last.len() {
            lemma_capped_sum(before, last[i]);
        }
    }
}

proof fn lemma_capped_sum(a: Binary32, b: Binary32)
    requires
        a.fields() <= 0x5d00_0000,
        b.fields() <= 0x5080_0000,
    ensures
        a.sum(b).fields() <= 0x5d00_0000,
{
    let format = single();
    let u = format.unit();
    lemma_even_unit(format);
    lemma_power_number(0xa1);
    lemma_power_number(0xba);
    lemma_multiple_order(0x5080_0000, b.fields(), u);
    lemma_multiple_order(0x5d00_0000, a.fields(), u);
    let v = a.value() + b.value();
    let size = if v < 0 {
        (-v) as nat
    } else {
        v as nat
    };
    let top = format.number(0x5d00_0000);
    let next = format.number(0x5d00_0001);
    assert(next == top + pow2(185)) by {
        assert(0x5d00_0001nat % 0x80_0000 == 1 && 0x5d00_0001nat / 0x80_0000 == 186);
        assert(0x5d00_0000nat % 0x80_0000 == 0 && 0x5d00_0000nat / 0x80_0000 == 186);
        let q = pow2(185);
        assert((u + 1) * q == u * q + q) by (nonlinear_arith);
        assert((u + 0) * q == u * q);
    }
    vstd::arithmetic::power2::lemma2_to64();
    lemma_pow2_adds(183, 2);
    lemma_pow2_pos(183);
    law_nearest_exists(format, size, 1);
    lemma_below_middle(format, size, 1, 0x5d00_0000);
    lemma_parts(format, a.sum(b).bits as nat);
}

/// No element of the mean exceeds 2^59.
proof fn lemma_mean(embeddings: Seq<Vec<Binary32>>)
    requires
        embeddings.len() > 0,
        small_elements(embeddings),
    ensures
        moderate(mean(embeddings)),
{
    let format = single();
    let u = format.unit();
    let t = pow2(149);
    let len = embeddings.len();
    let count = Binary32::of_int(len as int);
    lemma_even_unit(format);
    lemma_power_number(0x7f);
    lemma_pow2_pos(149);
    law_nearest_exists(format, len * t, 1);
    assert(len * t >= t) by (nonlinear_arith)
        requires
            len >= 1,
    ;
    law_rounding_keeps_order(format, len * t, 1, 0x3f80_0000);
    lemma_positive(count);
    lemma_multiple_order(count.fields(), 0x3f80_0000, u);
    assert forall|i: int| 0 <= i < mean(embeddings).len() implies (#[trigger] mean(
        embeddings,
    )[i]).fields() <= 0x5d00_0000 by {
        let sum = total(embeddings, i, len);
        let q = sum.quotient(count);
        lemma_total(embeddings, i, len);
        lemma_parts(format, sum.bits as nat);
        let (n, d) = (format.number(sum.fields()), format.number(count.fields()));
        assert(n * t <= n * d) by (nonlinear_arith)
            requires
                t <= d,
        ;
        law_nearest_exists(format, n * t, d);
        law_rounding_keeps_order(format, n * t, d, sum.fields());
        lemma_parts(format, q.bits as nat);
    }
}

/// No element of an average is infinite or not a number, when none of the mean
/// is; in particular when the elements of the embeddings are numbers of a
/// magnitude of at most 2^34.
pub proof fn law_average_is_finite(embeddings: Seq<Vec<Binary32>>)
    requires
        embeddings.len() > 0,
        all_finite(mean(embeddings)) || small_elements(embeddings),
    ensures
        normalized(mean(embeddings)).len() == EMBEDDING_DIM,
        all_finite(normalized(mean(embeddings))),
{
    if small_elements(embeddings) {
        lemma_mean(embeddings);
    }
    law_normalized_is_finite(mean(embeddings));
}

/// An average has length one up to rounding, where the length of the mean is at
/// least 1e-10 and its square does not overflow, as it cannot while the elements
/// of the embeddings are numbers of a magnitude of at most 2^34.
pub proof fn law_average_has_length_one(embeddings: Seq<Vec<Binary32>>)
    requires
        embeddings.len() > 0,
        squares_fit(mean(embeddings)) || small_elements(embeddings),
        square_sum(mean(embeddings), EMBEDDING_DIM as nat) >= least_norm() * least_norm(),
    ensures
        has_length_one(normalized(mean(embeddings))),
{
    if small_elements(embeddings) {
        lemma_mean(embeddings);
        law_moderate_squares_fit(mean(embeddings));
    }
    law_normalized_has_length_one(mean(embeddings));
}

// ---------------------------------------------------------------------------
// Similarity
// ---------------------------------------------------------------------------

/// The products of the first `n` elements, added up exactly, in squares of the
/// smallest number.
pub open spec fn exact_dot(a: Seq<Binary32>, b: Seq<Binary32>, n: nat) -> int
    decreases n,
{
    if n == 0 {
        0
    } else {
        exact_dot(a, b, (n - 1) as nat) + a[n - 1].value() * b[n - 1].value()
    }
}

/// The magnitudes of the products of the first `n` elements, added up exactly.
pub open spec fn exact_size(a: Seq<Binary32>, b: Seq<Binary32>, n: nat) -> int
    decreases n,
{
    if n == 0 {
        0
    } else {
        exact_size(a, b, (n - 1) as nat) + magnitude(a[n - 1].value() * b[n - 1].value())
    }
}

/// What one step adds to the error of a dot product of either sign.
proof fn lemma_signed_error_grows(
    d: int,
    p: int,
    e: int,
    x: int,
    q: int,
    s: int,
    t: int,
    n: int,
)
    requires
        1 <= n <= 0x40_0000,
        magnitude(x) <= s,
        t > 0,
        ({
            let most = 2 * ((n - 1) * (s + 0x80_0000 * t));
            -most <= 0x80_0000 * (d * t - x) <= most
        }),
        near(p * t, q, t),
        near(e, d + p, 1),
    ensures
        ({
            let most = 2 * (n * (s + magnitude(q) + 0x80_0000 * t));
            -most <= 0x80_0000 * (e * t - (x + q)) <= most
        }),
{
    let ut = 0x80_0000 * t;
    let mq = magnitude(q);
    let b = s + mq + ut;
    let (f, g, h) = (d * t - x, p * t - q, e - (d + p));
    assert(e * t - (x + q) == h * t + f + g) by (nonlinear_arith)
        requires
            f == d * t - x,
            g == p * t - q,
            h == e - (d + p),
    ;
    let dp = (d + p) * t;
    assert(dp == x + f + q + g) by (nonlinear_arith)
        requires
            dp == (d + p) * t,
            f == d * t - x,
            g == p * t - q,
    ;
    let m = magnitude(d + p);
    assert(m * t == magnitude(dp)) by (nonlinear_arith)
        requires
            m == d + p || m == -(d + p),
            m >= 0,
            dp == (d + p) * t,
            t > 0,
    ;
    assert(-(m * t + ut) <= 0x100_0000 * (h * t) <= m * t + ut) by (nonlinear_arith)
        requires
            -(m + 0x80_0000) <= 0x100_0000 * h <= m + 0x80_0000,
            ut == 0x80_0000 * t,
            t > 0,
    ;
    let (v, w) = ((n - 1) * (s + ut), (n - 1) * b);
    assert(0 <= v <= w && w <= 0x40_0000 * b && n * b == w + b) by (nonlinear_arith)
        requires
            v == (n - 1) * (s + ut),
            w == (n - 1) * b,
            b == s + mq + ut,
            1 <= n <= 0x40_0000,
            s >= 0,
            mq >= 0,
            ut >= 0,
    ;
    assert(-(2 * w) <= 0x80_0000 * f <= 2 * w);
    assert(-b <= 0x100_0000 * g <= b);
    assert(-b <= f <= b);
    assert(magnitude(dp) <= s + mq + b + magnitude(g));
    assert(-(3 * b) <= 0x100_0000 * (h * t) <= 3 * b);
}

/// How far a dot product can be from the exact one.
proof fn lemma_signed_dot(a: Seq<Binary32>, b: Seq<Binary32>, n: nat)
    requires
        n <= 0x40_0000,
        dot(a, b, n).finite(),
    ensures
        forall|i: int| 0 <= i < n ==> (#[trigger] a[i]).finite() && b[i].finite(),
        magnitude(exact_dot(a, b, n)) <= exact_size(a, b, n),
        ({
            let t = pow2(149) as int;
            let off = dot(a, b, n).value() * t - exact_dot(a, b, n);
            let most = 2 * (n * (exact_size(a, b, n) + 0x80_0000 * t));
            -most <= 0x80_0000 * off <= most
        }),
    decreases n,
{
    let t = pow2(149) as int;
    lemma_pow2_pos(149);
    if n == 0 {
        lemma_even_unit(single());
        lemma_multiple_zero(0, single().unit());
        assert(0x8000_0000nat % 0x8000_0000 == 0);
        assert(0 * t == 0) by (nonlinear_arith);
        let u = 0x80_0000 * t;
        assert(0 * (0 + u) == 0) by (nonlinear_arith);
    } else {
        let k = (n - 1) as nat;
        let (x, y) = (a[n - 1], b[n - 1]);
        let (d, p) = (dot(a, b, k), x.product(y));
        law_finite_results_have_finite_operands(d, p);
        law_finite_results_have_finite_operands(x, y);
        lemma_signed_dot(a, b, k);
        law_product_is_near(x, y, 0);
        law_sum_is_near(d, p, 0);
        lemma_signed_error_grows(
            d.value(),
            p.value(),
            dot(a, b, n).value(),
            exact_dot(a, b, k),
            x.value() * y.value(),
            exact_size(a, b, k),
            t,
            n as int,
        );
    }
}

/// The similarity of two vectors is near to the exact sum of the products of all
/// their elements, as far as both reach: it differs by no more than a share of
/// n/2^22 of the magnitudes of these products, added up, for `n` of them.
/// (Similarities count in 2^-1074, products of elements in 2^-298.)
pub proof fn law_similarity_is_near_exact(a: Seq<Binary32>, b: Seq<Binary32>, n: nat)
    requires
        n == if a.len() <= b.len() {
            a.len()
        } else {
            b.len()
        },
        n <= 0x40_0000,
        cosine(a, b).finite(),
    ensures
        ({
            let off = cosine(a, b).value() - pow2(776) * exact_dot(a, b, n);
            let most = 2 * (n * (pow2(776) * (exact_size(a, b, n) + 0x80_0000 * pow2(149))));
            -most <= 0x80_0000 * off <= most
        }),
{
    let d = dot(a, b, n);
    let t = pow2(149) as int;
    let (k, w) = (pow2(776) as int, pow2(925) as int);
    law_widening_is_exact(d);
    lemma_signed_dot(a, b, n);
    lemma_pow2_adds(776, 149);
    lemma_pow2_pos(776);
    let (v, x, s) = (d.value(), exact_dot(a, b, n), exact_size(a, b, n) + 0x80_0000 * t);
    let off = v * t - x;
    assert(v * w - k * x == k * off) by (nonlinear_arith)
        requires
            off == v * t - x,
            w == k * t,
    ;
    let (m, ks) = (n * s, k * s);
    assert(n * ks == k * m) by (nonlinear_arith)
        requires
            m == n * s,
            ks == k * s,
    ;
    assert(-(2 * (k * m)) <= 0x80_0000 * (k * off) <= 2 * (k * m)) by (nonlinear_arith)
        requires
            -(2 * m) <= 0x80_0000 * off <= 2 * m,
            k > 0,
    ;
}

/// Embeddings of numbers of a magnitude of at most 2^50 have a similarity: it is
/// finite.
pub proof fn law_similarity_is_finite(a: Seq<Binary32>, b: Seq<Binary32>)
    requires
        a.len() <= EMBEDDING_DIM || b.len() <= EMBEDDING_DIM,
        forall|i: int| 0 <= i < a.len() ==> (#[trigger] a[i]).fields() <= 0x5880_0000,
        forall|i: int| 0 <= i < b.len() ==> (#[trigger] b[i]).fields() <= 0x5880_0000,
    ensures
        cosine(a, b).finite(),
{
    let n = if a.len() <= b.len() {
        a.len()
    } else {
        b.len()
    };
    lemma_small_dot(a, b, n);
    law_widening_is_exact(dot(a, b, n));
}

/// The sum of `n` products does not exceed `2n` times 2^100.
proof fn lemma_small_dot(a: Seq<Binary32>, b: Seq<Binary32>, n: nat)
    requires
        n <= a.len(),
        n <= b.len(),
        n <= 512,
        forall|i: int| 0 <= i < a.len() ==> (#[trigger] a[i]).fields() <= 0x5880_0000,
        forall|i: int| 0 <= i < b.len() ==> (#[trigger] b[i]).fields() <= 0x5880_0000,
    ensures
        dot(a, b, n).finite(),
        magnitude(dot(a, b, n).value()) <= (2 * n) * pow2(249),
    decreases n,
{
    let format = single();
    let u = format.unit();
    let most = pow2(249) as int;
    lemma_even_unit(format);
    if n == 0 {
        lemma_multiple_zero(0, u);
        assert(0x8000_0000nat % 0x8000_0000 == 0);
        assert(0 * most == 0) by (nonlinear_arith);
    } else {
        let k = (n - 1) as nat;
        let (x, y) = (a[n - 1], b[n - 1]);
        let (d, p) = (dot(a, b, k), x.product(y));
        lemma_small_dot(a, b, k);
        // The product is at most 2^100.
        lemma_power_number(0xb1);
        lemma_power_number(0xe3);
        lemma_power_number(0xf7);
        lemma_multiple_order(0x5880_0000, x.fields(), u);
        lemma_multiple_order(0x5880_0000, y.fields(), u);
        lemma_pow2_adds(199, 199);
        lemma_pow2_adds(249, 149);
        let (v, w, c) = (x.value(), y.value(), pow2(199) as int);
        assert(magnitude(v * w) <= c * c) by (nonlinear_arith)
            requires
                -c <= v <= c,
                -c <= w <= c,
        ;
        law_product_is_near(x, y, 0x7180_0000);
        lemma_multiple_order(0x7180_0000, p.fields(), u);
        assert(magnitude(p.value()) <= most);
        // The sum stays far below the first number that is infinite.
        let (before, after) = ((2 * k) * most, (2 * n) * most);
        lemma_pow2_adds(249, 20);
        lemma_pow2_adds(23, 226);
        lemma_pow2_pos(226);
        vstd::arithmetic::power2::lemma2_to64();
        assert(before + most <= 1023 * most && after == before + 2 * most && most >= 0x80_0000)
            by (nonlinear_arith)
            requires
                before == (2 * k) * most,
                after == (2 * n) * most,
                n == k + 1,
                n <= 512,
                most == 0x80_0000 * pow2(226),
                pow2(226) > 0,
        ;
        law_sum_is_near(d, p, 0x7b80_0000);
    }
}

/// The mean of any number of embeddings is finite when their elements are numbers
/// of a magnitude of at most 2^34.
pub proof fn law_mean_is_finite(embeddings: Seq<Vec<Binary32>>)
    requires
        embeddings.len() > 0,
        small_elements(embeddings),
    ensures
        mean(embeddings).len() == EMBEDDING_DIM,
        all_finite(mean(embeddings)),
{
    lemma_mean(embeddings);
}

/// A vector with itself: the products are squares.
proof fn lemma_exact_self(v: Seq<Binary32>, n: nat)
    ensures
        exact_dot(v, v, n) == square_sum(v, n),
        exact_size(v, v, n) == square_sum(v, n),
        square_sum(v, n) >= 0,
    decreases n,
{
    if n > 0 {
        lemma_exact_self(v, (n - 1) as nat);
        let x = v[n - 1].value();
        assert(x * x >= 0) by (nonlinear_arith);
    }
}

/// No element is greater than the length.
proof fn lemma_element_within(v: Seq<Binary32>, n: nat, i: int)
    requires
        0 <= i < n,
    ensures
        v[i].value() * v[i].value() <= square_sum(v, n),
    decreases n,
{
    lemma_exact_self(v, (n - 1) as nat);
    let x = v[n - 1].value();
    assert(x * x >= 0) by (nonlinear_arith);
    if i < n - 1 {
        lemma_element_within(v, (n - 1) as nat, i);
    }
}

/// A vector of length one has moderate elements.
proof fn lemma_length_one_is_moderate(v: Seq<Binary32>)
    requires
        has_length_one(v),
    ensures
        moderate(v),
{
    let u = single().unit();
    lemma_even_unit(single());
    lemma_power_number(0xba);
    lemma_pow2_adds(208, 208);
    lemma_pow2_adds(298, 118);
    lemma_pow2_pos(298);
    lemma_pow2_pos(117);
    lemma_pow2_adds(117, 1);
    vstd::arithmetic::power2::lemma2_to64();
    assert forall|i: int| 0 <= i < v.len() implies (#[trigger] v[i]).fields() <= 0x5d00_0000 by {
        lemma_element_within(v, v.len(), i);
        lemma_value_squared(v[i]);
        let n = single().number(v[i].fields());
        if v[i].fields() > 0x5d00_0000 {
            lemma_multiple_order(0x5d00_0000, v[i].fields(), u);
            let (a, b, c) = (pow2(208), pow2(298), pow2(118));
            assert(n * n >= 2 * b) by (nonlinear_arith)
                requires
                    n >= a,
                    a * a == b * c,
                    c >= 2,
                    b >= 0,
            {
                assert(n * n >= a * a);
                assert(b * c >= b * 2);
            }
        }
    }
}

/// A vector of length one has the similarity one to itself, up to rounding: it
/// differs from one by no more than 1/1024.
pub proof fn law_self_similarity_is_one(v: Seq<Binary32>)
    requires
        has_length_one(v),
        v.len() <= EMBEDDING_DIM,
    ensures
        cosine(v, v).finite(),
        ({
            let one = pow2(1074) as int;
            -one <= 1024 * (cosine(v, v).value() - one) <= one
        }),
{
    let n = v.len();
    let d = dot(v, v, n);
    let s = square_sum(v, n);
    let (k, t, one) = (pow2(776) as int, pow2(149) as int, pow2(298) as int);
    lemma_length_one_is_moderate(v);
    law_moderate_squares_fit(v);
    law_widening_is_exact(d);
    lemma_exact_self(v, n);
    law_similarity_is_near_exact(v, v, n);
    lemma_pow2_adds(776, 298);
    lemma_pow2_adds(149, 149);
    lemma_pow2_adds(64, 85);
    lemma_pow2_pos(776);
    lemma_pow2_pos(149);
    lemma_pow2_pos(85);
    vstd::arithmetic::power2::lemma2_to64();
    assert(one >= 0x1_0000_0000_0000_0000 * t) by {
        let (a, b) = (pow2(64) as int, pow2(85) as int);
        assert(t * t >= a * t) by (nonlinear_arith)
            requires
                t == a * b,
                b >= 1,
                a >= 0,
                t >= 0,
        ;
    }
    let m = s + 0x80_0000 * t;
    let (km, ks, kone) = (k * m, k * s, k * one);
    assert(n * km <= 512 * km && km <= 2 * kone && -kone <= 2048 * (ks - kone) <= kone && km >= 0)
        by (nonlinear_arith)
        requires
            n <= 512,
            k > 0,
            km == k * m,
            ks == k * s,
            kone == k * one,
            0 <= m <= 2 * one,
            -one <= 2048 * (s - one) <= one,
    {
        assert(k * m <= k * (2 * one));
        assert(k * (2048 * (s - one)) <= k * one);
        assert(k * (2048 * (s - one)) >= k * (-one));
        assert(k * m >= 0);
    }
    let c = cosine(v, v).value();
    assert(-(1024 * km) <= 0x80_0000 * (c - ks) <= 1024 * km);
    assert(kone == pow2(1074));
}

/// A face that looks as one did at enrolment is most similar to it: the
/// similarity of a normalized vector to itself is one, up to rounding, and so a
/// match.
pub proof fn law_same_face_matches(v: Seq<Binary32>)
    requires
        squares_fit(v),
        v.len() <= EMBEDDING_DIM,
        square_sum(v, v.len()) >= least_norm() * least_norm(),
    ensures
        matches_threshold(cosine(normalized(v), normalized(v))),
{
    law_normalized_has_length_one(v);
    law_self_similarity_is_one(normalized(v));
    law_match_is_two_fifths(cosine(normalized(v), normalized(v)));
    lemma_pow2_pos(1074);
}

/// Minus one.
proof fn lemma_lowest()
    ensures
        lowest().value() == -pow2(1074),
        !lowest().is_nan(),
{
    let f = 0x3ff0_0000_0000_0000nat;
    lemma_even_unit(double());
    assert(0xbff0_0000_0000_0000nat % 0x8000_0000_0000_0000 == f);
    assert(f % 0x10_0000_0000_0000 == 0 && f / 0x10_0000_0000_0000 == 1023);
    lemma_pow2_adds(52, 1022);
    vstd::arithmetic::power2::lemma2_to64_rest();
    let (u, p) = (0x10_0000_0000_0000nat, pow2(1022));
    assert((u + 0) * p == u * p);
}

/// The closest identity is the closest of all that are enrolled: none whose
/// similarity to the query is above minus one is more similar, the name and the
/// similarity are those of an enrolled one, and nobody is named if there is no
/// such similarity.
pub proof fn law_best_match_is_the_closest(
    db: Seq<(Seq<char>, Seq<Binary32>)>,
    query: Seq<Binary32>,
    name: Seq<char>,
    sim: Binary64,
)
    requires
        best_match(db, similarities(db, query), name, sim),
    ensures
        forall|i: int|
            0 <= i < db.len() && !cosine(query, (#[trigger] db[i]).1).is_nan() && cosine(
                query,
                db[i].1,
            ).value() > -pow2(1074) ==> cosine(query, db[i].1).value() <= sim.value(),
        (exists|i: int|
            0 <= i < db.len() && !cosine(query, (#[trigger] db[i]).1).is_nan() && cosine(
                query,
                db[i].1,
            ).value() > -pow2(1074)) ==> exists|j: int|
            0 <= j < db.len() && (#[trigger] db[j]).0 == name && cosine(query, db[j].1) == sim,
        !(exists|i: int|
            0 <= i < db.len() && !cosine(query, (#[trigger] db[i]).1).is_nan() && cosine(
                query,
                db[i].1,
            ).value() > -pow2(1074)) ==> name == "UNKNOWN"@ && sim.value() == -pow2(1074),
{
    let sims = similarities(db, query);
    lemma_lowest();
    assert forall|i: int| 0 <= i < db.len() implies #[trigger] sims[i] == cosine(query, db[i].1) by {
    }
    if any_counts(sims) {
        let j = choose|j: int|
            0 <= j < sims.len() && sim == #[trigger] sims[j] && name == db[j].0 && first_greatest(
                sims,
                j,
            );
        assert(db[j].0 == name && cosine(query, db[j].1) == sim);
        assert forall|i: int|
            0 <= i < db.len() && !cosine(query, (#[trigger] db[i]).1).is_nan() && cosine(
                query,
                db[i].1,
            ).value() > -pow2(1074) implies cosine(query, db[i].1).value() <= sim.value() by {
            assert(!sims[j].less(sims[i]));
        }
    } else {
        assert forall|i: int| 0 <= i < db.len() implies cosine(query, (#[trigger] db[i]).1).is_nan()
            || cosine(query, db[i].1).value() <= -pow2(1074) by {
            assert(!lowest().less(sims[i]));
        }
    }
}

/// Whoever is enrolled with an embedding of length one is recognized by it: the
/// closest identity is a match, and as similar as one, up to rounding.
pub proof fn law_enrolled_face_is_recognized(
    db: Seq<(Seq<char>, Seq<Binary32>)>,
    i: int,
    name: Seq<char>,
    sim: Binary64,
)
    requires
        0 <= i < db.len(),
        has_length_one(db[i].1),
        db[i].1.len() <= EMBEDDING_DIM,
        best_match(db, similarities(db, db[i].1), name, sim),
    ensures
        matches_threshold(sim),
        1024 * sim.value() >= 1023 * pow2(1074),
        exists|j: int|
            0 <= j < db.len() && (#[trigger] db[j]).0 == name && cosine(db[i].1, db[j].1) == sim,
{
    let query = db[i].1;
    law_self_similarity_is_one(query);
    law_best_match_is_the_closest(db, query, name, sim);
    lemma_pow2_pos(1074);
    lemma_even_unit(double());
    assert(!cosine(query, db[i].1).is_nan());
    let j = choose|j: int|
        0 <= j < db.len() && (#[trigger] db[j]).0 == name && cosine(query, db[j].1) == sim;
    law_match_is_two_fifths(sim);
    lemma_similarity_is_number(db, query, name, sim);
}

/// A similarity that is the greatest is a number.
proof fn lemma_similarity_is_number(
    db: Seq<(Seq<char>, Seq<Binary32>)>,
    query: Seq<Binary32>,
    name: Seq<char>,
    sim: Binary64,
)
    requires
        best_match(db, similarities(db, query), name, sim),
    ensures
        !sim.is_nan(),
{
    lemma_lowest();
}

/// Every element of a normalized vector is the element of the vector divided by
/// one and the same length, up to rounding, and with the same sign.
pub proof fn law_normalized_is_proportional(v: Seq<Binary32>) -> (length: int)
    requires
        squares_fit(v),
    ensures
        length > 0,
        normalized(v).len() == v.len(),
        forall|i: int|
            0 <= i < v.len() ==> near(
                (#[trigger] normalized(v)[i]).value() * length,
                v[i].value() * pow2(149),
                length,
            ),
        v.len() <= EMBEDDING_DIM && square_sum(v, v.len()) >= least_norm() * least_norm()
            ==> -(length * length) <= 3000 * (square_sum(v, v.len()) - length * length) <= length
            * length,
{
    let m = norm(v);
    lemma_dot(v, v.len());
    lemma_norm(v);
    lemma_positive(m);
    lemma_even_unit(single());
    lemma_multiple_zero(m.fields(), single().unit());
    assert forall|i: int| 0 <= i < v.len() implies near(
        (#[trigger] normalized(v)[i]).value() * m.value(),
        v[i].value() * pow2(149),
        m.value(),
    ) by {
        lemma_quotient(v[i], m);
        law_quotient_is_near(v[i], m, 0);
    }
    m.value()
}

// ---------------------------------------------------------------------------
// Means
// ---------------------------------------------------------------------------

/// Element `i` of an embedding, if it reaches so far.
pub open spec fn element(embedding: Vec<Binary32>, i: int) -> int {
    if i < embedding@.len() {
        embedding@[i].value()
    } else {
        0
    }
}

/// The elements at `i` of the first `k` embeddings, added up exactly.
pub open spec fn exact_total(embeddings: Seq<Vec<Binary32>>, i: int, k: nat) -> int
    decreases k,
{
    if k == 0 {
        0
    } else {
        exact_total(embeddings, i, (k - 1) as nat) + element(embeddings[k - 1], i)
    }
}

/// The magnitudes of the elements at `i` of the first `k` embeddings, added up.
pub open spec fn total_size(embeddings: Seq<Vec<Binary32>>, i: int, k: nat) -> int
    decreases k,
{
    if k == 0 {
        0
    } else {
        total_size(embeddings, i, (k - 1) as nat) + magnitude(element(embeddings[k - 1], i))
    }
}

/// How far a sum of elements can be from the exact one.
proof fn lemma_total_error(embeddings: Seq<Vec<Binary32>>, i: int, k: nat)
    requires
        k <= 0x40_0000,
        total(embeddings, i, k).finite(),
    ensures
        magnitude(exact_total(embeddings, i, k)) <= total_size(embeddings, i, k),
        ({
            let off = total(embeddings, i, k).value() - exact_total(embeddings, i, k);
            let most = k * (total_size(embeddings, i, k) + 0x80_0000);
            -most <= 0x80_0000 * off <= most
        }),
    decreases k,
{
    if k == 0 {
        lemma_even_unit(single());
        lemma_multiple_zero(0, single().unit());
        assert(0nat % 0x8000_0000 == 0);
        assert(0 * (0 + 0x80_0000) == 0);
    } else {
        let j = (k - 1) as nat;
        let before = total(embeddings, i, j);
        let last = embeddings[k - 1]@;
        let (x, s) = (exact_total(embeddings, i, j), total_size(embeddings, i, j));
        let q = element(embeddings[k - 1], i);
        let b = s + magnitude(q) + 0x80_0000;
        if i < last.len() {
            law_finite_results_have_finite_operands(before, last[i]);
            lemma_total_error(embeddings, i, j);
            law_sum_is_near(before, last[i], 0);
        } else {
            lemma_total_error(embeddings, i, j);
        }
        assert(j * (s + 0x80_0000) <= j * b && j * b <= 0x40_0000 * b && k * b == j * b + b)
            by (nonlinear_arith)
            requires
                s + 0x80_0000 <= b,
                0 <= j <= 0x40_0000,
                k == j + 1,
                b >= 0,
        ;
        let f = before.value() - x;
        assert(-(j * b) <= 0x80_0000 * f <= j * b);
        assert(-b <= f <= b);
    }
}

/// Each element of the mean, times the number of embeddings, is near to the exact
/// sum of that element over all of them: it differs by no more than a share of
/// n/2^22 of the magnitudes of these elements, added up, for `n` embeddings.
pub proof fn law_mean_is_near_exact(embeddings: Seq<Vec<Binary32>>, i: int)
    requires
        0 < embeddings.len() <= 0x40_0000,
        0 <= i < EMBEDDING_DIM,
        mean(embeddings)[i].finite(),
    ensures
        ({
            let n = embeddings.len();
            let off = mean(embeddings)[i].value() * n - exact_total(embeddings, i, n);
            let most = 2 * (n * (total_size(embeddings, i, n) + 0x80_0000));
            -most <= 0x80_0000 * off <= most
        }),
{
    let format = single();
    let n = embeddings.len();
    let t = pow2(149) as int;
    let sum = total(embeddings, i, n);
    let count = Binary32::of_int(n as int);
    let m = sum.quotient(count);
    assert(mean(embeddings)[i] == m);
    lemma_pow2_pos(149);
    lemma_even_unit(format);
    law_of_int_is_near(n as int);
    assert(n * t > 0) by (nonlinear_arith)
        requires
            n > 0,
            t > 0,
    ;
    lemma_multiple_zero(count.fields(), format.unit());
    lemma_parts(format, sum.bits as nat);
    lemma_parts(format, count.bits as nat);
    lemma_infinite_quotient(sum, count);
    law_quotient_is_near(sum, count, 0);
    lemma_total_error(embeddings, i, n);
    let (v, s) = (m.value(), sum.value());
    let off = v * n - s;
    assert(v * (n * t) - s * t == off * t && magnitude(s * t) == magnitude(s) * t)
        by (nonlinear_arith)
        requires
            off == v * n - s,
            t > 0,
    ;
    let most = magnitude(s) + 0x80_0000 * n;
    assert(-most <= 0x100_0000 * off <= most) by (nonlinear_arith)
        requires
            -(magnitude(s) * t + 0x80_0000 * (n * t)) <= 0x100_0000 * (off * t) <= magnitude(s) * t
                + 0x80_0000 * (n * t),
            most == magnitude(s) + 0x80_0000 * n,
            t > 0,
    {
        assert(magnitude(s) * t + 0x80_0000 * (n * t) == most * t);
        assert((0x100_0000 * off) * t == 0x100_0000 * (off * t));
        assert((0x100_0000 * off) * t <= most * t);
        assert((0x100_0000 * off) * t >= (-most) * t);
    }
    let size = total_size(embeddings, i, n);
    let b = size + 0x80_0000;
    let nb = n * b;
    assert(nb >= b && nb >= 0x80_0000 * n && nb <= 0x40_0000 * b) by (nonlinear_arith)
        requires
            nb == n * b,
            b == size + 0x80_0000,
            size >= 0,
            1 <= n <= 0x40_0000,
    ;
}

/// What is infinite or no number stays so when it is divided by a finite number.
proof fn lemma_infinite_quotient(a: Binary32, b: Binary32)
    requires
        b.finite(),
        b.fields() > 0,
    ensures
        a.quotient(b).finite() ==> a.finite(),
{
    let format = single();
    lemma_even_unit(format);
    lemma_parts(format, a.bits as nat);
    lemma_parts(format, b.bits as nat);
    let nan = format.no_number();
    assert(nan % 0x8000_0000 == nan);
    assert(0xff80_0000nat % 0x8000_0000 == 0x7f80_0000);
    assert(0x7f80_0000nat % 0x8000_0000 == 0x7f80_0000);
}

/// The order of the embeddings has no influence on the exact sums, so that their
/// means differ by no more than rounding: twice what the mean of either order
/// can be off.
pub proof fn law_mean_ignores_order(
    one: Seq<Vec<Binary32>>,
    other: Seq<Vec<Binary32>>,
    i: int,
)
    requires
        0 < one.len() <= 0x40_0000,
        one.to_multiset() == other.to_multiset(),
        0 <= i < EMBEDDING_DIM,
        mean(one)[i].finite(),
        mean(other)[i].finite(),
    ensures
        ({
            let n = one.len();
            let off = mean(one)[i].value() * n - mean(other)[i].value() * n;
            let most = 4 * (n * (total_size(one, i, n) + 0x80_0000));
            -most <= 0x80_0000 * off <= most
        }),
{
    one.to_multiset_ensures();
    other.to_multiset_ensures();
    let n = one.len();
    assert(other.len() == n);
    lemma_totals_permuted(one, other, i);
    law_mean_is_near_exact(one, i);
    law_mean_is_near_exact(other, i);
}

proof fn lemma_totals_permuted(one: Seq<Vec<Binary32>>, other: Seq<Vec<Binary32>>, i: int)
    requires
        one.to_multiset() == other.to_multiset(),
    ensures
        exact_total(one, i, one.len()) == exact_total(other, i, other.len()),
        total_size(one, i, one.len()) == total_size(other, i, other.len()),
{
    let f = |sum: int, e: Vec<Binary32>| sum + element(e, i);
    let g = |sum: int, e: Vec<Binary32>| sum + magnitude(element(e, i));
    lemma_total_is_fold(one, i, one.len());
    lemma_total_is_fold(other, i, other.len());
    assert(one.take(one.len() as int) =~= one);
    assert(other.take(other.len() as int) =~= other);
    vstd::seq_lib::lemma_fold_left_permutation(one, other, f, 0);
    vstd::seq_lib::lemma_fold_left_permutation(one, other, g, 0);
}

proof fn lemma_total_is_fold(embeddings: Seq<Vec<Binary32>>, i: int, k: nat)
    requires
        k <= embeddings.len(),
    ensures
        exact_total(embeddings, i, k) == embeddings.take(k as int).fold_left(
            0int,
            |sum: int, e: Vec<Binary32>| sum + element(e, i),
        ),
        total_size(embeddings, i, k) == embeddings.take(k as int).fold_left(
            0int,
            |sum: int, e: Vec<Binary32>| sum + magnitude(element(e, i)),
        ),
    decreases k,
{
    if k > 0 {
        lemma_total_is_fold(embeddings, i, (k - 1) as nat);
        let all = embeddings.take(k as int);
        assert(all.drop_last() =~= embeddings.take(k - 1));
        assert(all.last() == embeddings[k - 1]);
    }
}

} // verus!
