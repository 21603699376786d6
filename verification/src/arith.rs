//! Arithmetic on the numbers of an IEEE 754 format, correctly rounded.
//!
//! The functions here take and give the exponent and fraction fields of finite
//! numbers without their signs.
use vstd::arithmetic::power2::{lemma_pow2_adds, lemma_pow2_pos, lemma_pow2_strictly_increases, pow2};
use vstd::prelude::*;

use crate::rounding::{
    above, below, bit_length, double, lemma_even_unit, lemma_multiple_order, lemma_pow2_127, pack,
    packed, power, single, Format,
};

verus! {

/// What a packed significand says of the number between it and the next one.
proof fn lemma_packed_nearest(
    format: Format,
    fields: nat,
    sig: nat,
    e: int,
    inexact: bool,
    num: nat,
    den: nat,
)
    requires
        packed(format, fields, sig, e, inexact),
        den > 0,
        if inexact {
            sig * pow2(above(e)) * den < num * pow2(below(e)) < (sig + 1) * pow2(above(e)) * den
        } else {
            sig * pow2(above(e)) * den == num * pow2(below(e))
        },
    ensures
        format.nearest(fields, num, den),
{
    let (n, x) = (pow2(below(e)), pow2(above(e)));
    lemma_pow2_pos(below(e));
    lemma_pow2_pos(above(e));
    if fields > 0 {
        let t = format.number((fields - 1) as nat) + format.number(fields);
        assert(t * n <= 2 * sig * x);
        assert(t * den * n <= 2 * (sig * x * den)) by (nonlinear_arith)
            requires
                t * n <= 2 * sig * x,
        ;
        if t * n < 2 * sig * x {
            assert(t * den * n < 2 * (sig * x * den)) by (nonlinear_arith)
                requires
                    t * n < 2 * sig * x,
                    den > 0,
            ;
        }
        assert(t * den * n <= 2 * num * n) by (nonlinear_arith)
            requires
                t * den * n <= 2 * (sig * x * den),
                sig * x * den <= num * n,
        ;
        assert(t * den <= 2 * num) by (nonlinear_arith)
            requires
                t * den * n <= 2 * num * n,
                n > 0,
        ;
        if t * den == 2 * num {
            assert(t * den * n == 2 * (num * n)) by (nonlinear_arith)
                requires
                    t * den == 2 * num,
            ;
        }
    }
    if fields < format.infinity {
        let t = format.number(fields) + format.number(fields + 1);
        if inexact {
            assert(2 * (sig + 1) * x <= t * n);
            assert(2 * ((sig + 1) * x * den) <= t * den * n) by (nonlinear_arith)
                requires
                    2 * (sig + 1) * x <= t * n,
            ;
            assert(2 * num < t * den) by (nonlinear_arith)
                requires
                    num * n < (sig + 1) * x * den,
                    2 * ((sig + 1) * x * den) <= t * den * n,
                    n > 0,
            ;
        } else {
            assert(2 * sig * x <= t * n);
            assert(2 * (sig * x * den) <= t * den * n) by (nonlinear_arith)
                requires
                    2 * sig * x <= t * n,
            ;
            if 2 * sig * x < t * n {
                assert(2 * (sig * x * den) < t * den * n) by (nonlinear_arith)
                    requires
                        2 * sig * x < t * n,
                        den > 0,
                ;
            }
            assert(2 * num <= t * den) by (nonlinear_arith)
                requires
                    2 * (num * n) <= t * den * n,
                    n > 0,
            ;
            if t * den == 2 * num {
                assert(t * den * n == 2 * (num * n)) by (nonlinear_arith)
                    requires
                        t * den == 2 * num,
                ;
            }
        }
    }
}

/// Significand and exponent of a number.
pub fn split(format: Format, fields: u64) -> (parts: (u64, u32))
    requires
        format.valid(),
        fields < format.infinity,
    ensures
        format.number(fields as nat) == parts.0 as nat * pow2(parts.1 as nat),
        parts.0 < 2 * format.unit(),
        parts.1 > 0 ==> parts.0 >= format.unit(),
        parts.1 <= 2045,
        format == single() ==> parts.1 <= 253,
        parts.0 == 0 <==> fields == 0,
        fields == parts.1 * format.unit() + parts.0,
{
    proof {
        lemma_even_unit(format);
        vstd::arithmetic::power2::lemma2_to64();
    }
    let unit: u64 = power(format.fraction_bits) as u64;
    if fields < unit {
        assert(fields as nat == fields as nat * pow2(0)) by {
            assert(pow2(0) == 1);
        }
        (fields, 0)
    } else {
        let exp: u64 = fields / unit;
        proof {
            if format == single() {
                assert(exp == fields / 0x80_0000);
            } else {
                assert(exp == fields / 0x10_0000_0000_0000);
            }
        }
        (unit + fields % unit, (exp - 1) as u32)
    }
}

// ---------------------------------------------------------------------------
// Products and quotients
// ---------------------------------------------------------------------------

/// The product of two numbers.
pub fn multiply(format: Format, a: u64, b: u64) -> (fields: u64)
    requires
        format.valid(),
        a < format.infinity,
        b < format.infinity,
    ensures
        format.nearest(
            fields as nat,
            format.number(a as nat) * format.number(b as nat),
            pow2(format.scale as nat),
        ),
{
    let (ma, ea) = split(format, a);
    let (mb, eb) = split(format, b);
    proof {
        lemma_even_unit(format);
        assert(ma as nat * mb as nat <= 0x20_0000_0000_0000 * 0x20_0000_0000_0000)
            by (nonlinear_arith)
            requires
                ma < 0x20_0000_0000_0000,
                mb < 0x20_0000_0000_0000,
        ;
    }
    let sig: u128 = ma as u128 * mb as u128;
    let e: i32 = ea as i32 + eb as i32 - format.scale as i32;
    let fields: u64 = pack(format, sig, e, false);
    proof {
        let (na, nb) = (format.number(a as nat), format.number(b as nat));
        let den = pow2(format.scale as nat);
        let (n, x) = (pow2(below(e as int)), pow2(above(e as int)));
        let (pa, pb) = (pow2(ea as nat), pow2(eb as nat));
        lemma_pow2_pos(format.scale as nat);
        lemma_pow2_adds(above(e as int), format.scale as nat);
        lemma_pow2_adds(ea as nat, eb as nat);
        lemma_pow2_adds((ea + eb) as nat, below(e as int));
        assert(x * den == pa * pb * n);
        assert(sig * x * den == na * nb * n) by (nonlinear_arith)
            requires
                sig == ma * mb,
                na == ma * pa,
                nb == mb * pb,
                x * den == pa * pb * n,
        ;
        lemma_packed_nearest(format, fields as nat, sig as nat, e as int, false, na * nb, den);
    }
    fields
}

/// The quotient of two numbers.
pub fn divide(format: Format, a: u64, b: u64) -> (fields: u64)
    requires
        format.valid(),
        0 < a < format.infinity,
        0 < b < format.infinity,
    ensures
        format.nearest(
            fields as nat,
            format.number(a as nat) * pow2(format.scale as nat),
            format.number(b as nat),
        ),
{
    let (ma, ea) = split(format, a);
    let (mb, eb) = split(format, b);
    let len: u32 = bit_length(ma as u128);
    let ghost width = (format.fraction_bits + 1) as nat;
    proof {
        lemma_even_unit(format);
        lemma_pow2_127();
        vstd::arithmetic::power2::lemma2_to64();
        vstd::arithmetic::power2::lemma2_to64_rest();
        lemma_pow2_adds(format.fraction_bits as nat, 1);
        if len - 1 >= width {
            if len - 1 > width {
                lemma_pow2_strictly_increases(width, (len - 1) as nat);
            }
            assert(false);
        }
    }
    // Shifted so that the quotient has more digits than the format.
    let s: u32 = 65 + format.fraction_bits - len;
    let shift: u128 = power(s);
    proof {
        lemma_pow2_pos(s as nat);
        lemma_pow2_adds(len as nat, s as nat);
        lemma_pow2_adds((len - 1) as nat, s as nat);
        let (p, q) = (pow2(len as nat), pow2((len - 1) as nat));
        let m = ma as nat;
        assert(q * shift <= m * shift < p * shift) by (nonlinear_arith)
            requires
                q <= m < p,
                shift > 0,
        ;
        assert(pow2(65 + 23) == 0x100_0000_0000_0000_0000_0000) by {
            lemma_pow2_adds(64, 24);
        }
        assert(pow2(64 + 23) == 0x80_0000_0000_0000_0000_0000) by {
            lemma_pow2_adds(64, 23);
        }
        assert(pow2(65 + 52) == 0x20_0000_0000_0000_0000_0000_0000_0000) by {
            lemma_pow2_adds(64, 53);
        }
        assert(pow2(64 + 52) == 0x10_0000_0000_0000_0000_0000_0000_0000) by {
            lemma_pow2_adds(64, 52);
        }
    }
    let top: u128 = ma as u128 * shift;
    let sig: u128 = top / mb as u128;
    let rem: u128 = top % mb as u128;
    let e: i32 = ea as i32 - eb as i32 - s as i32 + format.scale as i32;
    proof {
        let (t, m, q, r) = (top as nat, mb as nat, sig as nat, rem as nat);
        assert(t == q * m + r && r < m && q <= t) by (nonlinear_arith)
            requires
                q == t / m,
                r == t % m,
                m > 0,
        ;
        assert(q >= 0x80_0000_0000_0000) by (nonlinear_arith)
            requires
                t == q * m + r,
                r < m,
                (t >= 0x80_0000_0000_0000_0000_0000 && m < 0x100_0000) || (t
                    >= 0x10_0000_0000_0000_0000_0000_0000_0000 && m < 0x20_0000_0000_0000),
        ;
    }
    let fields: u64 = pack(format, sig, e, rem != 0);
    proof {
        let num = format.number(a as nat) * pow2(format.scale as nat);
        let den = format.number(b as nat);
        let (n, x) = (pow2(below(e as int)), pow2(above(e as int)));
        let (pa, pb, ps) = (pow2(ea as nat), pow2(eb as nat), pow2(format.scale as nat));
        lemma_pow2_pos(eb as nat);
        lemma_pow2_pos(above(e as int));
        lemma_pow2_adds(ea as nat, format.scale as nat);
        lemma_pow2_adds((ea + format.scale) as nat, below(e as int));
        lemma_pow2_adds(s as nat, eb as nat);
        lemma_pow2_adds((s + eb) as nat, above(e as int));
        assert(pa * ps * n == shift * pb * x);
        let (m, q, r) = (mb as nat, sig as nat, rem as nat);
        assert(num * n == (q * m + r) * (pb * x)) by (nonlinear_arith)
            requires
                num == ma * pa * ps,
                pa * ps * n == shift * pb * x,
                ma * shift == q * m + r,
        ;
        assert(den > 0) by (nonlinear_arith)
            requires
                den == m * pb,
                m > 0,
                pb > 0,
        ;
        assert(q * x * den == q * m * (pb * x)) by (nonlinear_arith)
            requires
                den == m * pb,
        ;
        assert((q + 1) * x * den == (q * m + m) * (pb * x)) by (nonlinear_arith)
            requires
                den == m * pb,
        ;
        let y = pb * x;
        assert(y > 0) by (nonlinear_arith)
            requires
                y == pb * x,
                pb > 0,
                x > 0,
        ;
        if r != 0 {
            assert(q * m * y < (q * m + r) * y < (q * m + m) * y) by (nonlinear_arith)
                requires
                    0 < r < m,
                    y > 0,
            ;
        }
        lemma_packed_nearest(format, fields as nat, q, e as int, r != 0, num, den);
    }
    fields
}

// ---------------------------------------------------------------------------
// Sums and differences
// ---------------------------------------------------------------------------

/// The smaller of two numbers in steps of the greater one's exponent less 64,
/// cut off, and whether anything was lost.
fn align(format: Format, m: u64, gap: u32) -> (aligned: (u128, bool))
    requires
        format.valid(),
        m < 2 * format.unit(),
        gap <= 2045,
    ensures
        gap <= 64 ==> aligned.0 == m * pow2((64 - gap) as nat) && !aligned.1,
        gap > 64 ==> ({
            let p = pow2((gap - 64) as nat);
            &&& aligned.0 * p <= m
            &&& m < (aligned.0 + 1) * p
            &&& aligned.1 <==> aligned.0 * p != m
        }),
        aligned.0 <= m * pow2(64),
{
    proof {
        lemma_even_unit(format);
        lemma_pow2_127();
        vstd::arithmetic::power2::lemma2_to64();
        vstd::arithmetic::power2::lemma2_to64_rest();
    }
    if gap <= 64 {
        let p: u128 = power(64 - gap);
        proof {
            if gap > 0 {
                lemma_pow2_strictly_increases((64 - gap) as nat, 64);
            }
            assert(m * p <= m * 0x1_0000_0000_0000_0000) by (nonlinear_arith)
                requires
                    p <= 0x1_0000_0000_0000_0000,
            ;
            assert(m * 0x1_0000_0000_0000_0000 < 0x20_0000_0000_0000 * 0x1_0000_0000_0000_0000)
                by (nonlinear_arith)
                requires
                    m < 0x20_0000_0000_0000,
            ;
        }
        (m as u128 * p, false)
    } else if gap > 64 + 60 {
        let ghost p = pow2((gap - 64) as nat);
        proof {
            lemma_pow2_strictly_increases(60, (gap - 64) as nat);
            assert(0 * p == 0 && (0 + 1) * p == p) by (nonlinear_arith);
        }
        (0, m != 0)
    } else {
        let p: u128 = power(gap - 64);
        proof {
            lemma_pow2_pos((gap - 64) as nat);
        }
        let q: u128 = m as u128 / p;
        let r: u128 = m as u128 % p;
        proof {
            let (mm, pp, qq, rr) = (m as nat, p as nat, q as nat, r as nat);
            assert(mm == qq * pp + rr && rr < pp && qq <= mm) by (nonlinear_arith)
                requires
                    qq == mm / pp,
                    rr == mm % pp,
                    pp > 0,
            ;
            assert((qq + 1) * pp == qq * pp + pp) by (nonlinear_arith);
            assert(mm <= mm * 0x1_0000_0000_0000_0000);
        }
        (q, r != 0)
    }
}

/// What the aligned significand says of the smaller number.
proof fn lemma_aligned(m: nat, ea: nat, eb: nat, aligned: nat, lost: bool)
    requires
        eb <= ea,
        ea - eb <= 64 ==> aligned == m * pow2((64 - (ea - eb)) as nat) && !lost,
        ea - eb > 64 ==> ({
            let p = pow2((ea - eb - 64) as nat);
            &&& aligned * p <= m
            &&& m < (aligned + 1) * p
            &&& lost <==> aligned * p != m
        }),
    ensures
        ({
            let e = ea - 64;
            let b = m * pow2(eb) * pow2(below(e));
            let x = pow2(above(e));
            &&& aligned * x <= b < (aligned + 1) * x
            &&& lost <==> aligned * x != b
        }),
{
    let e = ea - 64;
    let (n, x) = (pow2(below(e)), pow2(above(e)));
    lemma_pow2_pos(above(e));
    lemma_pow2_adds(eb, below(e));
    let y = pow2(eb) * n;
    let b = m * pow2(eb) * n;
    assert(b == m * y) by (nonlinear_arith)
        requires
            b == m * pow2(eb) * n,
            y == pow2(eb) * n,
    ;
    assert((aligned + 1) * x == aligned * x + x) by (nonlinear_arith);
    if ea - eb <= 64 {
        let p = pow2((64 - (ea - eb)) as nat);
        lemma_pow2_adds((64 - (ea - eb)) as nat, above(e));
        assert(p * x == y);
        assert(aligned * x == b) by (nonlinear_arith)
            requires
                aligned == m * p,
                p * x == y,
                b == m * y,
        ;
    } else {
        let p = pow2((ea - eb - 64) as nat);
        lemma_pow2_adds(eb + below(e), (ea - eb - 64) as nat);
        lemma_pow2_pos(eb + below(e));
        assert(y * p == x);
        assert(aligned * x == aligned * p * y) by (nonlinear_arith)
            requires
                y * p == x,
        ;
        assert((aligned + 1) * x == (aligned + 1) * p * y) by (nonlinear_arith)
            requires
                y * p == x,
        ;
        assert(aligned * p * y <= m * y < (aligned + 1) * p * y) by (nonlinear_arith)
            requires
                aligned * p <= m < (aligned + 1) * p,
                y > 0,
        ;
        if lost {
            assert(aligned * p * y < m * y) by (nonlinear_arith)
                requires
                    aligned * p < m,
                    y > 0,
            ;
        }
    }
}

/// The greater number in steps of its exponent less 64.
proof fn lemma_greater(m: nat, ea: nat)
    ensures
        m * pow2(64) * pow2(above(ea - 64)) == m * pow2(ea) * pow2(below(ea - 64)),
{
    lemma_pow2_adds(64, above(ea - 64));
    lemma_pow2_adds(ea, below(ea - 64));
    let (p, x, q, n) = (pow2(64), pow2(above(ea - 64)), pow2(ea), pow2(below(ea - 64)));
    assert(m * p * x == m * q * n) by (nonlinear_arith)
        requires
            p * x == q * n,
    ;
}

/// The sum of two numbers, of which `a` is not the smaller.
pub fn add_ordered(format: Format, a: u64, b: u64) -> (fields: u64)
    requires
        format.valid(),
        b <= a < format.infinity,
    ensures
        format.nearest(fields as nat, format.number(a as nat) + format.number(b as nat), 1),
{
    let (ma, ea) = split(format, a);
    let (mb, eb) = split(format, b);
    proof {
        lemma_exponents_ordered(format, a as nat, b as nat, ma as nat, ea as nat, mb as nat, eb as nat);
        lemma_even_unit(format);
        vstd::arithmetic::power2::lemma2_to64();
    }
    let (low, lost) = align(format, mb, ea - eb);
    let high: u128 = ma as u128 * 0x1_0000_0000_0000_0000;
    let e: i32 = ea as i32 - 64;
    let sig: u128 = high + low;
    proof {
        lemma_aligned(mb as nat, ea as nat, eb as nat, low as nat, lost);
        lemma_greater(ma as nat, ea as nat);
    }
    let fields: u64 = pack(format, sig, e, lost);
    proof {
        let num = format.number(a as nat) + format.number(b as nat);
        let (n, x) = (pow2(below(e as int)), pow2(above(e as int)));
        let (na, nb) = (format.number(a as nat), format.number(b as nat));
        assert(num * n == na * n + nb * n) by (nonlinear_arith)
            requires
                num == na + nb,
        ;
        assert(sig * x * 1 == high * x + low * x) by (nonlinear_arith)
            requires
                sig == high + low,
        ;
        assert((sig + 1) * x * 1 == high * x + (low + 1) * x) by (nonlinear_arith)
            requires
                sig == high + low,
        ;
        lemma_packed_nearest(format, fields as nat, sig as nat, e as int, lost, num, 1);
    }
    fields
}

/// The difference of two numbers, of which `a` is the greater.
pub fn subtract_ordered(format: Format, a: u64, b: u64) -> (fields: u64)
    requires
        format.valid(),
        b < a < format.infinity,
    ensures
        format.nearest(
            fields as nat,
            (format.number(a as nat) - format.number(b as nat)) as nat,
            1,
        ),
{
    let (ma, ea) = split(format, a);
    let (mb, eb) = split(format, b);
    proof {
        lemma_exponents_ordered(format, a as nat, b as nat, ma as nat, ea as nat, mb as nat, eb as nat);
        lemma_even_unit(format);
        vstd::arithmetic::power2::lemma2_to64();
        lemma_multiple_order(b as nat, a as nat, format.unit());
    }
    let (low, lost) = align(format, mb, ea - eb);
    let high: u128 = ma as u128 * 0x1_0000_0000_0000_0000;
    let e: i32 = ea as i32 - 64;
    let ghost (n, x) = (pow2(below(e as int)), pow2(above(e as int)));
    let ghost (na, nb) = (format.number(a as nat), format.number(b as nat));
    proof {
        lemma_aligned(mb as nat, ea as nat, eb as nat, low as nat, lost);
        lemma_greater(ma as nat, ea as nat);
        lemma_pow2_pos(below(e as int));
        lemma_pow2_pos(above(e as int));
        assert(nb * n < na * n) by (nonlinear_arith)
            requires
                nb < na,
                n > 0,
        ;
        assert(low < high) by (nonlinear_arith)
            requires
                low * x <= nb * n,
                nb * n < na * n,
                na * n == high * x,
                x > 0,
        ;
        if lost {
            // The smaller number is far below, so most of the greater is left.
            lemma_far_below(mb as nat, (ea - eb) as nat, low as nat);
            assert(ma >= format.unit());
        }
    }
    let sig: u128 = high - low - if lost {
        1
    } else {
        0
    };
    let fields: u64 = pack(format, sig, e, lost);
    proof {
        let num = (na - nb) as nat;
        assert(num * n == na * n - nb * n) by (nonlinear_arith)
            requires
                num == na - nb,
        ;
        let c: int = if lost { 1 } else { 0 };
        assert(sig * x * 1 == high * x - (low + c) * x) by (nonlinear_arith)
            requires
                sig == high - low - c,
        ;
        assert((sig + 1) * x * 1 == high * x - (low + c) * x + x) by (nonlinear_arith)
            requires
                sig == high - low - c,
        ;
        assert((low + 1) * x == low * x + x) by (nonlinear_arith);
        assert((low + 0) * x == low * x);
        lemma_packed_nearest(format, fields as nat, sig as nat, e as int, lost, num, 1);
    }
    fields
}

/// Cut off by more than 64 digits, little is left.
proof fn lemma_far_below(m: nat, gap: nat, aligned: nat)
    requires
        gap > 64,
        aligned * pow2((gap - 64) as nat) <= m,
    ensures
        aligned <= m,
{
    let p = pow2((gap - 64) as nat);
    lemma_pow2_pos((gap - 64) as nat);
    assert(aligned <= m) by (nonlinear_arith)
        requires
            aligned * p <= m,
            p >= 1,
    ;
}

/// The greater number has no smaller exponent.
proof fn lemma_exponents_ordered(
    format: Format,
    a: nat,
    b: nat,
    ma: nat,
    ea: nat,
    mb: nat,
    eb: nat,
)
    requires
        format.valid(),
        b <= a,
        format.number(a) == ma * pow2(ea),
        format.number(b) == mb * pow2(eb),
        ma < 2 * format.unit(),
        eb > 0 ==> mb >= format.unit(),
    ensures
        eb <= ea,
{
    let u = format.unit();
    lemma_pow2_pos(format.fraction_bits as nat);
    lemma_multiple_order(b, a, u);
    lemma_multiple_order(a, b, u);
    if ea < eb {
        let p = pow2(ea);
        let d = pow2((eb - ea) as nat);
        lemma_pow2_pos(ea);
        lemma_pow2_adds(ea, (eb - ea) as nat);
        vstd::arithmetic::power2::lemma2_to64();
        if eb - ea > 1 {
            lemma_pow2_strictly_increases(1, (eb - ea) as nat);
        }
        assert(ma * p < mb * (p * d)) by (nonlinear_arith)
            requires
                ma < 2 * u,
                mb >= u,
                d >= 2,
                p >= 1,
        ;
        assert(false);
    }
}

// ---------------------------------------------------------------------------
// Square roots
// ---------------------------------------------------------------------------

proof fn lemma_squares(a: nat, b: nat)
    ensures
        a <= b ==> a * a <= b * b,
        a < b ==> a * a < b * b,
        a * a == b * b ==> a == b,
        a * a < b * b ==> a < b,
        a * a <= b * b ==> a <= b,
{
    if a < b {
        assert(a * a < b * b) by (nonlinear_arith)
            requires
                a < b,
        ;
    } else if b < a {
        assert(b * b < a * a) by (nonlinear_arith)
            requires
                b < a,
        ;
    }
}

/// What a packed significand says of the root between it and the next one.
proof fn lemma_packed_root(format: Format, fields: nat, sig: nat, e: int, inexact: bool, n: nat)
    requires
        packed(format, fields, sig, e, inexact),
        ({
            let (down, x) = (pow2(below(e)), pow2(above(e)));
            let all = n * (down * down);
            if inexact {
                (sig * x) * (sig * x) < all < ((sig + 1) * x) * ((sig + 1) * x)
            } else {
                (sig * x) * (sig * x) == all
            }
        }),
    ensures
        format.nearest_root(fields, n),
{
    let (down, x) = (pow2(below(e)), pow2(above(e)));
    let all = n * (down * down);
    lemma_pow2_pos(below(e));
    if fields > 0 {
        let t = format.number((fields - 1) as nat) + format.number(fields);
        lemma_root_side(t, down, n);
        lemma_squares(t * down, 2 * (sig * x));
        assert(2 * sig * x == 2 * (sig * x)) by (nonlinear_arith);
        let y = sig * x;
        assert((2 * y) * (2 * y) == 4 * (y * y)) by (nonlinear_arith);
    }
    if fields < format.infinity {
        let t = format.number(fields) + format.number(fields + 1);
        lemma_root_side(t, down, n);
        assert(2 * sig * x == 2 * (sig * x)) by (nonlinear_arith);
        assert(2 * (sig + 1) * x == 2 * ((sig + 1) * x)) by (nonlinear_arith);
        lemma_squares(2 * (sig * x), t * down);
        lemma_squares(2 * ((sig + 1) * x), t * down);
        let y = sig * x;
        assert((2 * y) * (2 * y) == 4 * (y * y)) by (nonlinear_arith);
        let z = (sig + 1) * x;
        assert((2 * z) * (2 * z) == 4 * (z * z)) by (nonlinear_arith);
    }
}

/// Scaling both sides leaves how a square compares.
proof fn lemma_root_side(t: nat, down: nat, n: nat)
    requires
        down > 0,
    ensures
        t * t < 4 * n <==> (t * down) * (t * down) < 4 * (n * (down * down)),
        t * t == 4 * n <==> (t * down) * (t * down) == 4 * (n * (down * down)),
{
    let d = down * down;
    assert(d > 0) by (nonlinear_arith)
        requires
            d == down * down,
            down > 0,
    ;
    assert((t * down) * (t * down) == (t * t) * d) by (nonlinear_arith)
        requires
            d == down * down,
    ;
    assert(4 * (n * d) == (4 * n) * d) by (nonlinear_arith);
    let (a, b) = (t * t, 4 * n);
    if a < b {
        assert(a * d < b * d) by (nonlinear_arith)
            requires
                a < b,
                d > 0,
        ;
    } else if b < a {
        assert(b * d < a * d) by (nonlinear_arith)
            requires
                b < a,
                d > 0,
        ;
    }
}

/// The root of a whole number, cut off.
fn whole_root(n: u128) -> (root: u128)
    requires
        n < 0x4000_0000_0000_0000_0000_0000_0000_0000,
    ensures
        root * root <= n < (root + 1) * (root + 1),
        root < 0x8000_0000_0000_0000,
{
    let mut low: u128 = 0;
    let mut high: u128 = 0x8000_0000_0000_0000;
    while high - low > 1
        invariant
            low < high <= 0x8000_0000_0000_0000,
            low * low <= n < high * high,
        decreases high - low,
    {
        let middle: u128 = low + (high - low) / 2;
        assert(middle * middle <= 0x8000_0000_0000_0000 * 0x8000_0000_0000_0000)
            by (nonlinear_arith)
            requires
                middle <= 0x8000_0000_0000_0000,
        ;
        if middle * middle <= n {
            low = middle;
        } else {
            high = middle;
        }
    }
    low
}

/// The square root of a number.
pub fn square_root(format: Format, a: u64) -> (fields: u64)
    requires
        format.valid(),
        0 < a < format.infinity,
    ensures
        format.nearest_root(
            fields as nat,
            format.number(a as nat) * pow2(format.scale as nat),
        ),
{
    let (m, ea) = split(format, a);
    let len: u32 = bit_length(m as u128);
    proof {
        lemma_even_unit(format);
        lemma_pow2_127();
        vstd::arithmetic::power2::lemma2_to64();
        vstd::arithmetic::power2::lemma2_to64_rest();
        if len - 1 >= 53 {
            if len - 1 > 53 {
                lemma_pow2_strictly_increases(53, (len - 1) as nat);
            }
            assert(false);
        }
    }
    // Shifted so that the root has more digits than the format, and by a step
    // that leaves an even exponent.
    let s: u32 = if (ea + format.scale + 125 - len) % 2 == 0 {
        125 - len
    } else {
        126 - len
    };
    let shift: u128 = power(s);
    proof {
        lemma_pow2_pos(s as nat);
        lemma_pow2_adds(len as nat, s as nat);
        lemma_pow2_adds((len - 1) as nat, s as nat);
        let (p, q) = (pow2(len as nat), pow2((len - 1) as nat));
        let mm = m as nat;
        assert(q * shift <= mm * shift < p * shift) by (nonlinear_arith)
            requires
                q <= mm < p,
                shift > 0,
        ;
        lemma_pow2_adds(126, 1);
        lemma_pow2_adds(125, 1);
        lemma_pow2_adds(124, 1);
    }
    let top: u128 = m as u128 * shift;
    let root: u128 = whole_root(top);
    let e: i32 = ((ea + format.scale + 200 - s) / 2) as i32 - 100;
    assert(2 * e == ea + format.scale - s);
    let square: u128 = root * root;
    proof {
        assert(root >= 0x80_0000_0000_0000) by (nonlinear_arith)
            requires
                top < (root + 1) * (root + 1),
                top >= 0x1000_0000_0000_0000_0000_0000_0000_0000,
                root >= 0,
        ;
    }
    let fields: u64 = pack(format, root, e, square != top);
    proof {
        let n = format.number(a as nat) * pow2(format.scale as nat);
        let (down, x) = (pow2(below(e as int)), pow2(above(e as int)));
        let (pa, ps) = (pow2(ea as nat), pow2(format.scale as nat));
        lemma_pow2_pos(above(e as int));
        lemma_pow2_adds(ea as nat, format.scale as nat);
        lemma_pow2_adds(below(e as int), below(e as int));
        lemma_pow2_adds(above(e as int), above(e as int));
        lemma_pow2_adds((ea + format.scale) as nat, 2 * below(e as int));
        lemma_pow2_adds(s as nat, 2 * above(e as int));
        assert(pa * ps * (down * down) == shift * (x * x));
        let y = x * x;
        assert(y > 0) by (nonlinear_arith)
            requires
                y == x * x,
                x > 0,
        ;
        let all = n * (down * down);
        assert(all == top * y) by (nonlinear_arith)
            requires
                all == n * (down * down),
                n == m * pa * ps,
                pa * ps * (down * down) == shift * y,
                top == m * shift,
        ;
        let (r, t) = (root as nat, top as nat);
        assert((r * x) * (r * x) == (r * r) * y) by (nonlinear_arith)
            requires
                y == x * x,
        ;
        assert(((r + 1) * x) * ((r + 1) * x) == ((r + 1) * (r + 1)) * y) by (nonlinear_arith)
            requires
                y == x * x,
        ;
        let (low, high) = (r * r, (r + 1) * (r + 1));
        assert(low * y <= t * y < high * y && (low < t ==> low * y < t * y)) by (nonlinear_arith)
            requires
                low <= t < high,
                y > 0,
        ;
        lemma_packed_root(format, fields as nat, r, e as int, square != top, n);
    }
    fields
}

// ---------------------------------------------------------------------------
// Conversions
// ---------------------------------------------------------------------------

/// The number nearest to `magnitude` times two to the `e` smallest numbers.
pub fn convert(format: Format, magnitude: u64, e: u32) -> (fields: u64)
    requires
        format.valid(),
        e <= 4000,
    ensures
        format.nearest(fields as nat, magnitude as nat * pow2(e as nat), 1),
{
    let fields: u64 = pack(format, magnitude as u128, e as i32, false);
    proof {
        let num = magnitude as nat * pow2(e as nat);
        assert(pow2(0) == 1) by {
            vstd::arithmetic::power2::lemma2_to64();
        }
        lemma_packed_nearest(format, fields as nat, magnitude as nat, e as int, false, num, 1);
    }
    fields
}

/// The whole part of a number, or 2^32 where it is greater.
pub fn whole_part(format: Format, fields: u64) -> (whole: u64)
    requires
        format.valid(),
        fields <= format.infinity,
    ensures
        ({
            let w = format.number(fields as nat) / pow2(format.scale as nat);
            whole == if w < 0x1_0000_0000 {
                w as int
            } else {
                0x1_0000_0000
            }
        }),
{
    let ghost n = format.number(fields as nat);
    let ghost p = pow2(format.scale as nat);
    proof {
        lemma_even_unit(format);
        lemma_pow2_127();
        vstd::arithmetic::power2::lemma2_to64();
        vstd::arithmetic::power2::lemma2_to64_rest();
        lemma_pow2_pos(format.scale as nat);
    }
    if fields == format.infinity {
        proof {
            assert(n == format.unit() * pow2(if format == single() { 254 } else { 2046 })) by {
                if format == single() {
                    assert(fields as nat % 0x80_0000 == 0 && fields as nat / 0x80_0000 == 255);
                } else {
                    assert(fields as nat % 0x10_0000_0000_0000 == 0);
                    assert(fields as nat / 0x10_0000_0000_0000 == 2047);
                }
            }
            lemma_great(format, format.unit(), if format == single() { 254 } else { 2046 });
        }
        return 0x1_0000_0000;
    }
    let (m, e) = split(format, fields);
    if e >= format.scale + 9 {
        proof {
            lemma_great(format, m as nat, e as nat);
        }
        0x1_0000_0000
    } else if e >= format.scale {
        let f: u128 = power(e - format.scale);
        proof {
            lemma_pow2_adds(format.scale as nat, (e - format.scale) as nat);
            if e - format.scale < 8 {
                lemma_pow2_strictly_increases((e - format.scale) as nat, 8);
            }
            let mm = m as nat;
            assert(n / p == mm * f) by (nonlinear_arith)
                requires
                    n == mm * (p * f),
                    p > 0,
            ;
            assert(mm * f <= 0x20_0000_0000_0000 * 256) by (nonlinear_arith)
                requires
                    mm <= 0x20_0000_0000_0000,
                    f <= 256,
            ;
        }
        let w: u64 = m * f as u64;
        if w < 0x1_0000_0000 {
            w
        } else {
            0x1_0000_0000
        }
    } else if format.scale - e > 60 {
        proof {
            lemma_pow2_adds(e as nat, (format.scale - e) as nat);
            lemma_pow2_strictly_increases(60, (format.scale - e) as nat);
            lemma_pow2_pos(e as nat);
            let (mm, q, d) = (m as nat, pow2(e as nat), pow2((format.scale - e) as nat));
            assert(n / p == 0) by (nonlinear_arith)
                requires
                    n == mm * q,
                    p == q * d,
                    mm < d,
                    q > 0,
            ;
        }
        0
    } else {
        let d: u128 = power(format.scale - e);
        proof {
            lemma_pow2_adds(e as nat, (format.scale - e) as nat);
            lemma_pow2_pos(e as nat);
            lemma_pow2_pos((format.scale - e) as nat);
            let (mm, q, dd) = (m as nat, pow2(e as nat), d as nat);
            vstd::arithmetic::div_mod::lemma_div_denominator(n as int, q as int, dd as int);
            assert(n / q == mm) by (nonlinear_arith)
                requires
                    n == mm * q,
                    q > 0,
            ;
            assert(mm / dd <= mm) by (nonlinear_arith)
                requires
                    dd > 0,
            ;
        }
        let w: u128 = m as u128 / d;
        if w < 0x1_0000_0000 {
            w as u64
        } else {
            0x1_0000_0000
        }
    }
}

/// A significand far above the scale is a great number.
proof fn lemma_great(format: Format, m: nat, e: nat)
    requires
        format.valid(),
        e >= format.scale + 9,
    ensures
        m >= format.unit() ==> m * pow2(e) / pow2(format.scale as nat) >= 0x1_0000_0000,
{
    let p = pow2(format.scale as nat);
    let d = pow2((e - format.scale) as nat);
    lemma_even_unit(format);
    lemma_pow2_pos(format.scale as nat);
    lemma_pow2_adds(format.scale as nat, (e - format.scale) as nat);
    vstd::arithmetic::power2::lemma2_to64();
    if e > format.scale + 9 {
        lemma_pow2_strictly_increases(9, (e - format.scale) as nat);
    }
    assert(m * (p * d) / p == m * d) by (nonlinear_arith)
        requires
            p > 0,
    ;
    assert(m >= 0x80_0000 ==> m * d >= 0x1_0000_0000) by (nonlinear_arith)
        requires
            d >= 512,
    ;
}

/// The fields in the format binary64 of a number in the format binary32.
pub fn widen_single(fields: u64) -> (wide: u64)
    requires
        fields < single().infinity,
    ensures
        wide < double().infinity,
        double().number(wide as nat) == single().number(fields as nat) * pow2(925),
{
    let (m, e) = split(crate::float::single_format(), fields);
    let wide: u64 = convert(crate::float::double_format(), m, e + 925);
    proof {
        lemma_even_unit(single());
        lemma_pow2_adds(e as nat, 925);
        let (mm, p, q) = (m as nat, pow2(e as nat), pow2(925));
        assert(mm * (p * q) == mm * p * q) by (nonlinear_arith);
        lemma_representable(m as nat, (e + 925) as nat, wide as nat);
    }
    wide
}

/// Few digits and a fitting exponent are a number in the format binary64.
proof fn lemma_representable(m: nat, e: nat, wide: nat)
    requires
        m < 0x20_0000_0000_0000,
        60 <= e <= 2000,
        double().nearest(wide, m * pow2(e), 1),
    ensures
        wide < double().infinity,
        double().number(wide) == m * pow2(e),
{
    let format = double();
    lemma_even_unit(format);
    let u = format.unit();
    let exact = lemma_normal(m, e);
    crate::rounding::law_exact_is_kept(format, exact);
    assert(format.nearest(format.rounded(m * pow2(e), 1), m * pow2(e), 1));
    crate::rounding::lemma_nearest_unique(format, wide, exact, m * pow2(e), 1);
}

/// The fields that encode few digits with a fitting exponent.
proof fn lemma_normal(m: nat, e: nat) -> (fields: nat)
    requires
        m < 0x20_0000_0000_0000,
        60 <= e <= 2000,
    ensures
        fields < double().infinity,
        double().number(fields) == m * pow2(e),
{
    lemma_even_unit(double());
    let u = double().unit();
    if m == 0 {
        assert(0 * pow2(e) == 0) by (nonlinear_arith);
        0
    } else {
        assert(pow2(0) == 1) by {
            vstd::arithmetic::power2::lemma2_to64();
        }
        let (q, k) = lemma_shifted_up(m, 0);
        let exp = (e - k) as nat;
        lemma_pow2_adds(k, exp);
        crate::rounding::lemma_multiple_of(exp, q, u);
        let (a, b) = (pow2(k), pow2(exp));
        assert(m * a * b == m * (a * b)) by (nonlinear_arith);
        exp * u + q
    }
}

/// Doubling brings a significand to its full width.
proof fn lemma_shifted_up(m: nat, k: nat) -> (r: (nat, nat))
    requires
        0 < m < 0x20_0000_0000_0000,
        k <= 52,
        m >= pow2(k),
    ensures
        0x10_0000_0000_0000 <= r.0 < 0x20_0000_0000_0000,
        r.1 <= 52 - k,
        r.0 == m * pow2(r.1),
    decreases 0x20_0000_0000_0000 - m,
{
    vstd::arithmetic::power2::lemma2_to64();
    vstd::arithmetic::power2::lemma2_to64_rest();
    if m >= 0x10_0000_0000_0000 {
        assert(m * 1 == m);
        (m, 0)
    } else {
        lemma_pow2_adds(k, 1);
        if k >= 52 {
            assert(pow2(52) == 0x10_0000_0000_0000);
        }
        let (q, j) = lemma_shifted_up(2 * m, k + 1);
        lemma_pow2_adds(1, j);
        let p = pow2(j);
        assert(2 * m * p == m * (2 * p)) by (nonlinear_arith);
        assert(pow2(j + 1) == 2 * p);
        (q, j + 1)
    }
}

} // verus!
