//! Rounding to the numbers of an IEEE 754 format.
//!
//! A format's numbers are whole multiples of its smallest positive number, and
//! its encodings, read as integers, order them.  Rounding to nearest therefore
//! is a matter of neighbours among the encodings.
use vstd::arithmetic::power2::{lemma_pow2_adds, lemma_pow2_pos, lemma_pow2_strictly_increases, pow2};
use vstd::prelude::*;

verus! {

/// An IEEE 754 binary format.
#[derive(Clone, Copy, Debug, PartialEq, Eq, Structural)]
pub struct Format {
    /// Width of the fraction field.
    pub fraction_bits: u32,
    /// The smallest positive number is two to the minus this.
    pub scale: u32,
    /// Exponent and fraction fields of infinity.
    pub infinity: u64,
    /// Weight of the sign bit.
    pub sign: u64,
}

/// The format binary32.
pub open spec fn single() -> Format {
    Format { fraction_bits: 23, scale: 149, infinity: 0x7f80_0000, sign: 0x8000_0000 }
}

/// The format binary64.
pub open spec fn double() -> Format {
    Format {
        fraction_bits: 52,
        scale: 1074,
        infinity: 0x7ff0_0000_0000_0000,
        sign: 0x8000_0000_0000_0000,
    }
}

/// What the exponent and fraction fields encode, as a multiple of the smallest
/// positive number of a format whose fraction field counts up to `unit`: below
/// the first exponent the fraction alone, from there on the fraction with its
/// leading one, doubled for every further exponent.  Infinity stands where the
/// next number behind the greatest finite one would.
pub open spec fn multiple(fields: nat, unit: nat) -> nat {
    if fields < unit {
        fields
    } else {
        (unit + fields % unit) * pow2((fields / unit - 1) as nat)
    }
}

impl Format {
    /// One of the two formats.
    pub open spec fn valid(self) -> bool {
        self == single() || self == double()
    }

    /// The number of fractions.
    pub open spec fn unit(self) -> nat {
        pow2(self.fraction_bits as nat)
    }

    /// The number that the fields encode, as a multiple of the smallest one.
    pub open spec fn number(self, fields: nat) -> nat {
        multiple(fields, self.unit())
    }

    /// Whether `fields` encodes the number nearest to `num / den` smallest
    /// numbers; halfway between two, the one of even encoding.
    pub open spec fn nearest(self, fields: nat, num: nat, den: nat) -> bool {
        &&& fields <= self.infinity
        &&& fields > 0 ==> {
            let middle = (self.number((fields - 1) as nat) + self.number(fields)) * den;
            middle < 2 * num || (middle == 2 * num && fields % 2 == 0)
        }
        &&& fields < self.infinity ==> {
            let middle = (self.number(fields) + self.number(fields + 1)) * den;
            2 * num < middle || (2 * num == middle && fields % 2 == 0)
        }
    }

    /// Whether `fields` encodes the number nearest to the square root of `n`;
    /// halfway between two, the one of even encoding.
    pub open spec fn nearest_root(self, fields: nat, n: nat) -> bool {
        &&& fields <= self.infinity
        &&& fields > 0 ==> {
            let twice = self.number((fields - 1) as nat) + self.number(fields);
            twice * twice < 4 * n || (twice * twice == 4 * n && fields % 2 == 0)
        }
        &&& fields < self.infinity ==> {
            let twice = self.number(fields) + self.number(fields + 1);
            4 * n < twice * twice || (4 * n == twice * twice && fields % 2 == 0)
        }
    }

    /// The encoding of the number nearest to `num / den` smallest numbers.
    pub open spec fn rounded(self, num: nat, den: nat) -> nat {
        choose|fields: nat| self.nearest(fields, num, den)
    }

    /// The encoding of the number nearest to the square root of `n`.
    pub open spec fn rounded_root(self, n: nat) -> nat {
        choose|fields: nat| self.nearest_root(fields, n)
    }
}

// ---------------------------------------------------------------------------
// The numbers of a format
// ---------------------------------------------------------------------------

proof fn lemma_multiple_step(a: nat, b: nat, unit: nat)
    requires
        unit > 0,
        a < b,
    ensures
        multiple(a, unit) < multiple(b, unit),
{
    let (ea, fa) = (a / unit, a % unit);
    let (eb, fb) = (b / unit, b % unit);
    assert(a == ea * unit + fa && b == eb * unit + fb && fa < unit && fb < unit)
        by (nonlinear_arith)
        requires
            unit > 0,
            ea == a / unit,
            fa == a % unit,
            eb == b / unit,
            fb == b % unit,
    ;
    assert(ea <= eb) by (nonlinear_arith)
        requires
            a == ea * unit + fa,
            b == eb * unit + fb,
            a < b,
            fa < unit,
            fb < unit,
    ;
    if b < unit {
    } else if a < unit {
        lemma_pow2_pos((eb - 1) as nat);
        let p = pow2((eb - 1) as nat);
        assert((unit + fb) * p >= unit) by (nonlinear_arith)
            requires
                p >= 1,
        ;
    } else {
        assert(ea >= 1) by (nonlinear_arith)
            requires
                a == ea * unit + fa,
                a >= unit,
                fa < unit,
        ;
        let p = pow2((ea - 1) as nat);
        lemma_pow2_pos((ea - 1) as nat);
        if ea == eb {
            assert(fa < fb);
            assert((unit + fa) * p < (unit + fb) * p) by (nonlinear_arith)
                requires
                    fa < fb,
                    p >= 1,
            ;
        } else {
            let q = pow2((eb - 1) as nat);
            let d = pow2((eb - ea) as nat);
            lemma_pow2_adds((ea - 1) as nat, (eb - ea) as nat);
            assert(q == p * d);
            lemma_pow2_strictly_increases(0, (eb - ea) as nat);
            assert(pow2(0) == 1) by {
                vstd::arithmetic::power2::lemma2_to64();
            }
            assert((unit + fa) * p < (unit + fb) * q) by (nonlinear_arith)
                requires
                    q == p * d,
                    d >= 2,
                    p >= 1,
                    fa < unit,
            ;
        }
    }
}

/// Greater fields encode a greater number.
pub proof fn lemma_multiple_order(a: nat, b: nat, unit: nat)
    requires
        unit > 0,
    ensures
        a < b <==> multiple(a, unit) < multiple(b, unit),
        a == b <==> multiple(a, unit) == multiple(b, unit),
{
    if a < b {
        lemma_multiple_step(a, b, unit);
    } else if b < a {
        lemma_multiple_step(b, a, unit);
    }
}

/// Zero fields encode zero, and no others do.
pub proof fn lemma_multiple_zero(a: nat, unit: nat)
    requires
        unit > 0,
    ensures
        multiple(a, unit) == 0 <==> a == 0,
{
    lemma_multiple_order(0, a, unit);
}

/// Exponent and significand laid together encode their product, also where the
/// significand runs over into the next exponent.
pub proof fn lemma_multiple_of(exp: nat, q: nat, unit: nat)
    requires
        unit > 0,
        unit <= q <= 2 * unit || (exp == 0 && q < unit),
    ensures
        multiple(exp * unit + q, unit) == q * pow2(exp),
{
    let f = exp * unit + q;
    vstd::arithmetic::power2::lemma2_to64();
    if q < unit {
        assert(f == q) by (nonlinear_arith)
            requires
                f == exp * unit + q,
                exp == 0,
        ;
    } else if q < 2 * unit {
        assert(f / unit == exp + 1 && f % unit == q - unit) by (nonlinear_arith)
            requires
                f == exp * unit + q,
                unit <= q < 2 * unit,
                unit > 0,
        ;
        assert(f >= unit) by (nonlinear_arith)
            requires
                f == exp * unit + q,
                unit <= q,
        ;
    } else {
        assert(f / unit == exp + 2 && f % unit == 0) by (nonlinear_arith)
            requires
                f == exp * unit + q,
                q == 2 * unit,
                unit > 0,
        ;
        assert(f >= unit) by (nonlinear_arith)
            requires
                f == exp * unit + q,
                unit <= q,
        ;
        lemma_pow2_adds(exp, 1);
        assert(unit * (pow2(exp) * 2) == q * pow2(exp)) by (nonlinear_arith)
            requires
                q == 2 * unit,
        ;
    }
}

/// A number of the format is nearest to itself: rounding leaves it alone.
pub proof fn law_exact_is_kept(format: Format, fields: nat)
    requires
        format.valid(),
        fields <= format.infinity,
    ensures
        format.rounded(format.number(fields), 1) == fields,
{
    let u = format.unit();
    let n = format.number(fields);
    lemma_pow2_pos(format.fraction_bits as nat);
    if fields > 0 {
        lemma_multiple_order((fields - 1) as nat, fields, u);
    }
    lemma_multiple_order(fields, fields + 1, u);
    assert(format.nearest(fields, n, 1));
    lemma_nearest_unique(format, fields, format.rounded(n, 1), n, 1);
}

/// How far a number of the format is from `num / den` smallest numbers, times
/// `den`.
pub open spec fn distance(format: Format, fields: nat, num: nat, den: nat) -> int {
    let there = format.number(fields) * den;
    if there >= num {
        there - num
    } else {
        num - there
    }
}

/// No other number of the format is nearer than the nearest.
pub proof fn law_no_number_is_nearer(
    format: Format,
    fields: nat,
    other: nat,
    num: nat,
    den: nat,
)
    requires
        format.valid(),
        format.nearest(fields, num, den),
        other <= format.infinity,
    ensures
        distance(format, fields, num, den) <= distance(format, other, num, den),
{
    let u = format.unit();
    lemma_pow2_pos(format.fraction_bits as nat);
    let (here, there) = (format.number(fields), format.number(other));
    if other < fields {
        let before = format.number((fields - 1) as nat);
        lemma_multiple_order((fields - 1) as nat, other, u);
        lemma_multiple_order(other, fields, u);
        assert(there * den <= before * den && there * den <= here * den && (before + here) * den
            == before * den + here * den) by (nonlinear_arith)
            requires
                there <= before,
                there <= here,
        ;
    } else if other > fields {
        let after = format.number(fields + 1);
        lemma_multiple_order(other, fields + 1, u);
        lemma_multiple_order(fields, other, u);
        assert(after * den <= there * den && here * den <= there * den && (here + after) * den
            == here * den + after * den) by (nonlinear_arith)
            requires
                after <= there,
                here <= there,
        ;
    }
}

/// To every number one of the format is nearest: rounding is defined.
pub proof fn law_nearest_exists(format: Format, num: nat, den: nat)
    ensures
        format.nearest(format.rounded(num, den), num, den),
{
    let fields = lemma_nearest_from(format, num, den, 0);
    assert(format.nearest(fields, num, den));
}

/// The nearest number is found by going up from one that is not above it.
proof fn lemma_nearest_from(format: Format, num: nat, den: nat, from: nat) -> (fields: nat)
    requires
        from <= format.infinity,
        from > 0 ==> ({
            let middle = (format.number((from - 1) as nat) + format.number(from)) * den;
            middle < 2 * num || (middle == 2 * num && from % 2 == 0)
        }),
    ensures
        format.nearest(fields, num, den),
    decreases format.infinity - from,
{
    let middle = (format.number(from) + format.number(from + 1)) * den;
    if from == format.infinity || 2 * num < middle || (2 * num == middle && from % 2 == 0) {
        from
    } else {
        lemma_nearest_from(format, num, den, from + 1)
    }
}

/// Rounding passes over no number of the format: what is not above one is
/// rounded to no more, and what is not below one to no less.
pub proof fn law_rounding_keeps_order(format: Format, num: nat, den: nat, fields: nat)
    requires
        format.valid(),
        den > 0,
        fields <= format.infinity,
    ensures
        num <= format.number(fields) * den ==> format.rounded(num, den) <= fields,
        num >= format.number(fields) * den ==> format.rounded(num, den) >= fields,
{
    let r = format.rounded(num, den);
    let u = format.unit();
    let here = format.number(fields);
    law_nearest_exists(format, num, den);
    lemma_pow2_pos(format.fraction_bits as nat);
    if r > fields {
        let (a, b) = (format.number((r - 1) as nat), format.number(r));
        lemma_multiple_order((r - 1) as nat, fields, u);
        lemma_multiple_order((r - 1) as nat, r, u);
        assert((a + b) * den > 2 * (here * den)) by (nonlinear_arith)
            requires
                a >= here,
                b > a,
                den > 0,
        ;
    }
    if r < fields {
        let (a, b) = (format.number(r), format.number(r + 1));
        lemma_multiple_order(fields, r + 1, u);
        lemma_multiple_order(r, r + 1, u);
        assert((a + b) * den < 2 * (here * den)) by (nonlinear_arith)
            requires
                b <= here,
                b > a,
                den > 0,
        ;
    }
}

/// Rounding keeps the order of what is rounded.
pub proof fn law_rounding_is_monotone(format: Format, num: nat, den: nat, more: nat, per: nat)
    requires
        format.valid(),
        den > 0,
        per > 0,
        num * per <= more * den,
    ensures
        format.rounded(num, den) <= format.rounded(more, per),
{
    let (a, b) = (format.rounded(num, den), format.rounded(more, per));
    let u = format.unit();
    law_nearest_exists(format, num, den);
    law_nearest_exists(format, more, per);
    lemma_pow2_pos(format.fraction_bits as nat);
    if a > b {
        let low = format.number((a - 1) as nat) + format.number(a);
        let high = format.number(b) + format.number(b + 1);
        lemma_multiple_order((a - 1) as nat, b, u);
        lemma_multiple_order(a, b + 1, u);
        assert(low * den <= 2 * num);
        assert(2 * more <= high * per);
        assert(low * (den * per) <= 2 * (num * per)) by (nonlinear_arith)
            requires
                low * den <= 2 * num,
        ;
        assert(2 * (more * den) <= high * (den * per)) by (nonlinear_arith)
            requires
                2 * more <= high * per,
        ;
        let d = den * per;
        assert(d > 0) by (nonlinear_arith)
            requires
                d == den * per,
                den > 0,
                per > 0,
        ;
        assert(low <= high) by (nonlinear_arith)
            requires
                low * d <= high * d,
                d > 0,
        ;
        // Only neighbours are left, and the middle between them goes to one.
        assert(a == b + 1) by {
            if a > b + 1 {
                lemma_multiple_order(b, (a - 1) as nat, u);
                lemma_multiple_order(b + 1, a, u);
            }
        }
        if low * den < 2 * num {
            assert(low * d < 2 * (num * per)) by (nonlinear_arith)
                requires
                    low * den < 2 * num,
                    d == den * per,
                    per > 0,
            ;
        }
        if 2 * more < high * per {
            assert(2 * (more * den) < high * d) by (nonlinear_arith)
                requires
                    2 * more < high * per,
                    d == den * per,
                    den > 0,
            ;
        }
    }
}

/// What lies below the middle behind a number is rounded to no more.
pub proof fn lemma_below_middle(format: Format, num: nat, den: nat, fields: nat)
    requires
        format.valid(),
        den > 0,
        2 * num < (format.number(fields) + format.number(fields + 1)) * den,
    ensures
        format.rounded(num, den) <= fields,
{
    let r = format.rounded(num, den);
    let u = format.unit();
    law_nearest_exists(format, num, den);
    lemma_pow2_pos(format.fraction_bits as nat);
    if r > fields {
        let (a, b) = (format.number((r - 1) as nat), format.number(r));
        let (c, d) = (format.number(fields), format.number(fields + 1));
        lemma_multiple_order((r - 1) as nat, fields, u);
        lemma_multiple_order(r, fields + 1, u);
        assert((a + b) * den >= (c + d) * den) by (nonlinear_arith)
            requires
                a >= c,
                b >= d,
        ;
    }
}

// ---------------------------------------------------------------------------
// How much is lost
// ---------------------------------------------------------------------------

/// From a number to the next it is one step, or a small part of the number.
pub proof fn lemma_gap(format: Format, fields: nat)
    requires
        format.valid(),
    ensures
        format.number(fields) < format.number(fields + 1),
        ({
            let n = format.number(fields);
            let gap = format.number(fields + 1) - n;
            format.unit() * gap <= n || (n < format.unit() && gap == 1)
        }),
{
    let u = format.unit();
    lemma_pow2_pos(format.fraction_bits as nat);
    lemma_multiple_order(fields, fields + 1, u);
    vstd::arithmetic::power2::lemma2_to64();
    if fields >= u {
        assert(fields / u >= 1 && fields % u < u) by (nonlinear_arith)
            requires
                fields >= u,
                u > 0,
        ;
    }
    let (e, m) = if fields < u {
        (0nat, fields)
    } else {
        ((fields / u - 1) as nat, u + fields % u)
    };
    assert(fields == e * u + m) by (nonlinear_arith)
        requires
            u > 0,
            (e == 0 && m == fields) || (fields >= u && e == fields / u - 1 && m == u + fields % u),
    ;
    lemma_multiple_of(e, m, u);
    lemma_multiple_of(e, m + 1, u);
    let p = pow2(e);
    assert(fields + 1 == e * u + (m + 1));
    assert((m + 1) * p - m * p == p) by (nonlinear_arith);
    if fields >= u {
        assert(u * p <= m * p) by (nonlinear_arith)
            requires
                u <= m,
        ;
    } else {
        assert(m * 1 == m);
    }
}

/// Rounding loses at most half of a small part, or half of the smallest number.
pub proof fn lemma_error(format: Format, num: nat, den: nat)
    requires
        format.valid(),
        den > 0,
        format.rounded(num, den) < format.infinity,
    ensures
        ({
            let off = format.number(format.rounded(num, den)) * den - num;
            let most = num + format.unit() * den;
            -most <= 2 * (format.unit() * off) <= most
        }),
{
    let f = format.rounded(num, den);
    let u = format.unit();
    let n = format.number(f);
    lemma_pow2_pos(format.fraction_bits as nat);
    law_nearest_exists(format, num, den);
    lemma_gap(format, f);
    let next = format.number(f + 1);
    let off = n * den - num;
    let g = next - n;
    assert((n + next) * den == 2 * (n * den) + g * den) by (nonlinear_arith)
        requires
            g == next - n,
    ;
    if off < 0 {
        assert(u * g <= n || u * g == u) by {
            if g == 1 {
                assert(u * 1 == u);
            }
        }
        assert(-(2 * (u * off)) <= num + u * den) by (nonlinear_arith)
            requires
                2 * num <= 2 * (n * den) + g * den,
                off == n * den - num,
                off < 0,
                u * g <= n || u * g == u,
                u > 0,
                den > 0,
        ;
        assert(u * off <= 0) by (nonlinear_arith)
            requires
                off < 0,
                u > 0,
        ;
    } else if f > 0 {
        let before = format.number((f - 1) as nat);
        lemma_gap(format, (f - 1) as nat);
        let h = n - before;
        assert(u * h <= before || u * h == u) by {
            if h == 1 {
                assert(u * 1 == u);
            }
        }
        assert((before + n) * den == 2 * (n * den) - h * den) by (nonlinear_arith)
            requires
                h == n - before,
        ;
        assert(2 * (before * den) <= 2 * num) by (nonlinear_arith)
            requires
                (before + n) * den <= 2 * num,
                before <= n,
        ;
        assert(2 * (u * off) <= num + u * den) by (nonlinear_arith)
            requires
                2 * (n * den) - h * den <= 2 * num,
                off == n * den - num,
                u * h <= before || u * h == u,
                before * den <= num,
                u > 0,
                den > 0,
        ;
        assert(u * off >= 0) by (nonlinear_arith)
            requires
                off >= 0,
                u > 0,
        ;
    } else {
        lemma_multiple_zero(0, u);
        assert(0 * den == 0) by (nonlinear_arith);
        assert(off == 0 - num);
        assert(u * 0 == 0);
    }
}

/// To every square root one number of the format is nearest.
pub proof fn law_nearest_root_exists(format: Format, n: nat)
    ensures
        format.nearest_root(format.rounded_root(n), n),
{
    let fields = lemma_nearest_root_from(format, n, 0);
    assert(format.nearest_root(fields, n));
}

proof fn lemma_nearest_root_from(format: Format, n: nat, from: nat) -> (fields: nat)
    requires
        from <= format.infinity,
        from > 0 ==> ({
            let twice = format.number((from - 1) as nat) + format.number(from);
            twice * twice < 4 * n || (twice * twice == 4 * n && from % 2 == 0)
        }),
    ensures
        format.nearest_root(fields, n),
    decreases format.infinity - from,
{
    let twice = format.number(from) + format.number(from + 1);
    if from == format.infinity || 4 * n < twice * twice || (4 * n == twice * twice && from % 2
        == 0) {
        from
    } else {
        lemma_nearest_root_from(format, n, from + 1)
    }
}

/// No number but one is nearest.
pub proof fn lemma_nearest_unique(format: Format, a: nat, b: nat, num: nat, den: nat)
    requires
        format.valid(),
        den > 0,
        format.nearest(a, num, den),
        format.nearest(b, num, den),
    ensures
        a == b,
{
    lemma_nearest_ordered(format, a, b, num, den);
    lemma_nearest_ordered(format, b, a, num, den);
}

proof fn lemma_nearest_ordered(format: Format, a: nat, b: nat, num: nat, den: nat)
    requires
        format.valid(),
        den > 0,
        format.nearest(a, num, den),
        format.nearest(b, num, den),
    ensures
        b <= a,
{
    if a < b {
        let u = format.unit();
        lemma_pow2_pos(format.fraction_bits as nat);
        lemma_multiple_order((b - 1) as nat, a, u);
        lemma_multiple_order(b, a + 1, u);
        let low = format.number(a) + format.number(a + 1);
        let high = format.number((b - 1) as nat) + format.number(b);
        assert(low <= high);
        assert(low * den <= high * den) by (nonlinear_arith)
            requires
                low <= high,
        ;
        if low < high {
            assert(low * den < high * den) by (nonlinear_arith)
                requires
                    low < high,
                    den > 0,
            ;
        } else {
            lemma_multiple_order((b - 1) as nat, a, u);
            assert(b == a + 1);
        }
    }
}

/// No number but one is nearest to a square root.
pub proof fn lemma_nearest_root_unique(format: Format, a: nat, b: nat, n: nat)
    requires
        format.valid(),
        format.nearest_root(a, n),
        format.nearest_root(b, n),
    ensures
        a == b,
{
    lemma_nearest_root_ordered(format, a, b, n);
    lemma_nearest_root_ordered(format, b, a, n);
}

proof fn lemma_nearest_root_ordered(format: Format, a: nat, b: nat, n: nat)
    requires
        format.valid(),
        format.nearest_root(a, n),
        format.nearest_root(b, n),
    ensures
        b <= a,
{
    if a < b {
        let u = format.unit();
        lemma_pow2_pos(format.fraction_bits as nat);
        lemma_multiple_order((b - 1) as nat, a, u);
        lemma_multiple_order(b, a + 1, u);
        let low = format.number(a) + format.number(a + 1);
        let high = format.number((b - 1) as nat) + format.number(b);
        assert(low <= high);
        assert(low * low <= high * high) by (nonlinear_arith)
            requires
                low <= high,
        ;
        if low < high {
            assert(low * low < high * high) by (nonlinear_arith)
                requires
                    low < high,
            ;
        } else {
            assert(b == a + 1);
        }
    }
}

// ---------------------------------------------------------------------------
// Rounding a significand
// ---------------------------------------------------------------------------

/// The part of an exponent above zero.
pub open spec fn above(e: int) -> nat {
    if e >= 0 {
        e as nat
    } else {
        0
    }
}

/// The part of an exponent below zero.
pub open spec fn below(e: int) -> nat {
    if e >= 0 {
        0
    } else {
        (-e) as nat
    }
}

/// Whether `fields` encodes the number nearest to `sig` times two to the `e`
/// smallest numbers, or, if `inexact`, to every number strictly between this
/// and `sig + 1` times two to the `e`.
pub open spec fn packed(
    format: Format,
    fields: nat,
    sig: nat,
    e: int,
    inexact: bool,
) -> bool {
    &&& fields <= format.infinity
    &&& fields > 0 ==> above_lower(format, fields, sig, e, inexact)
    &&& fields < format.infinity ==> below_upper(format, fields, sig, e, inexact)
}

/// The number is not below the middle between the encoded one and the one before.
pub open spec fn above_lower(format: Format, fields: nat, sig: nat, e: int, inexact: bool) -> bool {
    let middle = (format.number((fields - 1) as nat) + format.number(fields)) * pow2(below(e));
    let at = 2 * sig * pow2(above(e));
    middle < at || (middle == at && (inexact || fields % 2 == 0))
}

/// The number is not above the middle between the encoded one and the one behind.
pub open spec fn below_upper(format: Format, fields: nat, sig: nat, e: int, inexact: bool) -> bool {
    let middle = (format.number(fields) + format.number(fields + 1)) * pow2(below(e));
    let at = 2 * sig * pow2(above(e));
    if inexact {
        2 * (sig + 1) * pow2(above(e)) <= middle
    } else {
        at < middle || (at == middle && fields % 2 == 0)
    }
}

/// Two to the `k`.
pub fn power(k: u32) -> (p: u128)
    requires
        k <= 127,
    ensures
        p == pow2(k as nat),
{
    proof {
        vstd::arithmetic::power2::lemma2_to64();
        lemma_pow2_127();
    }
    let mut p: u128 = 1;
    let mut i: u32 = 0;
    while k - i >= 16
        invariant
            i <= k <= 127,
            p == pow2(i as nat),
            pow2(16) == 65536,
            pow2(127) == 0x8000_0000_0000_0000_0000_0000_0000_0000,
        decreases k - i,
    {
        proof {
            lemma_pow2_adds(i as nat, 16);
            if i + 16 < 127 {
                lemma_pow2_strictly_increases((i + 16) as nat, 127);
            }
        }
        p = p * 65536;
        i = i + 16;
    }
    while i < k
        invariant
            i <= k <= 127,
            p == pow2(i as nat),
            pow2(1) == 2,
            pow2(127) == 0x8000_0000_0000_0000_0000_0000_0000_0000,
        decreases k - i,
    {
        proof {
            lemma_pow2_adds(i as nat, 1);
            if i + 1 < 127 {
                lemma_pow2_strictly_increases((i + 1) as nat, 127);
            }
        }
        p = p * 2;
        i = i + 1;
    }
    p
}

pub proof fn lemma_pow2_127()
    ensures
        pow2(127) == 0x8000_0000_0000_0000_0000_0000_0000_0000,
        pow2(128) == 0x1_0000_0000_0000_0000_0000_0000_0000_0000,
{
    vstd::arithmetic::power2::lemma2_to64();
    lemma_pow2_adds(64, 64);
    lemma_pow2_adds(127, 1);
    assert(0x1_0000_0000_0000_0000 * 0x1_0000_0000_0000_0000
        == 0x1_0000_0000_0000_0000_0000_0000_0000_0000int);
}

/// The number of binary digits.
pub fn bit_length(x: u128) -> (len: u32)
    requires
        x > 0,
    ensures
        1 <= len <= 128,
        pow2((len - 1) as nat) <= x < pow2(len as nat),
{
    proof {
        vstd::arithmetic::power2::lemma2_to64();
        lemma_pow2_127();
    }
    let mut rest: u128 = x;
    let mut len: u32 = 0;
    while rest >= 65536
        invariant
            rest > 0,
            len <= 112 && len % 16 == 0,
            pow2(16) == 65536,
            pow2(128) == 0x1_0000_0000_0000_0000_0000_0000_0000_0000,
            rest * pow2(len as nat) <= x < (rest + 1) * pow2(len as nat),
        decreases rest,
    {
        proof {
            lemma_pow2_adds(len as nat, 16);
            let (r, p) = (rest as nat, pow2(len as nat));
            let q = r / 65536;
            assert(q * 65536 <= r && r + 1 <= (q + 1) * 65536);
            assert(q * (p * 65536) <= r * p && (r + 1) * p <= (q + 1) * (p * 65536))
                by (nonlinear_arith)
                requires
                    q * 65536 <= r,
                    r + 1 <= (q + 1) * 65536,
            ;
            assert(65536 * p <= r * p) by (nonlinear_arith)
                requires
                    r >= 65536,
            ;
            if len + 16 >= 128 {
                if len + 16 > 128 {
                    lemma_pow2_strictly_increases(128, (len + 16) as nat);
                }
                assert(false);
            }
        }
        rest = rest / 65536;
        len = len + 16;
    }
    while rest > 1
        invariant
            rest > 0,
            len <= 127,
            pow2(1) == 2,
            pow2(128) == 0x1_0000_0000_0000_0000_0000_0000_0000_0000,
            rest * pow2(len as nat) <= x < (rest + 1) * pow2(len as nat),
        decreases rest,
    {
        proof {
            lemma_pow2_adds(len as nat, 1);
            let (r, p) = (rest as nat, pow2(len as nat));
            let q = r / 2;
            assert(q * (p * 2) <= r * p && (r + 1) * p <= (q + 1) * (p * 2)) by (nonlinear_arith)
                requires
                    q * 2 <= r,
                    r + 1 <= (q + 1) * 2,
            ;
            assert(2 * p <= r * p) by (nonlinear_arith)
                requires
                    r >= 2,
            ;
            if len == 127 {
                assert(false);
            }
        }
        rest = rest / 2;
        len = len + 1;
    }
    proof {
        lemma_pow2_adds(len as nat, 1);
        assert(rest == 1);
    }
    len + 1
}

/// The encoding behind `fields` is that of a number at least one step of the
/// exponent away.
proof fn lemma_next(exp: nat, q: nat, unit: nat)
    requires
        unit > 0,
        unit <= q <= 2 * unit || (exp == 0 && q < unit),
    ensures
        multiple(exp * unit + q + 1, unit) >= (q + 1) * pow2(exp),
{
    if q < 2 * unit {
        lemma_multiple_of(exp, q + 1, unit);
    } else {
        let f = exp * unit + q + 1;
        vstd::arithmetic::power2::lemma2_to64();
        lemma_pow2_adds(exp, 1);
        if unit == 1 {
            assert(f == (exp + 1) * unit + 2) by (nonlinear_arith)
                requires
                    f == exp * unit + q + 1,
                    q == 2 * unit,
                    unit == 1,
            ;
            lemma_multiple_of(exp + 1, 2, unit);
            assert(2 * (pow2(exp) * 2) >= (q + 1) * pow2(exp)) by (nonlinear_arith)
                requires
                    q == 2,
            ;
        } else {
            assert(f == (exp + 1) * unit + (unit + 1)) by (nonlinear_arith)
                requires
                    f == exp * unit + q + 1,
                    q == 2 * unit,
            ;
            lemma_multiple_of(exp + 1, unit + 1, unit);
            assert((unit + 1) * (pow2(exp) * 2) >= (q + 1) * pow2(exp)) by (nonlinear_arith)
                requires
                    q == 2 * unit,
            ;
        }
    }
}

/// Rounding down: `sig` is `q` steps of `d` and a rest that does not reach the
/// middle.
proof fn lemma_round_down(
    format: Format,
    exp: nat,
    q: nat,
    sig: nat,
    d: nat,
    r: nat,
    e: int,
    inexact: bool,
)
    requires
        format.valid(),
        format.unit() <= q <= 2 * format.unit() || (exp == 0 && q < format.unit()),
        d > 0,
        sig == q * d + r,
        pow2(exp) * pow2(below(e)) == d * pow2(above(e)),
        if inexact {
            2 * (r + 1) <= d
        } else {
            2 * r < d || (2 * r == d && q % 2 == 0)
        },
    ensures
        ({
            let fields = exp * format.unit() + q;
            &&& fields > 0 ==> above_lower(format, fields, sig, e, inexact)
            &&& below_upper(format, fields, sig, e, inexact)
        }),
{
    let u = format.unit();
    let fields = exp * u + q;
    let (t, n, x) = (pow2(exp), pow2(below(e)), pow2(above(e)));
    lemma_pow2_pos(format.fraction_bits as nat);
    lemma_pow2_pos(exp);
    lemma_pow2_pos(below(e));
    lemma_pow2_pos(above(e));
    lemma_even_unit(format);
    lemma_multiple_of(exp, q, u);
    lemma_next(exp, q, u);
    let here = format.number(fields);
    let next = format.number(fields + 1);
    assert(here == q * t && next >= (q + 1) * t);
    assert(2 * sig * x == 2 * (q * (t * n)) + 2 * r * x) by (nonlinear_arith)
        requires
            sig == q * d + r,
            t * n == d * x,
    ;
    assert(2 * (sig + 1) * x == 2 * (q * (t * n)) + 2 * (r + 1) * x) by (nonlinear_arith)
        requires
            sig == q * d + r,
            t * n == d * x,
    ;
    assert((here + next) * n >= 2 * (q * (t * n)) + d * x) by (nonlinear_arith)
        requires
            here == q * t,
            next >= (q + 1) * t,
            t * n == d * x,
    ;
    if inexact {
        assert(2 * (r + 1) * x <= d * x) by (nonlinear_arith)
            requires
                2 * (r + 1) <= d,
        ;
    } else if 2 * r < d {
        assert(2 * r * x < d * x) by (nonlinear_arith)
            requires
                2 * r < d,
                x > 0,
        ;
    } else {
        assert(2 * r * x == d * x) by (nonlinear_arith)
            requires
                2 * r == d,
        ;
        lemma_parity(exp, q, u);
    }
    if fields > 0 {
        let before = format.number((fields - 1) as nat);
        lemma_multiple_order((fields - 1) as nat, fields, u);
        assert((before + here) * n < 2 * (q * (t * n)) + 2 * r * x) by (nonlinear_arith)
            requires
                before < here,
                here == q * t,
                n > 0,
                x > 0,
        ;
    }
}

/// Rounding up: `sig` is `q` steps of `d` and a rest from the middle on.
proof fn lemma_round_up(
    format: Format,
    exp: nat,
    q: nat,
    sig: nat,
    d: nat,
    r: nat,
    e: int,
    inexact: bool,
)
    requires
        format.valid(),
        format.unit() <= q < 2 * format.unit() || (exp == 0 && q < format.unit()),
        r < d,
        sig == q * d + r,
        pow2(exp) * pow2(below(e)) == d * pow2(above(e)),
        d < 2 * r || (d == 2 * r && (inexact || q % 2 == 1)),
    ensures
        ({
            let fields = exp * format.unit() + q + 1;
            &&& above_lower(format, fields, sig, e, inexact)
            &&& below_upper(format, fields, sig, e, inexact)
        }),
{
    let u = format.unit();
    let fields = exp * u + q + 1;
    let (t, n, x) = (pow2(exp), pow2(below(e)), pow2(above(e)));
    lemma_pow2_pos(format.fraction_bits as nat);
    lemma_pow2_pos(exp);
    lemma_pow2_pos(below(e));
    lemma_pow2_pos(above(e));
    lemma_even_unit(format);
    lemma_multiple_of(exp, q, u);
    lemma_multiple_of(exp, q + 1, u);
    lemma_multiple_order(fields, fields + 1, u);
    let before = format.number((fields - 1) as nat);
    let here = format.number(fields);
    let next = format.number(fields + 1);
    assert(before == q * t && here == (q + 1) * t && next > here);
    assert(2 * sig * x == 2 * (q * (t * n)) + 2 * r * x) by (nonlinear_arith)
        requires
            sig == q * d + r,
            t * n == d * x,
    ;
    assert(2 * (sig + 1) * x == 2 * (q * (t * n)) + 2 * (r + 1) * x) by (nonlinear_arith)
        requires
            sig == q * d + r,
            t * n == d * x,
    ;
    assert((before + here) * n == 2 * (q * (t * n)) + d * x) by (nonlinear_arith)
        requires
            before == q * t,
            here == (q + 1) * t,
            t * n == d * x,
    ;
    if d < 2 * r {
        assert(d * x < 2 * r * x) by (nonlinear_arith)
            requires
                d < 2 * r,
                x > 0,
        ;
    } else {
        assert(d * x == 2 * r * x) by (nonlinear_arith)
            requires
                d == 2 * r,
        ;
        lemma_parity(exp, q + 1, u);
    }
    assert((here + next) * n > 2 * (q * (t * n)) + 2 * (d * x)) by (nonlinear_arith)
        requires
            here == (q + 1) * t,
            next > here,
            t * n == d * x,
            n > 0,
    ;
    assert(2 * (r + 1) * x <= 2 * (d * x)) by (nonlinear_arith)
        requires
            r < d,
    ;
    assert(2 * r * x <= 2 * (r + 1) * x) by (nonlinear_arith);
}

/// The number of fractions is even.
pub proof fn lemma_even_unit(format: Format)
    requires
        format.valid(),
    ensures
        format.unit() % 2 == 0,
        format == single() ==> format.unit() == 0x80_0000,
        format == double() ==> format.unit() == 0x10_0000_0000_0000,
{
    vstd::arithmetic::power2::lemma2_to64();
    vstd::arithmetic::power2::lemma2_to64_rest();
}

proof fn lemma_parity(exp: nat, q: nat, unit: nat)
    requires
        unit % 2 == 0,
    ensures
        (exp * unit + q) % 2 == q % 2,
{
    let h = unit / 2;
    assert(exp * unit == 2 * (exp * h)) by (nonlinear_arith)
        requires
            unit == 2 * h,
    ;
}

/// Beyond the greatest number, infinity is nearest.
proof fn lemma_cap(format: Format, fields: nat, sig: nat, e: int, inexact: bool)
    requires
        format.valid(),
        fields > format.infinity,
        above_lower(format, fields, sig, e, inexact),
    ensures
        packed(format, format.infinity as nat, sig, e, inexact),
{
    let u = format.unit();
    let inf = format.infinity as nat;
    lemma_pow2_pos(format.fraction_bits as nat);
    lemma_pow2_pos(below(e));
    let n = pow2(below(e));
    lemma_multiple_order((inf - 1) as nat, (fields - 1) as nat, u);
    lemma_multiple_order(inf, fields, u);
    let low = format.number((inf - 1) as nat) + format.number(inf);
    let high = format.number((fields - 1) as nat) + format.number(fields);
    assert(low * n < high * n) by (nonlinear_arith)
        requires
            low < high,
            n > 0,
    ;
}

/// The exponent at which a significand of `len` digits, times two to the `e`,
/// has the width of the format, or else the first one.
spec fn target(format: Format, len: int, e: int) -> int {
    if e + len - format.fraction_bits - 1 > 0 {
        e + len - format.fraction_bits - 1
    } else {
        0
    }
}

/// A significand that is short of the format's width is widened.
proof fn lemma_widen(format: Format, sig: nat, len: nat, e: int, q: nat)
    requires
        format.valid(),
        len >= 1,
        pow2((len - 1) as nat) <= sig < pow2(len),
        target(format, len as int, e) <= e,
        q == sig * pow2((e - target(format, len as int, e)) as nat),
    ensures
        ({
            let exp = target(format, len as int, e) as nat;
            let fields = exp * format.unit() + q;
            &&& format.unit() <= q < 2 * format.unit() || (exp == 0 && q < format.unit())
            &&& fields > 0 ==> above_lower(format, fields, sig, e, false)
            &&& below_upper(format, fields, sig, e, false)
        }),
{
    let u = format.unit();
    let width = (format.fraction_bits + 1) as nat;
    let exp = target(format, len as int, e) as nat;
    let s = (e - exp) as nat;
    let p = pow2(s);
    vstd::arithmetic::power2::lemma2_to64();
    lemma_pow2_pos(s);
    lemma_pow2_adds(format.fraction_bits as nat, 1);
    assert(pow2(width) == 2 * u);
    lemma_pow2_adds(len, s);
    lemma_pow2_adds((len - 1) as nat, s);
    assert(pow2((len - 1) as nat) * p <= q < pow2(len) * p) by (nonlinear_arith)
        requires
            pow2((len - 1) as nat) <= sig < pow2(len),
            q == sig * p,
            p > 0,
    ;
    if exp == e + len - width {
        assert(len + s == width);
        assert((len - 1) + s == format.fraction_bits);
    } else {
        assert(exp == 0 && len + s < width);
        if len + s < format.fraction_bits {
            lemma_pow2_strictly_increases(len + s, format.fraction_bits as nat);
        }
    }
    assert(below(exp as int) == 0 && above(exp as int) == exp && pow2(0) == 1);
    lemma_round_down(format, exp, q, q, 1, 0, exp as int, false);
    lemma_pow2_adds(s, exp);
    assert(2 * q * pow2(exp) == 2 * sig * pow2(e as nat)) by (nonlinear_arith)
        requires
            q == sig * p,
            pow2(e as nat) == p * pow2(exp),
    ;
}

/// Cutting a significand to the format's width.
proof fn lemma_cut(format: Format, sig: nat, len: nat, e: int, d: nat)
    requires
        format.valid(),
        len >= 1,
        pow2((len - 1) as nat) <= sig < pow2(len),
        target(format, len as int, e) > e,
        d == pow2((target(format, len as int, e) - e) as nat),
    ensures
        ({
            let exp = target(format, len as int, e) as nat;
            let q = sig / d;
            &&& d > 0 && d % 2 == 0
            &&& sig == q * d + sig % d && sig % d < d
            &&& format.unit() <= q < 2 * format.unit() || (exp == 0 && q < format.unit())
            &&& pow2(exp) * pow2(below(e)) == d * pow2(above(e))
        }),
{
    let u = format.unit();
    let width = (format.fraction_bits + 1) as nat;
    let exp = target(format, len as int, e) as nat;
    let k = (exp - e) as nat;
    let q = sig / d;
    let r = sig % d;
    vstd::arithmetic::power2::lemma2_to64();
    lemma_pow2_pos(k);
    lemma_pow2_adds((k - 1) as nat, 1);
    lemma_pow2_adds(format.fraction_bits as nat, 1);
    assert(pow2(width) == 2 * u);
    assert(sig == q * d + r && r < d) by (nonlinear_arith)
        requires
            q == sig / d,
            r == sig % d,
            d > 0,
    ;
    lemma_pow2_adds(exp, below(e));
    lemma_pow2_adds(k, above(e));
    assert(exp + below(e) == k + above(e));
    if exp == e + len - width {
        assert(k == len - width);
        lemma_pow2_adds(width, k);
        lemma_pow2_adds(format.fraction_bits as nat, k);
        assert(u <= q < 2 * u) by (nonlinear_arith)
            requires
                sig == q * d + r,
                r < d,
                u * d <= sig < 2 * u * d,
        ;
    } else {
        assert(exp == 0 && k == -e);
        if len < format.fraction_bits + k {
            lemma_pow2_strictly_increases(len, (format.fraction_bits + k) as nat);
        }
        lemma_pow2_adds(format.fraction_bits as nat, k);
        assert(q < u) by (nonlinear_arith)
            requires
                sig == q * d + r,
                sig < u * d,
        ;
    }
}

proof fn lemma_pack_zero(format: Format, e: int)
    requires
        format.valid(),
    ensures
        packed(format, 0, 0, e, false),
{
    lemma_even_unit(format);
    lemma_multiple_order(0, 1, format.unit());
    lemma_pow2_pos(below(e));
    let n = pow2(below(e));
    let m = format.number(0) + format.number(1);
    assert(m * n > 0) by (nonlinear_arith)
        requires
            m > 0,
            n > 0,
    ;
    let x = pow2(above(e));
    assert(2 * 0nat * x == 0) by (nonlinear_arith);
}

/// `all` encodes the number nearest to the significand, if encodings went on
/// behind infinity.
spec fn rounds_to(format: Format, all: nat, sig: nat, e: int, inexact: bool) -> bool {
    &&& all > 0 ==> above_lower(format, all, sig, e, inexact)
    &&& below_upper(format, all, sig, e, inexact)
}

/// A significand so far below the first number that it rounds to zero.
proof fn lemma_vanish(format: Format, sig: nat, len: nat, e: int, inexact: bool)
    requires
        format.valid(),
        1 <= len <= 127,
        pow2((len - 1) as nat) <= sig < pow2(len),
        target(format, len as int, e) - e > 127,
    ensures
        target(format, len as int, e) == 0,
        rounds_to(format, 0, sig, e, inexact),
{
    let k = (target(format, len as int, e) - e) as nat;
    let d = pow2(k);
    lemma_pow2_127();
    vstd::arithmetic::power2::lemma2_to64();
    lemma_pow2_adds((k - 1) as nat, 1);
    if k - 1 > 127 {
        lemma_pow2_strictly_increases(127, (k - 1) as nat);
    }
    if len < 127 {
        lemma_pow2_strictly_increases(len, 127);
    }
    lemma_cut(format, sig, len, e, d);
    assert(sig / d == 0 && sig % d == sig) by (nonlinear_arith)
        requires
            sig < d,
    ;
    lemma_even_unit(format);
    lemma_round_down(format, 0, 0, sig, d, sig, e, inexact);
}

/// Cuts the significand by `k` digits; rounding may add one.
fn cut(format: Format, sig: u128, len: u32, e: i32, exp: u32, inexact: bool) -> (q: u128)
    requires
        format.valid(),
        1 <= len <= 127,
        pow2((len - 1) as nat) <= sig < pow2(len as nat),
        exp == target(format, len as int, e as int),
        0 < exp - e <= 127,
        -4000 <= e <= 4000,
    ensures
        q <= 0x20_0000_0000_0000,
        rounds_to(format, exp as nat * format.unit() + q as nat, sig as nat, e as int, inexact),
{
    let d: u128 = power((exp as i32 - e) as u32);
    proof {
        lemma_cut(format, sig as nat, len as nat, e as int, d as nat);
        lemma_even_unit(format);
    }
    let q: u128 = sig / d;
    let r: u128 = sig % d;
    if r > d / 2 || (r == d / 2 && (inexact || q % 2 == 1)) {
        proof {
            lemma_round_up(
                format,
                exp as nat,
                q as nat,
                sig as nat,
                d as nat,
                r as nat,
                e as int,
                inexact,
            );
        }
        q + 1
    } else {
        proof {
            lemma_round_down(
                format,
                exp as nat,
                q as nat,
                sig as nat,
                d as nat,
                r as nat,
                e as int,
                inexact,
            );
        }
        q
    }
}

/// Widens the significand to the exponent `exp`.
fn widen(format: Format, sig: u128, len: u32, e: i32, exp: u32) -> (q: u128)
    requires
        format.valid(),
        1 <= len <= 127,
        pow2((len - 1) as nat) <= sig < pow2(len as nat),
        exp == target(format, len as int, e as int),
        exp <= e <= 4000,
    ensures
        q <= 0x20_0000_0000_0000,
        rounds_to(format, exp as nat * format.unit() + q as nat, sig as nat, e as int, false),
{
    proof {
        lemma_even_unit(format);
        lemma_widen(
            format,
            sig as nat,
            len as nat,
            e as int,
            sig as nat * pow2((e - exp) as nat),
        );
    }
    let shift: u128 = power((e - exp as i32) as u32);
    sig * shift
}

/// The fields of the number nearest to `sig` times two to the `e` smallest
/// numbers of the format, or, if `inexact`, to every number strictly between
/// this and `sig + 1` times two to the `e`.
pub fn pack(format: Format, sig: u128, e: i32, inexact: bool) -> (fields: u64)
    requires
        format.valid(),
        -4000 <= e <= 4000,
        sig < 0x8000_0000_0000_0000_0000_0000_0000_0000,
        inexact ==> sig >= 0x80_0000_0000_0000,
    ensures
        packed(format, fields as nat, sig as nat, e as int, inexact),
{
    if sig == 0 {
        proof {
            lemma_pack_zero(format, e as int);
        }
        return 0;
    }
    let len: u32 = bit_length(sig);
    proof {
        vstd::arithmetic::power2::lemma2_to64();
        vstd::arithmetic::power2::lemma2_to64_rest();
        lemma_pow2_127();
        lemma_even_unit(format);
        if inexact && len < 55 {
            lemma_pow2_strictly_increases(len as nat, 55);
        }
        assert(inexact ==> len >= 56);
        assert(len <= 127);
    }
    let width: i32 = format.fraction_bits as i32 + 1;
    let exp: u32 = if e + len as i32 - width > 0 {
        (e + len as i32 - width) as u32
    } else {
        0
    };
    let q: u128 = if exp as i32 <= e {
        widen(format, sig, len, e, exp)
    } else if exp as i32 - e > 127 {
        proof {
            lemma_vanish(format, sig as nat, len as nat, e as int, inexact);
        }
        0
    } else {
        cut(format, sig, len, e, exp, inexact)
    };
    let unit: u128 = power(format.fraction_bits);
    let ghost u = format.unit();
    assert(exp as nat * u <= 5000 * 0x10_0000_0000_0000) by (nonlinear_arith)
        requires
            0 <= exp <= 5000,
            0 <= u <= 0x10_0000_0000_0000,
    ;
    let all: u128 = exp as u128 * unit + q;
    assert(rounds_to(format, all as nat, sig as nat, e as int, inexact));
    if all > format.infinity as u128 {
        proof {
            lemma_cap(format, all as nat, sig as nat, e as int, inexact);
        }
        format.infinity
    } else {
        all as u64
    }
}

} // verus!
