//! Arithmetic on IEEE 754 encodings: signs, zeros, infinities and encodings of
//! no number on top of the rounded arithmetic of the finite ones.
//!
//! An encoding is the bit pattern of a format, read as an integer.  An operation
//! without a numeric result gives one fixed encoding of no number.
use vstd::arithmetic::power2::{lemma_pow2_adds, lemma_pow2_pos, pow2};
use vstd::prelude::*;

use crate::arith::{
    add_ordered, convert, divide, multiply, square_root, subtract_ordered,
};
use crate::rounding::{
    double, law_exact_is_kept, law_nearest_exists, law_rounding_keeps_order, lemma_error,
    lemma_even_unit, lemma_multiple_of, lemma_multiple_order, lemma_multiple_zero,
    lemma_nearest_root_unique, lemma_nearest_unique, single, Format,
};

verus! {

impl Format {
    /// Whether the sign bit is set.
    pub open spec fn negative(self, bits: nat) -> bool {
        bits >= self.sign
    }

    /// The exponent and fraction fields.
    pub open spec fn fields(self, bits: nat) -> nat {
        bits % (self.sign as nat)
    }

    /// Whether the encoding is that of no number.
    pub open spec fn nan(self, bits: nat) -> bool {
        self.fields(bits) > self.infinity
    }

    /// The encoding of no number that operations give.
    pub open spec fn no_number(self) -> nat {
        self.infinity as nat + self.unit() / 2
    }

    /// The encoding with this sign and these fields.
    pub open spec fn signed(self, negative: bool, fields: nat) -> nat {
        if negative {
            self.sign as nat + fields
        } else {
            fields
        }
    }

    /// The encoded number, as a multiple of the smallest positive one.
    pub open spec fn value(self, bits: nat) -> int {
        let n = self.number(self.fields(bits));
        if self.negative(bits) {
            -n
        } else {
            n as int
        }
    }

    /// The same number with the other sign.
    pub open spec fn opposite(self, bits: nat) -> nat {
        self.signed(!self.negative(bits), self.fields(bits))
    }

    /// The sum.
    pub open spec fn sum(self, a: nat, b: nat) -> nat {
        if self.nan(a) || self.nan(b) {
            self.no_number()
        } else if self.fields(a) == self.infinity {
            if self.fields(b) == self.infinity && self.negative(a) != self.negative(b) {
                self.no_number()
            } else {
                a
            }
        } else if self.fields(b) == self.infinity {
            b
        } else {
            let v = self.value(a) + self.value(b);
            if v == 0 {
                self.signed(self.negative(a) && self.negative(b), 0)
            } else if v < 0 {
                self.signed(true, self.rounded((-v) as nat, 1))
            } else {
                self.rounded(v as nat, 1)
            }
        }
    }

    /// The difference.
    pub open spec fn difference(self, a: nat, b: nat) -> nat {
        self.sum(a, self.opposite(b))
    }

    /// The product.
    pub open spec fn product(self, a: nat, b: nat) -> nat {
        let negative = self.negative(a) != self.negative(b);
        let (fa, fb) = (self.fields(a), self.fields(b));
        if self.nan(a) || self.nan(b) {
            self.no_number()
        } else if fa == self.infinity || fb == self.infinity {
            if fa == 0 || fb == 0 {
                self.no_number()
            } else {
                self.signed(negative, self.infinity as nat)
            }
        } else {
            let fields = self.rounded(self.number(fa) * self.number(fb), pow2(self.scale as nat));
            self.signed(negative, fields)
        }
    }

    /// The quotient.
    pub open spec fn quotient(self, a: nat, b: nat) -> nat {
        let negative = self.negative(a) != self.negative(b);
        let (fa, fb) = (self.fields(a), self.fields(b));
        if self.nan(a) || self.nan(b) {
            self.no_number()
        } else if (fa == 0 && fb == 0) || (fa == self.infinity && fb == self.infinity) {
            self.no_number()
        } else if fa == self.infinity || fb == 0 {
            self.signed(negative, self.infinity as nat)
        } else if fa == 0 || fb == self.infinity {
            self.signed(negative, 0)
        } else {
            let fields = self.rounded(self.number(fa) * pow2(self.scale as nat), self.number(fb));
            self.signed(negative, fields)
        }
    }

    /// The square root.
    pub open spec fn root(self, a: nat) -> nat {
        let fields = self.fields(a);
        if self.nan(a) {
            self.no_number()
        } else if fields == 0 {
            a
        } else if self.negative(a) {
            self.no_number()
        } else if fields == self.infinity {
            a
        } else {
            self.rounded_root(self.number(fields) * pow2(self.scale as nat))
        }
    }

    /// The number nearest to an integer.
    pub open spec fn of_int(self, i: int) -> nat {
        if i < 0 {
            self.signed(true, self.rounded((-i) as nat * pow2(self.scale as nat), 1))
        } else {
            self.rounded(i as nat * pow2(self.scale as nat), 1)
        }
    }
}

/// An encoding is its sign and its fields.
pub proof fn lemma_parts(format: Format, bits: nat)
    requires
        format.valid(),
        bits < 2 * format.sign,
    ensures
        bits == format.signed(format.negative(bits), format.fields(bits)),
        format.fields(bits) < format.sign,
{
    if format == single() {
        assert(bits % 0x8000_0000 == if bits >= 0x8000_0000 {
            bits - 0x8000_0000
        } else {
            bits as int
        });
    } else {
        assert(bits % 0x8000_0000_0000_0000 == if bits >= 0x8000_0000_0000_0000 {
            bits - 0x8000_0000_0000_0000
        } else {
            bits as int
        });
    }
}

// ---------------------------------------------------------------------------
// Laws
// ---------------------------------------------------------------------------

/// Sums do not depend on the order of their two terms.
pub proof fn law_sum_commutes(format: Format, a: nat, b: nat)
    requires
        format.valid(),
        a < 2 * format.sign,
        b < 2 * format.sign,
    ensures
        format.sum(a, b) == format.sum(b, a),
{
    lemma_parts(format, a);
    lemma_parts(format, b);
}

/// Products do not depend on the order of their two factors.
pub proof fn law_product_commutes(format: Format, a: nat, b: nat)
    ensures
        format.product(a, b) == format.product(b, a),
{
    let (na, nb) = (format.number(format.fields(a)), format.number(format.fields(b)));
    assert(na * nb == nb * na) by (nonlinear_arith);
}

/// The magnitude of a number.
pub open spec fn magnitude(v: int) -> int {
    if v < 0 {
        -v
    } else {
        v
    }
}

/// `got / per` is as near to `exact / per` as a number of the format can be
/// expected to be: it differs by no more than half a unit in the last place of
/// the result, and no more than half a smallest number.
pub open spec fn near(format: Format, got: int, exact: int, per: int) -> bool {
    let most = magnitude(exact) + format.unit() * magnitude(per);
    -most <= 2 * (format.unit() * (got - exact)) <= most
}

/// A number with a sign is as near to what it was rounded from as without.
proof fn lemma_signed_near(format: Format, exact: int, den: nat, bits: nat)
    requires
        format.valid(),
        den > 0,
        bits == format.signed(exact < 0, format.rounded(magnitude(exact) as nat, den)),
    ensures
        bits < 2 * format.sign,
        format.fields(bits) == format.rounded(magnitude(exact) as nat, den),
        format.fields(bits) <= format.infinity,
        format.fields(bits) < format.infinity ==> near(
            format,
            format.value(bits) * den,
            exact,
            den as int,
        ),
        exact >= 0 ==> format.value(bits) >= 0,
        exact <= 0 ==> format.value(bits) <= 0,
{
    let num = magnitude(exact) as nat;
    let f = format.rounded(num, den);
    lemma_even_unit(format);
    law_nearest_exists(format, num, den);
    if format == single() {
        assert(bits % 0x8000_0000 == f);
    } else {
        assert(bits % 0x8000_0000_0000_0000 == f);
    }
    let n = format.number(f) as int;
    if f < format.infinity {
        lemma_error(format, num, den);
        assert((-n) * den == -(n * den)) by (nonlinear_arith);
        let u = format.unit() as int;
        let off = n * den - num;
        assert(u * (-off) == -(u * off)) by (nonlinear_arith);
        if exact < 0 {
            assert(format.value(bits) * den - exact == -off);
        }
    }
    if num == 0 {
        lemma_multiple_zero(0, format.unit());
        assert(0 * den == 0) by (nonlinear_arith);
        law_rounding_keeps_order(format, num, den, 0);
    }
}

/// Where a number stands between others after rounding.
proof fn lemma_signed_order(format: Format, exact: int, den: nat, bits: nat, fields: nat)
    requires
        format.valid(),
        den > 0,
        bits == format.signed(exact < 0, format.rounded(magnitude(exact) as nat, den)),
        fields <= format.infinity,
    ensures
        magnitude(exact) <= format.number(fields) * den ==> format.fields(bits) <= fields,
        magnitude(exact) >= format.number(fields) * den ==> format.fields(bits) >= fields,
{
    lemma_signed_near(format, exact, den, bits);
    law_rounding_keeps_order(format, magnitude(exact) as nat, den, fields);
}

/// The sum of two numbers is near to the exact one, on the same side of zero,
/// and no further out than a number of the format that the exact one does not
/// reach beyond.
pub proof fn law_sum_is_near(format: Format, a: nat, b: nat, fields: nat)
    requires
        format.valid(),
        a < 2 * format.sign,
        b < 2 * format.sign,
        format.fields(a) < format.infinity,
        format.fields(b) < format.infinity,
        fields <= format.infinity,
    ensures
        ({
            let s = format.sum(a, b);
            let exact = format.value(a) + format.value(b);
            &&& s < 2 * format.sign
            &&& format.fields(s) <= format.infinity
            &&& format.fields(s) < format.infinity ==> near(format, format.value(s), exact, 1)
            &&& exact >= 0 ==> format.value(s) >= 0
            &&& exact <= 0 ==> format.value(s) <= 0
            &&& magnitude(exact) <= format.number(fields) ==> format.fields(s) <= fields
            &&& magnitude(exact) >= format.number(fields) ==> format.fields(s) >= fields
        }),
{
    let s = format.sum(a, b);
    let exact = format.value(a) + format.value(b);
    lemma_even_unit(format);
    lemma_multiple_zero(0, format.unit());
    lemma_multiple_zero(fields, format.unit());
    if exact == 0 {
        if format == single() {
            assert(s % 0x8000_0000 == 0);
        } else {
            assert(s % 0x8000_0000_0000_0000 == 0);
        }
    } else {
        lemma_signed_near(format, exact, 1, s);
        lemma_signed_order(format, exact, 1, s, fields);
    }
}

/// The product of two numbers is near to the exact one, on the same side of
/// zero, and no further out than a number of the format that the exact one does
/// not reach beyond.
pub proof fn law_product_is_near(format: Format, a: nat, b: nat, fields: nat)
    requires
        format.valid(),
        a < 2 * format.sign,
        b < 2 * format.sign,
        format.fields(a) < format.infinity,
        format.fields(b) < format.infinity,
        fields <= format.infinity,
    ensures
        ({
            let p = format.product(a, b);
            let exact = format.value(a) * format.value(b);
            let t = pow2(format.scale as nat) as int;
            &&& p < 2 * format.sign
            &&& format.fields(p) <= format.infinity
            &&& format.fields(p) < format.infinity ==> near(format, format.value(p) * t, exact, t)
            &&& exact >= 0 ==> format.value(p) >= 0
            &&& exact <= 0 ==> format.value(p) <= 0
            &&& magnitude(exact) <= format.number(fields) * t ==> format.fields(p) <= fields
            &&& magnitude(exact) >= format.number(fields) * t ==> format.fields(p) >= fields
        }),
{
    let p = format.product(a, b);
    let (va, vb) = (format.value(a), format.value(b));
    let exact = va * vb;
    let (na, nb) = (
        format.number(format.fields(a)) as int,
        format.number(format.fields(b)) as int,
    );
    let t = pow2(format.scale as nat);
    lemma_even_unit(format);
    lemma_pow2_pos(format.scale as nat);
    lemma_multiple_zero(0, format.unit());
    assert((-na) * nb == -(na * nb) && na * (-nb) == -(na * nb) && (-na) * (-nb) == na * nb && na
        * nb >= 0) by (nonlinear_arith)
        requires
            na >= 0,
            nb >= 0,
    ;
    if exact == 0 {
        law_rounding_keeps_order(format, 0, t, 0);
        assert(0 * t == 0) by (nonlinear_arith);
        let f = format.rounded(0, t);
        assert(f == 0);
        if format == single() {
            assert(p % 0x8000_0000 == 0);
        } else {
            assert(p % 0x8000_0000_0000_0000 == 0);
        }
        let n = format.number(fields) as int;
        assert(0 >= n * t ==> n == 0) by (nonlinear_arith)
            requires
                n >= 0,
                t > 0,
        ;
        lemma_multiple_zero(fields, format.unit());
        let u = format.unit() as int;
        assert(u * t >= 0) by (nonlinear_arith)
            requires
                u >= 0,
                t >= 0,
        ;
    } else {
        assert(p == format.signed(exact < 0, format.rounded(magnitude(exact) as nat, t)));
        lemma_signed_near(format, exact, t, p);
        lemma_signed_order(format, exact, t, p, fields);
    }
}

/// The quotient of two numbers is near to the exact one, on the same side of
/// zero, and no further out than a number of the format that the exact one does
/// not reach beyond.
pub proof fn law_quotient_is_near(format: Format, a: nat, b: nat, fields: nat)
    requires
        format.valid(),
        a < 2 * format.sign,
        b < 2 * format.sign,
        format.fields(a) < format.infinity,
        0 < format.fields(b) < format.infinity,
        fields <= format.infinity,
    ensures
        ({
            let q = format.quotient(a, b);
            let d = magnitude(format.value(b));
            let exact = if format.value(b) < 0 {
                -(format.value(a) * pow2(format.scale as nat))
            } else {
                format.value(a) * pow2(format.scale as nat)
            };
            &&& d > 0
            &&& q < 2 * format.sign
            &&& format.fields(q) <= format.infinity
            &&& format.fields(q) < format.infinity ==> near(format, format.value(q) * d, exact, d)
            &&& exact >= 0 ==> format.value(q) >= 0
            &&& exact <= 0 ==> format.value(q) <= 0
            &&& magnitude(exact) <= format.number(fields) * d ==> format.fields(q) <= fields
            &&& magnitude(exact) >= format.number(fields) * d ==> format.fields(q) >= fields
        }),
{
    let q = format.quotient(a, b);
    let t = pow2(format.scale as nat) as int;
    let na = format.number(format.fields(a)) as int;
    let d = format.number(format.fields(b));
    let exact = if format.value(b) < 0 {
        -(format.value(a) * t)
    } else {
        format.value(a) * t
    };
    lemma_even_unit(format);
    lemma_pow2_pos(format.scale as nat);
    lemma_multiple_zero(0, format.unit());
    lemma_multiple_zero(format.fields(a), format.unit());
    lemma_multiple_zero(format.fields(b), format.unit());
    assert((-na) * t == -(na * t) && (na > 0 ==> na * t > 0) && (na == 0 ==> na * t == 0))
        by (nonlinear_arith)
        requires
            na >= 0,
            t > 0,
    ;
    if na == 0 {
        if format == single() {
            assert(q % 0x8000_0000 == 0);
        } else {
            assert(q % 0x8000_0000_0000_0000 == 0);
        }
        let n = format.number(fields) as int;
        assert((0 >= n * d ==> n == 0) && 0 * d == 0) by (nonlinear_arith)
            requires
                n >= 0,
                d > 0,
        ;
        lemma_multiple_zero(fields, format.unit());
        let u = format.unit() as int;
        assert(u * d >= 0) by (nonlinear_arith)
            requires
                u >= 0,
                d >= 0,
        ;
    } else {
        assert(q == format.signed(exact < 0, format.rounded(magnitude(exact) as nat, d)));
        lemma_signed_near(format, exact, d, q);
        lemma_signed_order(format, exact, d, q, fields);
    }
}

/// The number nearest to an integer is near to it, and is the integer itself as
/// long as the fractions suffice.
pub proof fn law_of_int_is_near(format: Format, i: int)
    requires
        format.valid(),
    ensures
        ({
            let v = format.of_int(i);
            let exact = i * pow2(format.scale as nat);
            &&& v < 2 * format.sign
            &&& format.fields(v) <= format.infinity
            &&& format.fields(v) < format.infinity ==> near(format, format.value(v), exact, 1)
            &&& i >= 0 ==> format.value(v) >= 0
            &&& i <= 0 ==> format.value(v) <= 0
            &&& magnitude(i) <= 2 * format.unit() ==> format.fields(v) < format.infinity
                && format.value(v) == exact
        }),
{
    let t = pow2(format.scale as nat) as int;
    let v = format.of_int(i);
    let exact = i * t;
    lemma_even_unit(format);
    lemma_pow2_pos(format.scale as nat);
    assert((-i) * t == -(i * t) && (i >= 0 ==> i * t >= 0) && (i < 0 ==> i * t < 0))
        by (nonlinear_arith)
        requires
            t > 0,
    ;
    assert(v == format.signed(exact < 0, format.rounded(magnitude(exact) as nat, 1)));
    lemma_signed_near(format, exact, 1, v);
    if magnitude(i) <= 2 * format.unit() {
        let m = magnitude(i) as nat;
        let fields = lemma_integer_fields(format, m);
        assert(magnitude(exact) == m * t);
        law_exact_is_kept(format, fields);
    }
}

/// The encoding of an integer that the fractions suffice for.
proof fn lemma_integer_fields(format: Format, m: nat) -> (fields: nat)
    requires
        format.valid(),
        m <= 2 * format.unit(),
    ensures
        fields < format.infinity,
        format.number(fields) == m * pow2(format.scale as nat),
{
    let u = format.unit();
    let scale = format.scale as nat;
    lemma_even_unit(format);
    if m == 0 {
        lemma_multiple_zero(0, u);
        assert(0 * pow2(scale) == 0) by (nonlinear_arith);
        0
    } else {
        lemma_scaled_fields(format, m, scale)
    }
}

/// The encoding of an integer times a power of two.
pub proof fn lemma_scaled_fields(format: Format, m: nat, exp: nat) -> (fields: nat)
    requires
        format.valid(),
        0 < m <= 2 * format.unit(),
        (exp + 2) * format.unit() < format.infinity,
    ensures
        fields < format.infinity,
        format.number(fields) == m * pow2(exp),
    decreases exp,
{
    let u = format.unit();
    lemma_even_unit(format);
    if m >= u || exp == 0 {
        lemma_multiple_of(exp, m, u);
        let fields = exp * u + m;
        assert((exp + 2) * u == exp * u + 2 * u) by (nonlinear_arith);
        fields
    } else {
        lemma_pow2_pos(exp);
        vstd::arithmetic::power2::lemma2_to64();
        lemma_pow2_adds((exp - 1) as nat, 1);
        let (p, q) = (pow2((exp - 1) as nat), pow2(exp));
        assert(m * q == (2 * m) * p) by (nonlinear_arith)
            requires
                q == p * 2,
        ;
        assert((exp - 1 + 2) * u <= (exp + 2) * u) by (nonlinear_arith);
        lemma_scaled_fields(format, 2 * m, (exp - 1) as nat)
    }
}

/// A finite sum has finite terms, and a finite product finite factors.
pub proof fn law_finite_results_have_finite_operands(format: Format, a: nat, b: nat)
    requires
        format.valid(),
        a < 2 * format.sign,
        b < 2 * format.sign,
    ensures
        format.fields(format.sum(a, b)) < format.infinity ==> format.fields(a) < format.infinity
            && format.fields(b) < format.infinity,
        format.fields(format.product(a, b)) < format.infinity ==> format.fields(a)
            < format.infinity && format.fields(b) < format.infinity,
{
    lemma_even_unit(format);
    lemma_parts(format, a);
    lemma_parts(format, b);
    let nan = format.no_number();
    if format == single() {
        assert(nan % 0x8000_0000 == nan);
        assert(0xff80_0000nat % 0x8000_0000 == 0x7f80_0000);
        assert(0x7f80_0000nat % 0x8000_0000 == 0x7f80_0000);
    } else {
        assert(nan % 0x8000_0000_0000_0000 == nan);
        assert(0xfff0_0000_0000_0000nat % 0x8000_0000_0000_0000 == 0x7ff0_0000_0000_0000);
        assert(0x7ff0_0000_0000_0000nat % 0x8000_0000_0000_0000 == 0x7ff0_0000_0000_0000);
    }
}

// ---------------------------------------------------------------------------
// The operations
// ---------------------------------------------------------------------------

/// The format binary32.
pub fn single_format() -> (format: Format)
    ensures
        format == single(),
{
    Format { fraction_bits: 23, scale: 149, infinity: 0x7f80_0000, sign: 0x8000_0000 }
}

/// The format binary64.
pub fn double_format() -> (format: Format)
    ensures
        format == double(),
{
    Format {
        fraction_bits: 52,
        scale: 1074,
        infinity: 0x7ff0_0000_0000_0000,
        sign: 0x8000_0000_0000_0000,
    }
}

/// The encoding of no number that operations give.
fn no_number(format: Format) -> (bits: u64)
    requires
        format.valid(),
    ensures
        bits == format.no_number(),
        bits < format.sign,
{
    proof {
        lemma_even_unit(format);
    }
    if format.fraction_bits == 23 {
        0x7fc0_0000
    } else {
        0x7ff8_0000_0000_0000
    }
}

/// The encoding with this sign and these fields.
fn signed(format: Format, negative: bool, fields: u64) -> (bits: u64)
    requires
        format.valid(),
        fields < format.sign,
    ensures
        bits == format.signed(negative, fields as nat),
        bits < 2 * format.sign,
{
    if negative {
        format.sign + fields
    } else {
        fields
    }
}

/// The sum.
pub fn sum(format: Format, a: u64, b: u64) -> (bits: u64)
    requires
        format.valid(),
        a < 2 * format.sign,
        b < 2 * format.sign,
    ensures
        bits == format.sum(a as nat, b as nat),
        bits < 2 * format.sign,
{
    let (fa, fb): (u64, u64) = (a % format.sign, b % format.sign);
    let (na, nb): (bool, bool) = (a >= format.sign, b >= format.sign);
    if fa > format.infinity || fb > format.infinity {
        return no_number(format);
    }
    if fa == format.infinity {
        return if fb == format.infinity && na != nb {
            no_number(format)
        } else {
            a
        };
    }
    if fb == format.infinity {
        return b;
    }
    let ghost (va, vb) = (format.number(fa as nat), format.number(fb as nat));
    proof {
        lemma_even_unit(format);
        lemma_multiple_order(fa as nat, fb as nat, format.unit());
        lemma_multiple_order(fb as nat, fa as nat, format.unit());
        lemma_multiple_zero(fa as nat, format.unit());
        lemma_multiple_zero(fb as nat, format.unit());
    }
    if na == nb {
        if fa == 0 && fb == 0 {
            proof {
                lemma_parts(format, a as nat);
            }
            return a;
        }
        let fields: u64 = if fa >= fb {
            add_ordered(format, fa, fb)
        } else {
            add_ordered(format, fb, fa)
        };
        proof {
            lemma_nearest_unique(format, fields as nat, format.rounded(va + vb, 1), va + vb, 1);
        }
        signed(format, na, fields)
    } else if fa == fb {
        0
    } else if fa > fb {
        let fields: u64 = subtract_ordered(format, fa, fb);
        proof {
            let v = (va - vb) as nat;
            lemma_nearest_unique(format, fields as nat, format.rounded(v, 1), v, 1);
        }
        signed(format, na, fields)
    } else {
        let fields: u64 = subtract_ordered(format, fb, fa);
        proof {
            let v = (vb - va) as nat;
            lemma_nearest_unique(format, fields as nat, format.rounded(v, 1), v, 1);
        }
        signed(format, nb, fields)
    }
}

/// The same number with the other sign.
pub fn opposite(format: Format, a: u64) -> (bits: u64)
    requires
        format.valid(),
        a < 2 * format.sign,
    ensures
        bits == format.opposite(a as nat),
        bits < 2 * format.sign,
{
    signed(format, a < format.sign, a % format.sign)
}

/// The product.
pub fn product(format: Format, a: u64, b: u64) -> (bits: u64)
    requires
        format.valid(),
        a < 2 * format.sign,
        b < 2 * format.sign,
    ensures
        bits == format.product(a as nat, b as nat),
        bits < 2 * format.sign,
{
    let (fa, fb): (u64, u64) = (a % format.sign, b % format.sign);
    let negative: bool = (a >= format.sign) != (b >= format.sign);
    if fa > format.infinity || fb > format.infinity {
        return no_number(format);
    }
    if fa == format.infinity || fb == format.infinity {
        return if fa == 0 || fb == 0 {
            no_number(format)
        } else {
            signed(format, negative, format.infinity)
        };
    }
    let fields: u64 = multiply(format, fa, fb);
    proof {
        let num = format.number(fa as nat) * format.number(fb as nat);
        let den = pow2(format.scale as nat);
        lemma_pow2_pos(format.scale as nat);
        lemma_nearest_unique(format, fields as nat, format.rounded(num, den), num, den);
    }
    signed(format, negative, fields)
}

/// The quotient.
pub fn quotient(format: Format, a: u64, b: u64) -> (bits: u64)
    requires
        format.valid(),
        a < 2 * format.sign,
        b < 2 * format.sign,
    ensures
        bits == format.quotient(a as nat, b as nat),
        bits < 2 * format.sign,
{
    let (fa, fb): (u64, u64) = (a % format.sign, b % format.sign);
    let negative: bool = (a >= format.sign) != (b >= format.sign);
    if fa > format.infinity || fb > format.infinity {
        return no_number(format);
    }
    if (fa == 0 && fb == 0) || (fa == format.infinity && fb == format.infinity) {
        return no_number(format);
    }
    if fa == format.infinity || fb == 0 {
        return signed(format, negative, format.infinity);
    }
    if fa == 0 || fb == format.infinity {
        return signed(format, negative, 0);
    }
    let fields: u64 = divide(format, fa, fb);
    proof {
        let num = format.number(fa as nat) * pow2(format.scale as nat);
        let den = format.number(fb as nat);
        lemma_even_unit(format);
        lemma_multiple_zero(fb as nat, format.unit());
        lemma_nearest_unique(format, fields as nat, format.rounded(num, den), num, den);
    }
    signed(format, negative, fields)
}

/// The square root.
pub fn root(format: Format, a: u64) -> (bits: u64)
    requires
        format.valid(),
        a < 2 * format.sign,
    ensures
        bits == format.root(a as nat),
        bits < 2 * format.sign,
{
    let fields: u64 = a % format.sign;
    if fields > format.infinity {
        return no_number(format);
    }
    if fields == 0 {
        return a;
    }
    if a >= format.sign {
        return no_number(format);
    }
    if fields == format.infinity {
        return a;
    }
    let root: u64 = square_root(format, fields);
    proof {
        let n = format.number(fields as nat) * pow2(format.scale as nat);
        lemma_nearest_root_unique(format, root as nat, format.rounded_root(n), n);
    }
    root
}

/// The number nearest to an integer.
pub fn of_int(format: Format, negative: bool, magnitude: u64) -> (bits: u64)
    requires
        format.valid(),
        negative ==> magnitude > 0,
    ensures
        bits == format.of_int(
            if negative {
                -(magnitude as int)
            } else {
                magnitude as int
            },
        ),
        bits < 2 * format.sign,
{
    let fields: u64 = convert(format, magnitude, format.scale);
    proof {
        let num = magnitude as nat * pow2(format.scale as nat);
        lemma_nearest_unique(format, fields as nat, format.rounded(num, 1), num, 1);
    }
    signed(format, negative, fields)
}

} // verus!
