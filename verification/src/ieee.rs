//! Numbers in the interchange formats of IEEE 754.
//!
//! Scores, areas, distances and embeddings are floating-point numbers.  Here they
//! are bit patterns, and their arithmetic is defined by what it computes: every
//! operation gives the number of the format that is nearest to the exact result.
//! The contracts speak of the encoded numbers as whole multiples of the smallest
//! positive number of the format.
use vstd::arithmetic::power2::{lemma_pow2_adds, lemma_pow2_pos, pow2};
use vstd::prelude::*;

use crate::arith::{whole_part, widen_single};
use crate::float;
use crate::float::{
    double_format, law_product_commutes, law_sum_commutes, lemma_parts, lemma_scaled_fields,
    magnitude, of_int, opposite, product, quotient, root, single_format, sum,
};
use crate::rounding::{
    double, lemma_even_unit, lemma_multiple_order, lemma_multiple_zero, single,
};

verus! {

/// A number in the format binary32.
#[derive(Clone, Copy, Debug, PartialEq, Eq, Structural)]
pub struct Binary32 {
    pub bits: u32,
}

/// A number in the format binary64.
#[derive(Clone, Copy, Debug, PartialEq, Eq, Structural)]
pub struct Binary64 {
    pub bits: u64,
}

impl Binary32 {
    /// The exponent and fraction fields.
    pub open spec fn fields(self) -> nat {
        single().fields(self.bits as nat)
    }

    /// Whether the encoding is that of no number.
    pub open spec fn is_nan(self) -> bool {
        single().nan(self.bits as nat)
    }

    /// Whether the encoding is that of a number, and not of infinity.
    pub open spec fn finite(self) -> bool {
        self.fields() < single().infinity
    }

    /// The number, as a multiple of the smallest positive one.
    pub open spec fn value(self) -> int {
        single().value(self.bits as nat)
    }

    /// Both are numbers, and `self` is the smaller.
    pub open spec fn less(self, other: Self) -> bool {
        !self.is_nan() && !other.is_nan() && self.value() < other.value()
    }

    /// Both are numbers, and `self` is no greater.
    pub open spec fn at_most(self, other: Self) -> bool {
        !self.is_nan() && !other.is_nan() && self.value() <= other.value()
    }

    /// The sum.
    pub open spec fn sum(self, other: Self) -> Self {
        Binary32 { bits: single().sum(self.bits as nat, other.bits as nat) as u32 }
    }

    /// The difference.
    pub open spec fn difference(self, other: Self) -> Self {
        Binary32 { bits: single().difference(self.bits as nat, other.bits as nat) as u32 }
    }

    /// The product.
    pub open spec fn product(self, other: Self) -> Self {
        Binary32 { bits: single().product(self.bits as nat, other.bits as nat) as u32 }
    }

    /// The quotient.
    pub open spec fn quotient(self, other: Self) -> Self {
        Binary32 { bits: single().quotient(self.bits as nat, other.bits as nat) as u32 }
    }

    /// Whether the encoding is that of no number.
    pub fn not_a_number(self) -> (yes: bool)
        ensures
            yes == self.is_nan(),
    {
        self.bits % 0x8000_0000 > 0x7f80_0000
    }

    /// Whether both are numbers and `self` is the smaller.
    pub fn is_less(self, other: Self) -> (yes: bool)
        ensures
            yes == self.less(other),
    {
        let a: u32 = self.bits % 0x8000_0000;
        let b: u32 = other.bits % 0x8000_0000;
        proof {
            let unit = single().unit();
            lemma_even_unit(single());
            lemma_multiple_order(a as nat, b as nat, unit);
            lemma_multiple_order(b as nat, a as nat, unit);
            lemma_multiple_zero(a as nat, unit);
            lemma_multiple_zero(b as nat, unit);
        }
        if a > 0x7f80_0000 || b > 0x7f80_0000 {
            false
        } else if self.bits >= 0x8000_0000 {
            if other.bits >= 0x8000_0000 {
                b < a
            } else {
                a > 0 || b > 0
            }
        } else {
            other.bits < 0x8000_0000 && a < b
        }
    }

    /// Whether both are numbers and `self` is no greater.
    pub fn is_at_most(self, other: Self) -> (yes: bool)
        ensures
            yes == self.at_most(other),
    {
        !self.not_a_number() && !other.not_a_number() && !other.is_less(self)
    }

    /// The sum.
    pub fn plus(self, other: Self) -> (result: Self)
        ensures
            result == self.sum(other),
    {
        let bits: u64 = sum(single_format(), self.bits as u64, other.bits as u64);
        Binary32 { bits: bits as u32 }
    }

    /// The difference.
    pub fn minus(self, other: Self) -> (result: Self)
        ensures
            result == self.difference(other),
    {
        let subtrahend: u64 = opposite(single_format(), other.bits as u64);
        let bits: u64 = sum(single_format(), self.bits as u64, subtrahend);
        Binary32 { bits: bits as u32 }
    }

    /// The product.
    pub fn times(self, other: Self) -> (result: Self)
        ensures
            result == self.product(other),
    {
        let bits: u64 = product(single_format(), self.bits as u64, other.bits as u64);
        Binary32 { bits: bits as u32 }
    }

    /// The quotient.
    pub fn over(self, other: Self) -> (result: Self)
        ensures
            result == self.quotient(other),
    {
        let bits: u64 = quotient(single_format(), self.bits as u64, other.bits as u64);
        Binary32 { bits: bits as u32 }
    }
}

impl Binary32 {
    /// The square root.
    pub open spec fn root(self) -> Self {
        Binary32 { bits: single().root(self.bits as nat) as u32 }
    }

    /// The number nearest to an integer.
    pub open spec fn of_int(i: int) -> Self {
        Binary32 { bits: single().of_int(i) as u32 }
    }

    /// The number with the other sign.
    pub open spec fn opposite(self) -> Self {
        Binary32 { bits: single().opposite(self.bits as nat) as u32 }
    }

    /// The greater of two numbers, or the one that is a number.
    pub open spec fn maximum(self, other: Self) -> Self {
        if self.is_nan() || self.less(other) {
            other
        } else {
            self
        }
    }

    /// The whole part, kept within the range of `i32`; zero of no number.
    pub open spec fn whole(self) -> int {
        let w = single().number(self.fields()) / pow2(149);
        if self.is_nan() {
            0
        } else if self.bits >= 0x8000_0000 {
            if w > 0x8000_0000 {
                i32::MIN as int
            } else {
                -w
            }
        } else {
            if w > i32::MAX {
                i32::MAX as int
            } else {
                w as int
            }
        }
    }

    /// The same number in the format binary64.
    pub open spec fn widened(self) -> Binary64 {
        let negative = self.bits >= 0x8000_0000;
        let bits = if self.is_nan() {
            double().no_number()
        } else if self.fields() == 0x7f80_0000 {
            double().signed(negative, double().infinity as nat)
        } else {
            double().signed(negative, wide_fields(self.fields()))
        };
        Binary64 { bits: bits as u64 }
    }

    /// The square root.
    pub fn sqrt(self) -> (result: Self)
        ensures
            result == self.root(),
    {
        let bits: u64 = root(single_format(), self.bits as u64);
        Binary32 { bits: bits as u32 }
    }

    /// The number with the other sign.
    pub fn negate(self) -> (result: Self)
        ensures
            result == self.opposite(),
    {
        let bits: u64 = opposite(single_format(), self.bits as u64);
        Binary32 { bits: bits as u32 }
    }

    /// The number nearest to an integer.
    pub fn from_i32(i: i32) -> (result: Self)
        ensures
            result == Binary32::of_int(i as int),
    {
        let bits: u64 = if i < 0 {
            of_int(single_format(), true, (-(i as i64)) as u64)
        } else {
            of_int(single_format(), false, i as u64)
        };
        Binary32 { bits: bits as u32 }
    }

    /// The number nearest to a count.
    pub fn from_usize(n: usize) -> (result: Self)
        ensures
            result == Binary32::of_int(n as int),
    {
        let bits: u64 = of_int(single_format(), false, n as u64);
        Binary32 { bits: bits as u32 }
    }

    /// The greater of two numbers, or the one that is a number.
    pub fn max(self, other: Self) -> (result: Self)
        ensures
            result == self.maximum(other),
    {
        if self.not_a_number() || self.is_less(other) {
            other
        } else {
            self
        }
    }

    /// The whole part, kept within the range of `i32`; zero of no number.
    pub fn to_i32(self) -> (whole: i32)
        ensures
            whole == self.whole(),
    {
        if self.not_a_number() {
            return 0;
        }
        let w: u64 = whole_part(single_format(), (self.bits % 0x8000_0000) as u64);
        if self.bits >= 0x8000_0000 {
            if w > 0x8000_0000 {
                i32::MIN
            } else {
                (-(w as i64)) as i32
            }
        } else if w > 0x7fff_ffff {
            i32::MAX
        } else {
            w as i32
        }
    }

    /// The same number in the format binary64.
    pub fn widen(self) -> (result: Binary64)
        ensures
            result == self.widened(),
    {
        let fields: u32 = self.bits % 0x8000_0000;
        let wide: u64 = if fields > 0x7f80_0000 {
            proof {
                lemma_even_unit(double());
            }
            return Binary64 { bits: 0x7ff8_0000_0000_0000 };
        } else if fields == 0x7f80_0000 {
            0x7ff0_0000_0000_0000
        } else {
            widen_single(fields as u64)
        };
        proof {
            if fields < 0x7f80_0000 {
                lemma_wide_fields(fields as nat, wide as nat);
            }
        }
        if self.bits >= 0x8000_0000 {
            Binary64 { bits: 0x8000_0000_0000_0000 + wide }
        } else {
            Binary64 { bits: wide }
        }
    }
}

/// The fields in the format binary64 that encode what these do in binary32.
pub open spec fn wide_fields(fields: nat) -> nat {
    choose|wide: nat|
        wide < double().infinity && #[trigger] double().number(wide) == single().number(fields)
            * pow2(925)
}

proof fn lemma_wide_fields(fields: nat, wide: nat)
    requires
        wide < double().infinity,
        double().number(wide) == single().number(fields) * pow2(925),
    ensures
        wide_fields(fields) == wide,
{
    let other = wide_fields(fields);
    lemma_even_unit(double());
    lemma_multiple_order(wide, other, double().unit());
    lemma_multiple_order(other, wide, double().unit());
}

impl Binary64 {
    /// The exponent and fraction fields.
    pub open spec fn fields(self) -> nat {
        double().fields(self.bits as nat)
    }

    /// Whether the encoding is that of no number.
    pub open spec fn is_nan(self) -> bool {
        double().nan(self.bits as nat)
    }

    /// Whether the encoding is that of a number, and not of infinity.
    pub open spec fn finite(self) -> bool {
        self.fields() < double().infinity
    }

    /// The number, as a multiple of the smallest positive one.
    pub open spec fn value(self) -> int {
        double().value(self.bits as nat)
    }

    /// Both are numbers, and `self` is the smaller.
    pub open spec fn less(self, other: Self) -> bool {
        !self.is_nan() && !other.is_nan() && self.value() < other.value()
    }

    /// Both are numbers, and `self` is no greater.
    pub open spec fn at_most(self, other: Self) -> bool {
        !self.is_nan() && !other.is_nan() && self.value() <= other.value()
    }

    /// The sum.
    pub open spec fn sum(self, other: Self) -> Self {
        Binary64 { bits: double().sum(self.bits as nat, other.bits as nat) as u64 }
    }

    /// The difference.
    pub open spec fn difference(self, other: Self) -> Self {
        Binary64 { bits: double().difference(self.bits as nat, other.bits as nat) as u64 }
    }

    /// The product.
    pub open spec fn product(self, other: Self) -> Self {
        Binary64 { bits: double().product(self.bits as nat, other.bits as nat) as u64 }
    }

    /// The quotient.
    pub open spec fn quotient(self, other: Self) -> Self {
        Binary64 { bits: double().quotient(self.bits as nat, other.bits as nat) as u64 }
    }

    /// Whether the encoding is that of no number.
    pub fn not_a_number(self) -> (yes: bool)
        ensures
            yes == self.is_nan(),
    {
        self.bits % 0x8000_0000_0000_0000 > 0x7ff0_0000_0000_0000
    }

    /// Whether both are numbers and `self` is the smaller.
    pub fn is_less(self, other: Self) -> (yes: bool)
        ensures
            yes == self.less(other),
    {
        let a: u64 = self.bits % 0x8000_0000_0000_0000;
        let b: u64 = other.bits % 0x8000_0000_0000_0000;
        proof {
            let unit = double().unit();
            lemma_even_unit(double());
            lemma_multiple_order(a as nat, b as nat, unit);
            lemma_multiple_order(b as nat, a as nat, unit);
            lemma_multiple_zero(a as nat, unit);
            lemma_multiple_zero(b as nat, unit);
        }
        if a > 0x7ff0_0000_0000_0000 || b > 0x7ff0_0000_0000_0000 {
            false
        } else if self.bits >= 0x8000_0000_0000_0000 {
            if other.bits >= 0x8000_0000_0000_0000 {
                b < a
            } else {
                a > 0 || b > 0
            }
        } else {
            other.bits < 0x8000_0000_0000_0000 && a < b
        }
    }

    /// Whether both are numbers and `self` is no greater.
    pub fn is_at_most(self, other: Self) -> (yes: bool)
        ensures
            yes == self.at_most(other),
    {
        !self.not_a_number() && !other.not_a_number() && !other.is_less(self)
    }

    /// The sum.
    pub fn plus(self, other: Self) -> (result: Self)
        ensures
            result == self.sum(other),
    {
        let bits: u64 = sum(double_format(), self.bits as u64, other.bits as u64);
        Binary64 { bits: bits as u64 }
    }

    /// The difference.
    pub fn minus(self, other: Self) -> (result: Self)
        ensures
            result == self.difference(other),
    {
        let subtrahend: u64 = opposite(double_format(), other.bits as u64);
        let bits: u64 = sum(double_format(), self.bits as u64, subtrahend);
        Binary64 { bits: bits as u64 }
    }

    /// The product.
    pub fn times(self, other: Self) -> (result: Self)
        ensures
            result == self.product(other),
    {
        let bits: u64 = product(double_format(), self.bits as u64, other.bits as u64);
        Binary64 { bits: bits as u64 }
    }

    /// The quotient.
    pub fn over(self, other: Self) -> (result: Self)
        ensures
            result == self.quotient(other),
    {
        let bits: u64 = quotient(double_format(), self.bits as u64, other.bits as u64);
        Binary64 { bits: bits as u64 }
    }
}

impl Binary64 {
    /// The number without its sign.
    pub open spec fn magnitude(self) -> Self {
        Binary64 { bits: self.fields() as u64 }
    }

    /// The number nearest to an integer.
    pub open spec fn of_int(i: int) -> Self {
        Binary64 { bits: double().of_int(i) as u64 }
    }

    /// The number nearest to a count.
    pub fn from_u64(n: u64) -> (result: Self)
        ensures
            result == Binary64::of_int(n as int),
    {
        Binary64 { bits: of_int(double_format(), false, n) }
    }

    /// The number without its sign.
    pub fn abs(self) -> (result: Self)
        ensures
            result == self.magnitude(),
    {
        Binary64 { bits: self.bits % 0x8000_0000_0000_0000 }
    }
}

/// Neither sums nor products depend on the order of their operands.
pub proof fn law_operands_commute(a: Binary32, b: Binary32)
    ensures
        a.sum(b) == b.sum(a),
        a.product(b) == b.product(a),
{
    law_sum_commutes(single(), a.bits as nat, b.bits as nat);
    law_product_commutes(single(), a.bits as nat, b.bits as nat);
}

// ---------------------------------------------------------------------------
// What rounding does to single results
// ---------------------------------------------------------------------------

/// `got / per` differs from `exact / per` by no more than half a unit in the
/// last place, and no more than half a smallest number.
pub open spec fn near(got: int, exact: int, per: int) -> bool {
    let most = magnitude(exact) + 0x80_0000 * magnitude(per);
    -most <= 0x100_0000 * (got - exact) <= most
}

proof fn lemma_near(got: int, exact: int, per: int)
    requires
        float::near(single(), got, exact, per),
    ensures
        near(got, exact, per),
{
    lemma_even_unit(single());
    let off = got - exact;
    assert(2 * (0x80_0000 * off) == 0x100_0000 * off);
}

/// The sum of two finite numbers is near to the exact one, on the same side of
/// zero, and no further out than a number that the exact one does not reach
/// beyond.
pub proof fn law_sum_is_near(a: Binary32, b: Binary32, fields: nat)
    requires
        a.finite(),
        b.finite(),
        fields <= 0x7f80_0000,
    ensures
        ({
            let s = a.sum(b);
            let exact = a.value() + b.value();
            &&& s.fields() <= 0x7f80_0000
            &&& s.finite() ==> near(s.value(), exact, 1)
            &&& exact >= 0 ==> s.value() >= 0
            &&& exact <= 0 ==> s.value() <= 0
            &&& magnitude(exact) <= single().number(fields) ==> s.fields() <= fields
            &&& magnitude(exact) >= single().number(fields) ==> s.fields() >= fields
        }),
{
    float::law_sum_is_near(single(), a.bits as nat, b.bits as nat, fields);
    if a.sum(b).finite() {
        lemma_near(a.sum(b).value(), a.value() + b.value(), 1);
    }
}

/// The opposite encodes the opposite number.
pub proof fn law_opposite_is_exact(v: Binary32)
    ensures
        v.opposite().fields() == v.fields(),
        v.opposite().value() == -v.value(),
{
    lemma_parts(single(), v.bits as nat);
    let o = single().opposite(v.bits as nat);
    assert(o % 0x8000_0000 == v.fields());
}

/// The difference of two finite numbers is near to the exact one, on the same
/// side of zero, and no further out than a number that the exact one does not
/// reach beyond.
pub proof fn law_difference_is_near(a: Binary32, b: Binary32, fields: nat)
    requires
        a.finite(),
        b.finite(),
        fields <= 0x7f80_0000,
    ensures
        ({
            let s = a.difference(b);
            let exact = a.value() - b.value();
            &&& s.fields() <= 0x7f80_0000
            &&& s.finite() ==> near(s.value(), exact, 1)
            &&& exact >= 0 ==> s.value() >= 0
            &&& exact <= 0 ==> s.value() <= 0
            &&& magnitude(exact) <= single().number(fields) ==> s.fields() <= fields
            &&& magnitude(exact) >= single().number(fields) ==> s.fields() >= fields
        }),
{
    law_opposite_is_exact(b);
    lemma_parts(single(), b.bits as nat);
    assert(a.difference(b) == a.sum(b.opposite()));
    law_sum_is_near(a, b.opposite(), fields);
}

/// The product of two finite numbers is near to the exact one, on the same side
/// of zero, and no further out than a number that the exact one does not reach
/// beyond.
pub proof fn law_product_is_near(a: Binary32, b: Binary32, fields: nat)
    requires
        a.finite(),
        b.finite(),
        fields <= 0x7f80_0000,
    ensures
        ({
            let p = a.product(b);
            let exact = a.value() * b.value();
            let t = pow2(149) as int;
            &&& p.fields() <= 0x7f80_0000
            &&& p.finite() ==> near(p.value() * t, exact, t)
            &&& exact >= 0 ==> p.value() >= 0
            &&& exact <= 0 ==> p.value() <= 0
            &&& magnitude(exact) <= single().number(fields) * t ==> p.fields() <= fields
            &&& magnitude(exact) >= single().number(fields) * t ==> p.fields() >= fields
        }),
{
    float::law_product_is_near(single(), a.bits as nat, b.bits as nat, fields);
    if a.product(b).finite() {
        let t = pow2(149) as int;
        lemma_near(a.product(b).value() * t, a.value() * b.value(), t);
    }
}

/// The quotient of finite numbers by one above zero is near to the exact one, on
/// the same side of zero, and no further out than a number that the exact one
/// does not reach beyond.
pub proof fn law_quotient_is_near(a: Binary32, b: Binary32, fields: nat)
    requires
        a.finite(),
        b.finite(),
        b.value() > 0,
        fields <= 0x7f80_0000,
    ensures
        ({
            let q = a.quotient(b);
            let exact = a.value() * pow2(149);
            let d = b.value();
            &&& q.fields() <= 0x7f80_0000
            &&& q.finite() ==> near(q.value() * d, exact, d)
            &&& exact >= 0 ==> q.value() >= 0
            &&& exact <= 0 ==> q.value() <= 0
            &&& magnitude(exact) <= single().number(fields) * d ==> q.fields() <= fields
            &&& magnitude(exact) >= single().number(fields) * d ==> q.fields() >= fields
        }),
{
    lemma_even_unit(single());
    lemma_multiple_zero(b.fields(), single().unit());
    float::law_quotient_is_near(single(), a.bits as nat, b.bits as nat, fields);
    if a.quotient(b).finite() {
        lemma_near(a.quotient(b).value() * b.value(), a.value() * pow2(149), b.value());
    }
}

/// The number nearest to an integer is near to it, and up to 2^24 the integer
/// itself.
pub proof fn law_of_int_is_near(i: int)
    ensures
        ({
            let v = Binary32::of_int(i);
            let exact = i * pow2(149);
            &&& v.fields() <= 0x7f80_0000
            &&& v.finite() ==> near(v.value(), exact, 1)
            &&& i >= 0 ==> v.value() >= 0
            &&& i <= 0 ==> v.value() <= 0
            &&& magnitude(i) <= 0x100_0000 ==> v.finite() && v.value() == exact
        }),
{
    lemma_even_unit(single());
    float::law_of_int_is_near(single(), i);
    let v = Binary32::of_int(i);
    if v.finite() {
        lemma_near(v.value(), i * pow2(149), 1);
    }
}

/// A finite sum has finite terms, and a finite product finite factors.
pub proof fn law_finite_results_have_finite_operands(a: Binary32, b: Binary32)
    ensures
        a.sum(b).finite() ==> a.finite() && b.finite(),
        a.product(b).finite() ==> a.finite() && b.finite(),
{
    let (x, y) = (a.bits as nat, b.bits as nat);
    float::law_finite_results_have_finite_operands(single(), x, y);
    lemma_even_unit(single());
    lemma_parts(single(), x);
    lemma_parts(single(), y);
    if a.finite() && b.finite() {
        float::law_sum_is_near(single(), x, y, 0);
        float::law_product_is_near(single(), x, y, 0);
    }
}

/// The number in the format binary64 is the same number.
pub proof fn law_widening_is_exact(v: Binary32)
    ensures
        v.finite() <==> v.widened().finite(),
        v.finite() ==> v.widened().value() == v.value() * pow2(925),
        v.is_nan() <==> v.widened().is_nan(),
{
    let f = v.fields();
    let n = single().number(f);
    lemma_even_unit(single());
    lemma_even_unit(double());
    lemma_parts(single(), v.bits as nat);
    if v.is_nan() {
        let w = double().no_number();
        assert(w % 0x8000_0000_0000_0000 == w);
    } else if f == 0x7f80_0000 {
        assert(0x7ff0_0000_0000_0000nat % 0x8000_0000_0000_0000 == 0x7ff0_0000_0000_0000);
        assert(0xfff0_0000_0000_0000nat % 0x8000_0000_0000_0000 == 0x7ff0_0000_0000_0000);
    } else {
        let wide = lemma_wide_exists(f);
        lemma_wide_fields(f, wide);
        let bits = double().signed(v.bits >= 0x8000_0000, wide);
        assert(bits % 0x8000_0000_0000_0000 == wide);
        let p = pow2(925) as int;
        assert((-(n as int)) * p == -(n * p)) by (nonlinear_arith);
    }
}

proof fn lemma_wide_exists(fields: nat) -> (wide: nat)
    requires
        fields < 0x7f80_0000,
    ensures
        wide < double().infinity,
        double().number(wide) == single().number(fields) * pow2(925),
{
    lemma_even_unit(single());
    lemma_even_unit(double());
    if fields == 0 {
        lemma_multiple_zero(0, double().unit());
        lemma_multiple_zero(0, single().unit());
        assert(0 * pow2(925) == 0) by (nonlinear_arith);
        0
    } else {
        let (m, e) = if fields < 0x80_0000 {
            (fields, 0nat)
        } else {
            (0x80_0000 + fields % 0x80_0000, (fields / 0x80_0000 - 1) as nat)
        };
        vstd::arithmetic::power2::lemma2_to64();
        assert(single().number(fields) == m * pow2(e)) by {
            if fields < 0x80_0000 {
                assert(m * 1 == m);
            } else {
                assert(single().unit() + fields % single().unit() == m);
            }
        }
        lemma_pow2_adds(e, 925);
        let (p, q, r) = (pow2(e), pow2(925), pow2(e + 925));
        assert((m * p) * q == m * r) by (nonlinear_arith)
            requires
                r == p * q,
        ;
        lemma_scaled_fields(double(), m, e + 925)
    }
}

/// The whole part of a number within the range of `i32` is the number without
/// what is behind the point.
pub proof fn law_whole_is_within_one(v: Binary32)
    requires
        !v.is_nan(),
        -0x8000_0000 * pow2(149) <= v.value() < 0x8000_0000 * pow2(149),
    ensures
        ({
            let t = pow2(149) as int;
            &&& v.value() >= 0 ==> v.whole() >= 0 && v.whole() * t <= v.value() < (v.whole() + 1) * t
            &&& v.value() <= 0 ==> v.whole() <= 0 && (v.whole() - 1) * t < v.value() <= v.whole() * t
        }),
{
    let t = pow2(149) as int;
    let n = single().number(v.fields()) as int;
    lemma_pow2_pos(149);
    let w = n / t;
    assert(w * t <= n < (w + 1) * t && w >= 0) by (nonlinear_arith)
        requires
            w == n / t,
            t > 0,
            n >= 0,
    ;
    assert((-w) * t == -(w * t) && (-w - 1) * t == -((w + 1) * t)) by (nonlinear_arith);
    assert(n <= 0x8000_0000 * t ==> w <= 0x8000_0000) by (nonlinear_arith)
        requires
            w * t <= n,
            t > 0,
    ;
    assert(n < 0x8000_0000 * t ==> w < 0x8000_0000) by (nonlinear_arith)
        requires
            w * t <= n,
            t > 0,
    ;
    if n == 0 {
        assert(w == 0) by (nonlinear_arith)
            requires
                w * t <= n,
                n == 0,
                w >= 0,
                t > 0,
        ;
    }
}

// ---------------------------------------------------------------------------
// What rounding does to double results
// ---------------------------------------------------------------------------

/// `got / per` differs from `exact / per` by no more than half a unit in the
/// last place of the format binary64, and no more than half a smallest number.
pub open spec fn double_near(got: int, exact: int, per: int) -> bool {
    let most = magnitude(exact) + 0x10_0000_0000_0000 * magnitude(per);
    -most <= 0x20_0000_0000_0000 * (got - exact) <= most
}

proof fn lemma_double_near(got: int, exact: int, per: int)
    requires
        float::near(double(), got, exact, per),
    ensures
        double_near(got, exact, per),
{
    lemma_even_unit(double());
    let off = got - exact;
    assert(2 * (0x10_0000_0000_0000 * off) == 0x20_0000_0000_0000 * off);
}

/// The sum of two finite numbers is near to the exact one, and no further out
/// than a number that the exact one does not reach beyond.
pub proof fn law_double_sum_is_near(a: Binary64, b: Binary64, fields: nat)
    requires
        a.finite(),
        b.finite(),
        fields <= double().infinity,
    ensures
        ({
            let s = a.sum(b);
            let exact = a.value() + b.value();
            &&& s.fields() <= double().infinity
            &&& s.finite() ==> double_near(s.value(), exact, 1)
            &&& magnitude(exact) <= double().number(fields) ==> s.fields() <= fields
            &&& magnitude(exact) >= double().number(fields) ==> s.fields() >= fields
        }),
{
    float::law_sum_is_near(double(), a.bits as nat, b.bits as nat, fields);
    if a.sum(b).finite() {
        lemma_double_near(a.sum(b).value(), a.value() + b.value(), 1);
    }
}

/// The difference of two finite numbers is near to the exact one, and no further
/// out than a number that the exact one does not reach beyond.
pub proof fn law_double_difference_is_near(a: Binary64, b: Binary64, fields: nat)
    requires
        a.finite(),
        b.finite(),
        fields <= double().infinity,
    ensures
        ({
            let s = a.difference(b);
            let exact = a.value() - b.value();
            &&& s.fields() <= double().infinity
            &&& s.finite() ==> double_near(s.value(), exact, 1)
            &&& magnitude(exact) <= double().number(fields) ==> s.fields() <= fields
            &&& magnitude(exact) >= double().number(fields) ==> s.fields() >= fields
        }),
{
    let bits = double().opposite(b.bits as nat);
    lemma_parts(double(), b.bits as nat);
    assert(bits % 0x8000_0000_0000_0000 == b.fields());
    float::law_sum_is_near(double(), a.bits as nat, bits, fields);
    if a.difference(b).finite() {
        lemma_double_near(a.difference(b).value(), a.value() - b.value(), 1);
    }
}

/// The product of two finite numbers is near to the exact one.
pub proof fn law_double_product_is_near(a: Binary64, b: Binary64)
    requires
        a.finite(),
        b.finite(),
    ensures
        ({
            let p = a.product(b);
            let t = pow2(1074) as int;
            p.finite() ==> double_near(p.value() * t, a.value() * b.value(), t)
        }),
{
    float::law_product_is_near(double(), a.bits as nat, b.bits as nat, 0);
    if a.product(b).finite() {
        let t = pow2(1074) as int;
        lemma_double_near(a.product(b).value() * t, a.value() * b.value(), t);
    }
}

/// The quotient of finite numbers by one above zero is near to the exact one.
pub proof fn law_double_quotient_is_near(a: Binary64, b: Binary64)
    requires
        a.finite(),
        b.finite(),
        b.value() > 0,
    ensures
        a.quotient(b).finite() ==> double_near(
            a.quotient(b).value() * b.value(),
            a.value() * pow2(1074),
            b.value(),
        ),
{
    lemma_even_unit(double());
    lemma_multiple_zero(b.fields(), double().unit());
    float::law_quotient_is_near(double(), a.bits as nat, b.bits as nat, 0);
    if a.quotient(b).finite() {
        lemma_double_near(
            a.quotient(b).value() * b.value(),
            a.value() * pow2(1074),
            b.value(),
        );
    }
}

/// A finite sum has finite terms, and a finite product finite factors.
pub proof fn law_finite_doubles_have_finite_operands(a: Binary64, b: Binary64)
    ensures
        a.sum(b).finite() ==> a.finite() && b.finite(),
        a.product(b).finite() ==> a.finite() && b.finite(),
{
    let (x, y) = (a.bits as nat, b.bits as nat);
    float::law_finite_results_have_finite_operands(double(), x, y);
    lemma_even_unit(double());
    lemma_parts(double(), x);
    lemma_parts(double(), y);
    if a.finite() && b.finite() {
        float::law_sum_is_near(double(), x, y, 0);
        float::law_product_is_near(double(), x, y, 0);
    }
}

/// The greater of two numbers is one of them, and no smaller than either; of a
/// number and no number it is the number.
pub proof fn law_maximum_is_the_greater(a: Binary32, b: Binary32)
    ensures
        a.maximum(b) == a || a.maximum(b) == b,
        !a.is_nan() && !b.is_nan() ==> a.maximum(b).value() >= a.value() && a.maximum(b).value()
            >= b.value(),
        a.is_nan() ==> a.maximum(b) == b,
        !a.is_nan() && b.is_nan() ==> a.maximum(b) == a,
{
}

} // verus!
