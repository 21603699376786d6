//! Floating-point numbers as decimal texts: written with a fixed number of
//! digits behind the point, and read from literals.
use vstd::arithmetic::power2::{lemma_pow2_adds, lemma_pow2_pos, lemma_pow2_strictly_increases, pow2};
use vstd::prelude::*;

use crate::arith::split;
use crate::big::{ten_to, Big, Sides};
use crate::float::{double_format, lemma_parts, single_format};
use crate::ieee::{Binary32, Binary64};
use crate::literal::{
    digits, exponent, float_literal, lemma_number_split, number, skip_digits, skip_sign,
    without_sign,
};
use crate::rounding::{
    above, double, law_nearest_exists, lemma_even_unit, lemma_multiple_of, lemma_multiple_order,
    lemma_nearest_unique, power, single, Format,
};
use crate::text::{
    ascii_lower, ascii_lower_text, decimal, decimal3, digit, digit_char, push_decimal, spells,
};

verus! {

// ---------------------------------------------------------------------------
// Writing
// ---------------------------------------------------------------------------

/// The whole number nearest to `num / den`; halfway between two, the even one.
pub open spec fn nearest_whole(num: nat, den: nat) -> nat {
    let (q, r) = (num / den, num % den);
    if 2 * r > den || (2 * r == den && q % 2 == 1) {
        q + 1
    } else {
        q
    }
}

/// The number in units of the last of `digits` digits behind the point, to the
/// nearest.
pub open spec fn fixed_units(format: Format, fields: nat, digits: nat) -> nat {
    nearest_whole(format.number(fields) * ten_to(digits), pow2(format.scale as nat))
}

/// The last `digits` digits of a number, with zeros in front.
pub open spec fn last_digits(n: nat, digits: nat) -> Seq<char>
    decreases digits,
{
    if digits == 0 {
        Seq::empty()
    } else {
        last_digits(n / 10, (digits - 1) as nat).push(digit_char(n % 10))
    }
}

/// A number in units of the last of `digits` digits behind the point.
pub open spec fn fixed_digits(units: nat, digits: nat) -> Seq<char> {
    let whole = decimal(units / ten_to(digits));
    if digits == 0 {
        whole
    } else {
        whole + seq!['.'] + last_digits(units % ten_to(digits), digits)
    }
}

/// The text of a number with `digits` digits behind the point.
pub open spec fn fixed_text(format: Format, bits: nat, digits: nat) -> Seq<char> {
    let fields = format.fields(bits);
    let sign = if format.negative(bits) {
        seq!['-']
    } else {
        Seq::empty()
    };
    if format.nan(bits) {
        "NaN"@
    } else if fields == format.infinity {
        sign + "inf"@
    } else {
        sign + fixed_digits(fixed_units(format, fields, digits), digits)
    }
}

proof fn lemma_nearest_whole_scaled(num: nat, den: nat, k: nat)
    requires
        den > 0,
        k > 0,
    ensures
        nearest_whole(num * k, den * k) == nearest_whole(num, den),
{
    let (q, r) = (num / den, num % den);
    assert(num * k == q * (den * k) + r * k && r * k < den * k) by (nonlinear_arith)
        requires
            q == num / den,
            r == num % den,
            den > 0,
            k > 0,
    ;
    vstd::arithmetic::div_mod::lemma_fundamental_div_mod_converse(
        (num * k) as int,
        (den * k) as int,
        q as int,
        (r * k) as int,
    );
    if 2 * r > den {
        assert(2 * (r * k) > den * k) by (nonlinear_arith)
            requires
                2 * r > den,
                k > 0,
        ;
    } else if 2 * r < den {
        assert(2 * (r * k) < den * k) by (nonlinear_arith)
            requires
                2 * r < den,
                k > 0,
        ;
    } else {
        assert(2 * (r * k) == den * k) by (nonlinear_arith)
            requires
                2 * r == den,
        ;
    }
}

/// The whole number nearest to `num` divided by two to the `t`.
fn halve(num: u128, t: u32) -> (n: u128)
    requires
        num < 0x4000_0000_0000_0000_0000_0000_0000_0000,
    ensures
        n == nearest_whole(num as nat, pow2(t as nat)),
        n <= num,
{
    proof {
        crate::rounding::lemma_pow2_127();
        lemma_pow2_pos(t as nat);
        vstd::arithmetic::power2::lemma2_to64();
    }
    if t == 0 {
        return num;
    }
    if t > 127 {
        proof {
            lemma_pow2_strictly_increases(127, t as nat);
            let (n, p) = (num as nat, pow2(t as nat));
            assert(n / p == 0 && n % p == n) by (nonlinear_arith)
                requires
                    n < p,
            ;
        }
        return 0;
    }
    let p: u128 = power(t);
    let q: u128 = num / p;
    let r: u128 = num % p;
    proof {
        lemma_pow2_strictly_increases(0, t as nat);
        let (n, pp, qq) = (num as nat, p as nat, q as nat);
        assert(2 * qq <= n) by (nonlinear_arith)
            requires
                qq == n / pp,
                pp >= 2,
        ;
        if t < 127 {
            lemma_pow2_strictly_increases(t as nat, 127);
        }
    }
    // `p - r` is what is missing to the next whole number.
    if r > p - r || (r == p - r && q % 2 == 1) {
        proof {
            let (n, pp, rr) = (num as nat, p as nat, r as nat);
            assert(rr <= n) by (nonlinear_arith)
                requires
                    rr == n % pp,
                    pp > 0,
            ;
        }
        q + 1
    } else {
        q
    }
}

/// Appends the last `digits` digits of a number, with zeros in front.
fn push_last_digits(out: &mut String, n: u64, digits: u32)
    ensures
        final(out)@ == old(out)@ + last_digits(n as nat, digits as nat),
    decreases digits,
{
    let ghost start = out@;
    if digits > 0 {
        push_last_digits(out, n / 10, digits - 1);
        out.push((48u8 + (n % 10) as u8) as char);
    }
    assert(out@ =~= start + last_digits(n as nat, digits as nat));
}

/// Ten to the `k`, for few digits.
fn small_ten(k: u32) -> (p: u64)
    requires
        k <= 6,
    ensures
        p == ten_to(k as nat),
        1 <= p <= 1_000_000,
{
    reveal_with_fuel(ten_to, 7);
    if k == 0 {
        1
    } else if k == 1 {
        10
    } else if k == 2 {
        100
    } else if k == 3 {
        1_000
    } else if k == 4 {
        10_000
    } else if k == 5 {
        100_000
    } else {
        1_000_000
    }
}

/// Appends a finite number without its sign, with `digits` digits behind the
/// point.
fn push_fixed_digits(out: &mut String, format: Format, fields: u64, digits: u32)
    requires
        format.valid(),
        fields < format.infinity,
        digits <= 6,
    ensures
        final(out)@ == old(out)@ + fixed_digits(
            fixed_units(format, fields as nat, digits as nat),
            digits as nat,
        ),
{
    let ghost start = out@;
    let (m, e) = split(format, fields);
    let unit: u64 = small_ten(digits);
    let ghost units = fixed_units(format, fields as nat, digits as nat);
    let ghost (mm, ten, pe, ps) = (
        m as nat,
        unit as nat,
        pow2(e as nat),
        pow2(format.scale as nat),
    );
    proof {
        lemma_even_unit(format);
        lemma_pow2_pos(e as nat);
        lemma_pow2_pos(format.scale as nat);
    }
    let rest: u64 = if e >= format.scale {
        let whole: Big = Big::from_u64(m).doubled(e - format.scale);
        whole.push_decimal(out);
        proof {
            let w = whole@;
            lemma_pow2_adds((e - format.scale) as nat, format.scale as nat);
            let k = pow2((e - format.scale) as nat);
            assert(mm * pe * ten == (w * ten) * ps) by (nonlinear_arith)
                requires
                    pe == k * ps,
                    w == mm * k,
            ;
            let n = w * ten;
            assert((n * ps) / ps == n && (n * ps) % ps == 0) by (nonlinear_arith)
                requires
                    ps > 0,
            ;
            assert(units == n);
            assert(n / ten == w && n % ten == 0) by (nonlinear_arith)
                requires
                    n == w * ten,
                    ten > 0,
            ;
        }
        0
    } else {
        assert(mm * ten <= 0x20_0000_0000_0000 * 1_000_000) by (nonlinear_arith)
            requires
                mm <= 0x20_0000_0000_0000,
                ten <= 1_000_000,
        ;
        let t: u32 = format.scale - e;
        let n: u128 = halve(m as u128 * unit as u128, t);
        proof {
            lemma_pow2_adds(t as nat, e as nat);
            lemma_pow2_pos(t as nat);
            assert(mm * pe * ten == (mm * ten) * pe) by (nonlinear_arith);
            lemma_nearest_whole_scaled(mm * ten, pow2(t as nat), pe);
            assert(units == n);
            let (nn, w) = (n as nat, n as nat / ten);
            assert(w <= mm) by (nonlinear_arith)
                requires
                    nn <= mm * ten,
                    w == nn / ten,
                    ten > 0,
            ;
            assert(nn % ten < ten) by (nonlinear_arith)
                requires
                    ten > 0,
            ;
        }
        push_decimal(out, (n / unit as u128) as u64);
        (n % unit as u128) as u64
    };
    let ghost whole = out@;
    if digits > 0 {
        out.push('.');
        push_last_digits(out, rest, digits);
    }
    assert(out@ =~= start + fixed_digits(units, digits as nat));
}

/// Appends a number with `digits` digits behind the point.
pub fn push_fixed(out: &mut String, format: Format, bits: u64, digits: u32)
    requires
        format.valid(),
        bits < 2 * format.sign,
        digits <= 6,
    ensures
        final(out)@ == old(out)@ + fixed_text(format, bits as nat, digits as nat),
{
    let ghost start = out@;
    let fields: u64 = bits % format.sign;
    if fields > format.infinity {
        out.append("NaN");
        return ;
    }
    if bits >= format.sign {
        out.push('-');
    }
    if fields == format.infinity {
        out.append("inf");
    } else {
        push_fixed_digits(out, format, fields, digits);
    }
    assert(out@ =~= start + fixed_text(format, bits as nat, digits as nat));
}

/// The text of a number in the format binary32 with `digits` digits behind the
/// point.
pub open spec fn single_text(v: Binary32, digits: nat) -> Seq<char> {
    fixed_text(single(), v.bits as nat, digits)
}

/// The text of a number in the format binary64 with `digits` digits behind the
/// point.
pub open spec fn double_text(v: Binary64, digits: nat) -> Seq<char> {
    fixed_text(double(), v.bits as nat, digits)
}

/// Appends a number in the format binary32 with `digits` digits behind the
/// point.
pub fn push_single(out: &mut String, v: Binary32, digits: u32)
    requires
        digits <= 6,
    ensures
        final(out)@ == old(out)@ + single_text(v, digits as nat),
{
    push_fixed(out, single_format(), v.bits as u64, digits);
}

/// Appends a number in the format binary64 with `digits` digits behind the
/// point.
pub fn push_double(out: &mut String, v: Binary64, digits: u32)
    requires
        digits <= 6,
    ensures
        final(out)@ == old(out)@ + double_text(v, digits as nat),
{
    push_fixed(out, double_format(), v.bits, digits);
}

// ---------------------------------------------------------------------------
// Reading
// ---------------------------------------------------------------------------

/// The number that decimal digits stand for.
pub open spec fn digits_value(s: Seq<char>) -> nat
    decreases s.len(),
{
    if s.len() == 0 {
        0
    } else {
        10 * digits_value(s.drop_last()) + (s.last() as nat - 48) as nat
    }
}

/// The first place from `from` on that holds no digit.
pub open spec fn digits_end(s: Seq<char>, from: int) -> int
    decreases s.len() - from,
{
    if 0 <= from < s.len() && digit(s[from]) {
        digits_end(s, from + 1)
    } else {
        from
    }
}

/// Where the digits before the point end.
pub open spec fn whole_end(s: Seq<char>) -> int {
    digits_end(s, 0)
}

/// Where the digits behind the point end, or those before it if there is none.
pub open spec fn mantissa_end(s: Seq<char>) -> int {
    let w = whole_end(s);
    if w < s.len() && s[w] == '.' {
        digits_end(s, w + 1)
    } else {
        w
    }
}

/// The digits behind the point.
pub open spec fn fraction(s: Seq<char>) -> Seq<char> {
    let (w, m) = (whole_end(s), mantissa_end(s));
    if m > w {
        s.subrange(w + 1, m)
    } else {
        Seq::empty()
    }
}

/// All digits before the exponent.
pub open spec fn mantissa_digits(s: Seq<char>) -> Seq<char> {
    s.subrange(0, whole_end(s)) + fraction(s)
}

/// What stands behind the mantissa.
pub open spec fn behind_mantissa(s: Seq<char>) -> Seq<char> {
    s.subrange(mantissa_end(s), s.len() as int)
}

/// The exponent that a letter and its digits stand for, zero if there is none.
pub open spec fn exponent_value(s: Seq<char>) -> int {
    if s.len() == 0 {
        0
    } else {
        let power = s.subrange(1, s.len() as int);
        let n = digits_value(without_sign(power)) as int;
        if power[0] == '-' {
            -n
        } else {
            n
        }
    }
}

/// The power of ten by which the digits of a number are to be multiplied.
pub open spec fn decimal_exponent(s: Seq<char>) -> int {
    exponent_value(behind_mantissa(s)) - fraction(s).len()
}

/// The number nearest to `n` times ten to the `e`.
pub open spec fn rounded_decimal(format: Format, n: nat, e: int) -> nat {
    let all = n * pow2(format.scale as nat);
    if e >= 0 {
        format.rounded(all * ten_to(e as nat), 1)
    } else {
        format.rounded(all, ten_to((-e) as nat))
    }
}

/// What a literal encodes in a format: the number nearest to the one it spells.
pub open spec fn literal_bits(format: Format, s: Seq<char>) -> nat {
    let negative = s.len() > 0 && s[0] == '-';
    let t = without_sign(s);
    let word = ascii_lower_text(t);
    let fields = if word == "nan"@ {
        format.no_number()
    } else if word == "inf"@ || word == "infinity"@ {
        format.infinity as nat
    } else {
        rounded_decimal(format, digits_value(mantissa_digits(t)), decimal_exponent(t))
    };
    format.signed(negative, fields)
}

/// The number in the format binary32 that a literal spells.
pub open spec fn literal_value(s: Seq<char>) -> Binary32 {
    Binary32 { bits: literal_bits(single(), s) as u32 }
}

proof fn lemma_digits_end(s: Seq<char>, from: int, end: int)
    requires
        0 <= from <= end <= s.len(),
        digits(s.subrange(from, end)),
        end < s.len() ==> !digit(s[end]),
    ensures
        digits_end(s, from) == end,
    decreases end - from,
{
    if from < end {
        assert(s.subrange(from, end)[0] == s[from]);
        assert forall|i: int| 0 <= i < end - from - 1 implies digit(
            #[trigger] s.subrange(from + 1, end)[i],
        ) by {
            assert(s.subrange(from, end)[i + 1] == s[from + 1 + i]);
        }
        lemma_digits_end(s, from + 1, end);
    }
}

proof fn lemma_ten_to(a: nat, b: nat)
    ensures
        ten_to(a + b) == ten_to(a) * ten_to(b),
        ten_to(a) > 0,
        ten_to(a) >= pow2(3 * a),
    decreases a,
{
    vstd::arithmetic::power2::lemma2_to64();
    if a > 0 {
        lemma_ten_to((a - 1) as nat, b);
        let (p, q) = (ten_to((a - 1) as nat), ten_to(b));
        assert(10 * (p * q) == 10 * p * q) by (nonlinear_arith);
        lemma_pow2_adds(3 * (a - 1) as nat, 3);
    } else {
        let q = ten_to(b);
        assert(1 * q == q);
    }
}

proof fn lemma_digits_value(s: Seq<char>)
    requires
        digits(s),
    ensures
        digits_value(s) < ten_to(s.len()),
    decreases s.len(),
{
    if s.len() > 0 {
        let init = s.drop_last();
        assert forall|i: int| 0 <= i < init.len() implies digit(#[trigger] init[i]) by {
            assert(init[i] == s[i]);
        }
        lemma_digits_value(init);
        assert(digit(s[s.len() - 1]));
    }
}

/// The digits from `from` up to `to`, put behind those of `before`.
fn read_digits(chars: &Vec<char>, from: usize, to: usize, before: Big, Ghost(head): Ghost<Seq<char>>) -> (value: Big)
    requires
        from <= to <= chars@.len(),
        digits(chars@.subrange(from as int, to as int)),
        before@ == digits_value(head),
    ensures
        value@ == digits_value(head + chars@.subrange(from as int, to as int)),
{
    let mut value: Big = before;
    assert(head + chars@.subrange(from as int, from as int) =~= head);
    for i in from..to
        invariant
            from <= to <= chars@.len(),
            digits(chars@.subrange(from as int, to as int)),
            value@ == digits_value(head + chars@.subrange(from as int, i as int)),
    {
        let ghost next = head + chars@.subrange(from as int, i + 1);
        assert(digit(chars@.subrange(from as int, to as int)[i - from]));
        assert(next.drop_last() =~= head + chars@.subrange(from as int, i as int));
        assert(next.last() == chars@[i as int]);
        value = value.scaled(10, chars[i] as u32 - 48);
    }
    value
}

/// Greater exponents are not told apart.
pub open spec fn capped(v: int) -> int {
    if v > 0x40_0000_0000_0000_0000 {
        0x40_0000_0000_0000_0000
    } else if v < -0x40_0000_0000_0000_0000 {
        -0x40_0000_0000_0000_0000
    } else {
        v
    }
}

/// The value of the digits from `from` up to `to`, capped.
fn read_power(chars: &Vec<char>, from: usize, to: usize) -> (value: i128)
    requires
        from <= to <= chars@.len(),
        digits(chars@.subrange(from as int, to as int)),
    ensures
        value == capped(digits_value(chars@.subrange(from as int, to as int)) as int),
        value >= 0,
{
    let mut value: i128 = 0;
    for i in from..to
        invariant
            from <= to <= chars@.len(),
            digits(chars@.subrange(from as int, to as int)),
            value == capped(digits_value(chars@.subrange(from as int, i as int)) as int),
            value >= 0,
    {
        let ghost next = chars@.subrange(from as int, i + 1);
        assert(digit(chars@.subrange(from as int, to as int)[i - from]));
        assert(next.drop_last() =~= chars@.subrange(from as int, i as int));
        assert(next.last() == chars@[i as int]);
        let more: i128 = 10 * value + (chars[i] as u32 - 48) as i128;
        value = if more > 0x40_0000_0000_0000_0000 {
            0x40_0000_0000_0000_0000
        } else {
            more
        };
    }
    value
}

/// The exponent that stands from `from` up to `to`, capped.
fn read_exponent(chars: &Vec<char>, from: usize, to: usize) -> (value: i128)
    requires
        from <= to <= chars@.len(),
        exponent(chars@.subrange(from as int, to as int)),
    ensures
        value == capped(exponent_value(chars@.subrange(from as int, to as int))),
{
    if from == to {
        return 0;
    }
    let ghost s = chars@.subrange(from as int, to as int);
    let start: usize = skip_sign(chars, from + 1, to);
    assert(s.subrange(1, s.len() as int) =~= chars@.subrange(from + 1, to as int));
    let v: i128 = read_power(chars, start, to);
    if chars[from + 1] == '-' {
        -v
    } else {
        v
    }
}

/// The digits of a number: their value, their count, how many stand behind the
/// point, and where they end.
struct Mantissa {
    value: Big,
    len: usize,
    behind: usize,
    end: usize,
}

/// Reads the digits of the number that stands from `from` up to `to`.
fn read_mantissa(chars: &Vec<char>, from: usize, to: usize) -> (read: Mantissa)
    requires
        from <= to <= chars@.len(),
        number(chars@.subrange(from as int, to as int)),
    ensures
        ({
            let t = chars@.subrange(from as int, to as int);
            &&& read.value@ == digits_value(mantissa_digits(t))
            &&& read.len == mantissa_digits(t).len()
            &&& digits(mantissa_digits(t))
            &&& read.behind == fraction(t).len()
            &&& from <= read.end <= to
            &&& behind_mantissa(t) == chars@.subrange(read.end as int, to as int)
            &&& exponent(behind_mantissa(t))
        }),
{
    let ghost t = chars@.subrange(from as int, to as int);
    let whole: usize = skip_digits(chars, from, to);
    let ghost d = whole - from;
    let ghost head = t.subrange(0, d);
    assert(head =~= chars@.subrange(from as int, whole as int));
    proof {
        lemma_digits_end(t, 0, d);
    }
    assert(Seq::empty() + head =~= head);
    let value: Big = read_digits(chars, from, whole, Big::from_u32(0), Ghost(Seq::empty()));
    if whole < to && chars[whole] == '.' {
        let end: usize = skip_digits(chars, whole + 1, to);
        let ghost m = end - from;
        assert(t.subrange(d + 1, m) =~= chars@.subrange(whole + 1, end as int));
        proof {
            lemma_digits_end(t, d + 1, m);
            lemma_number_split(t, d, m);
            lemma_both_digits(head, fraction(t));
        }
        assert(t.subrange(m, t.len() as int) =~= chars@.subrange(end as int, to as int));
        let more: Big = read_digits(chars, whole + 1, end, value, Ghost(head));
        Mantissa { value: more, len: end - from - 1, behind: end - whole - 1, end }
    } else {
        proof {
            lemma_number_split(t, d, d);
        }
        assert(head + fraction(t) =~= head);
        assert(t.subrange(d, t.len() as int) =~= chars@.subrange(whole as int, to as int));
        Mantissa { value, len: whole - from, behind: 0, end: whole }
    }
}

proof fn lemma_both_digits(a: Seq<char>, b: Seq<char>)
    requires
        digits(a),
        digits(b),
    ensures
        digits(a + b),
{
    assert forall|i: int| 0 <= i < (a + b).len() implies digit(#[trigger] (a + b)[i]) by {
        if i < a.len() {
            assert((a + b)[i] == a[i]);
        } else {
            assert((a + b)[i] == b[i - a.len()]);
        }
    }
}

/// Between a number of the format binary32 and the next lies their half sum.
proof fn lemma_half_sum(fields: nat, m: nat, e: nat)
    requires
        fields < single().infinity,
        single().number(fields) == m * pow2(e),
        m < 2 * single().unit(),
        e > 0 ==> m >= single().unit(),
        fields == e * single().unit() + m,
    ensures
        single().number(fields) + single().number(fields + 1) == (2 * m + 1) * pow2(e),
{
    let u = single().unit();
    lemma_even_unit(single());
    lemma_multiple_of(e, m + 1, u);
    let p = pow2(e);
    assert(m * p + (m + 1) * p == (2 * m + 1) * p) by (nonlinear_arith);
}

/// The fields of the number nearest to half of `twice / den` smallest numbers.
fn find_nearest(twice: &Big, den: &Big, Ghost(num): Ghost<nat>) -> (fields: u64)
    requires
        twice@ == 2 * num,
        den@ > 0,
    ensures
        single().nearest(fields as nat, num, den@),
{
    let format: Format = single_format();
    let mut low: u64 = 0;
    let mut high: u64 = format.infinity;
    while low < high
        invariant
            format == single(),
            low <= high <= format.infinity,
            twice@ == 2 * num,
            low > 0 ==> ({
                let middle = (format.number((low - 1) as nat) + format.number(low as nat)) * den@;
                middle < 2 * num || (middle == 2 * num && low % 2 == 0)
            }),
            high < format.infinity ==> ({
                let middle = (format.number(high as nat) + format.number((high + 1) as nat)) * den@;
                2 * num < middle || (2 * num == middle && high % 2 == 0)
            }),
        decreases high - low,
    {
        let at: u64 = low + (high - low) / 2;
        let (m, e) = split(format, at);
        proof {
            lemma_even_unit(format);
            lemma_half_sum(at as nat, m as nat, e as nat);
        }
        let middle: Big = den.scaled((2 * m + 1) as u32, 0).doubled(e);
        proof {
            let (d, k, p) = (den@, (2 * m + 1) as nat, pow2(e as nat));
            assert(d * k * p == (k * p) * d) by (nonlinear_arith);
        }
        let up: bool = match middle.beside(twice) {
            Sides::Less => true,
            Sides::Equal => at % 2 == 1,
            Sides::Greater => false,
        };
        if up {
            low = at + 1;
        } else {
            high = at;
        }
    }
    low
}

/// A number below half of the smallest one is rounded to zero.
proof fn lemma_tiny(n: nat, len: nat, e: int)
    requires
        n < ten_to(len),
        len + e < -60,
    ensures
        single().nearest(0, n * pow2(149), ten_to((-e) as nat)),
{
    let d = (-e) as nat;
    let den = ten_to(d);
    lemma_ten_to(len, (d - len) as nat);
    lemma_ten_to((d - len) as nat, 0);
    lemma_ten_to(d, 0);
    lemma_pow2_adds(149, 1);
    lemma_pow2_pos(150);
    vstd::arithmetic::power2::lemma2_to64();
    if 3 * (d - len) > 150 {
        lemma_pow2_strictly_increases(150, (3 * (d - len)) as nat);
    }
    let (a, b) = (ten_to(len), ten_to((d - len) as nat));
    let p = pow2(150);
    assert(n * p < a * b) by (nonlinear_arith)
        requires
            n < a,
            p <= b,
            p > 0,
    ;
    let q = pow2(149);
    assert(2 * (n * q) == n * p) by (nonlinear_arith)
        requires
            p == q * 2,
    ;
    lemma_even_unit(single());
    assert((0 + 1) * den == den) by (nonlinear_arith);
    assert(single().number(0) == 0 && single().number(1) == 1);
}

/// A number far above the greatest is rounded to infinity.
proof fn lemma_huge(n: nat, e: int)
    requires
        n > 0,
        e > 60,
    ensures
        single().nearest(single().infinity as nat, n * pow2(149) * ten_to(e as nat), 1),
{
    let format = single();
    let inf = format.infinity as nat;
    let u = format.unit();
    lemma_even_unit(format);
    lemma_ten_to(e as nat, 0);
    vstd::arithmetic::power2::lemma2_to64();
    assert(inf % 0x80_0000 == 0 && inf / 0x80_0000 == 255);
    assert(format.number(inf) == u * pow2(254)) by {
        let p = pow2(254);
        assert((u + 0) * p == u * p);
    }
    lemma_multiple_order((inf - 1) as nat, inf, u);
    lemma_pow2_adds(23, 254);
    lemma_pow2_adds(149, 150);
    lemma_pow2_strictly_increases(277, 299);
    if 3 * e > 150 {
        lemma_pow2_strictly_increases(150, (3 * e) as nat);
    }
    let (p, t) = (pow2(149), ten_to(e as nat));
    lemma_pow2_pos(149);
    let big = n * p * t;
    let lower = pow2(150);
    assert(big >= p * lower) by (nonlinear_arith)
        requires
            big == n * p * t,
            n >= 1,
            t >= lower,
            p > 0,
    ;
}

/// Nothing is rounded to zero.
proof fn lemma_nothing(num: nat, den: nat, t: nat)
    requires
        num == 0 * pow2(149) || num == 0 * pow2(149) * t,
        den > 0,
    ensures
        single().nearest(0, num, den),
{
    let p = pow2(149);
    assert(0 * p == 0 && 0 * t == 0) by (nonlinear_arith);
    lemma_even_unit(single());
    assert(single().number(0) == 0 && single().number(1) == 1);
    assert((0 + 1) * den > 0) by (nonlinear_arith)
        requires
            den > 0,
    ;
}

/// Far from zero, one exponent is as good as another.
proof fn lemma_far_exponents(n: nat, len: nat, e: int, f: int)
    requires
        n < ten_to(len),
        (e > 60 && f > 60) || (len + e < -60 && len + f < -60),
    ensures
        rounded_decimal(single(), n, e) == rounded_decimal(single(), n, f),
{
    lemma_far_exponent(n, len, e);
    lemma_far_exponent(n, len, f);
}

proof fn lemma_far_exponent(n: nat, len: nat, e: int)
    requires
        n < ten_to(len),
        e > 60 || len + e < -60,
    ensures
        rounded_decimal(single(), n, e) == if n > 0 && e > 60 {
            single().infinity as nat
        } else {
            0
        },
{
    let format = single();
    let all = n * pow2(149);
    if e > 60 {
        let num = all * ten_to(e as nat);
        if n > 0 {
            lemma_huge(n, e);
            lemma_nearest_unique(format, format.infinity as nat, format.rounded(num, 1), num, 1);
        } else {
            lemma_nothing(num, 1, ten_to(e as nat));
            lemma_nearest_unique(format, 0, format.rounded(num, 1), num, 1);
        }
    } else {
        let den = ten_to((-e) as nat);
        lemma_ten_to((-e) as nat, 0);
        lemma_tiny(n, len, e);
        lemma_nearest_unique(format, 0, format.rounded(all, den), all, den);
    }
}

/// The fields of the number nearest to `n` times ten to the `e`, where `n` has
/// at most `len` digits.
fn nearest_decimal(n: &Big, len: usize, e: i128) -> (fields: u64)
    requires
        n@ < ten_to(len as nat),
        -0x80_0000_0000_0000_0000 <= e <= 0x80_0000_0000_0000_0000,
    ensures
        fields == rounded_decimal(single(), n@, e as int),
        fields <= single().infinity,
{
    let ghost all = n@ * pow2(149);
    let ghost (num, den) = if e >= 0 {
        (all * ten_to(e as nat), 1)
    } else {
        (all, ten_to((-e) as nat))
    };
    proof {
        if e < 0 {
            lemma_ten_to((-e) as nat, 0);
        }
    }
    let fields: u64 = match n.beside(&Big::from_u32(0)) {
        Sides::Equal => {
            proof {
                lemma_nothing(num, den, ten_to(above(e as int)));
            }
            0
        },
        _ => {
            if e > 60 {
                proof {
                    lemma_huge(n@, e as int);
                }
                0x7f80_0000
            } else if (len as i128) + e < -60 {
                proof {
                    lemma_tiny(n@, len as nat, e as int);
                }
                0
            } else {
                let (up, down): (u128, u128) = if e >= 0 {
                    (e as u128, 0)
                } else {
                    (0, (-e) as u128)
                };
                let twice: Big = n.tenfold(up).doubled(150);
                let below: Big = Big::from_u32(1).tenfold(down);
                proof {
                    lemma_pow2_adds(149, 1);
                    vstd::arithmetic::power2::lemma2_to64();
                    let (v, t, p, q) = (n@, ten_to(up as nat), pow2(149), pow2(150));
                    assert(v * t * q == 2 * (v * p * t)) by (nonlinear_arith)
                        requires
                            q == p * 2,
                    ;
                    assert(v * p * 1 == v * p);
                    let d = ten_to(down as nat);
                    assert(1 * d == d) by (nonlinear_arith);
                }
                find_nearest(&twice, &below, Ghost(num))
            }
        },
    };
    proof {
        lemma_nearest_unique(single(), fields as nat, single().rounded(num, den), num, den);
    }
    fields
}

/// The fields of the number that the characters from `from` up to `to`, without
/// a sign, spell.
fn read_number(chars: &Vec<char>, from: usize, to: usize) -> (fields: u64)
    requires
        from <= to <= chars@.len(),
        number(chars@.subrange(from as int, to as int)),
    ensures
        fields <= single().infinity,
        ({
            let t = chars@.subrange(from as int, to as int);
            fields == rounded_decimal(
                single(),
                digits_value(mantissa_digits(t)),
                decimal_exponent(t),
            )
        }),
{
    let ghost t = chars@.subrange(from as int, to as int);
    let read: Mantissa = read_mantissa(chars, from, to);
    let e: i128 = read_exponent(chars, read.end, to) - read.behind as i128;
    proof {
        lemma_digits_value(mantissa_digits(t));
    }
    let fields: u64 = nearest_decimal(&read.value, read.len, e);
    proof {
        if decimal_exponent(t) != e {
            lemma_far_exponents(read.value@, read.len as nat, e as int, decimal_exponent(t));
        }
    }
    fields
}

/// The number in the format binary32 that the literal from `from` up to `to`
/// spells.
pub fn read_literal(chars: &Vec<char>, from: usize, to: usize) -> (value: Binary32)
    requires
        from <= to <= chars@.len(),
        float_literal(chars@.subrange(from as int, to as int)),
    ensures
        value == literal_value(chars@.subrange(from as int, to as int)),
{
    let start: usize = skip_sign(chars, from, to);
    let negative: bool = from < to && chars[from] == '-';
    proof {
        lemma_even_unit(single());
        reveal_strlit("nan");
        reveal_strlit("inf");
        reveal_strlit("infinity");
    }
    let fields: u64 = if spells(chars, start, to, "nan") {
        0x7fc0_0000
    } else if spells(chars, start, to, "inf") || spells(chars, start, to, "infinity") {
        0x7f80_0000
    } else {
        read_number(chars, start, to)
    };
    if negative {
        Binary32 { bits: 0x8000_0000 + fields as u32 }
    } else {
        Binary32 { bits: fields as u32 }
    }
}

// ---------------------------------------------------------------------------
// What is read of what was written
// ---------------------------------------------------------------------------

/// The number nearest to what is written of `v` with `places` digits behind
/// the point.
pub open spec fn shortened(v: Binary32, places: nat) -> Binary32 {
    let format = single();
    let bits = v.bits as nat;
    let fields = format.fields(bits);
    if format.nan(bits) {
        Binary32 { bits: format.no_number() as u32 }
    } else if fields == format.infinity {
        v
    } else {
        let units = fixed_units(format, fields, places);
        let near = rounded_decimal(format, units, -(places as int));
        Binary32 { bits: format.signed(format.negative(bits), near) as u32 }
    }
}

proof fn lemma_decimal_digits(n: nat)
    ensures
        digits(decimal(n)),
        decimal(n).len() > 0,
        digits_value(decimal(n)) == n,
    decreases n,
{
    if n < 10 {
        let d = decimal(n);
        assert(d.drop_last() =~= Seq::empty());
        assert(digits_value(Seq::empty()) == 0);
        assert(d.last() == digit_char(n));
    } else {
        lemma_decimal_digits(n / 10);
        let d = decimal(n);
        assert(d.drop_last() =~= decimal(n / 10));
        assert(d.last() == digit_char(n % 10));
        assert forall|i: int| 0 <= i < d.len() implies digit(#[trigger] d[i]) by {
            if i < d.len() - 1 {
                assert(d[i] == decimal(n / 10)[i]);
            }
        }
    }
}

proof fn lemma_last_digits(n: nat, places: nat)
    requires
        n < ten_to(places),
    ensures
        digits(last_digits(n, places)),
        last_digits(n, places).len() == places,
        digits_value(last_digits(n, places)) == n,
    decreases places,
{
    if places > 0 {
        let before = (places - 1) as nat;
        lemma_last_digits(n / 10, before);
        let d = last_digits(n, places);
        assert(d.drop_last() =~= last_digits(n / 10, before));
        assert(d.last() == digit_char(n % 10));
        assert forall|i: int| 0 <= i < d.len() implies digit(#[trigger] d[i]) by {
            if i < d.len() - 1 {
                assert(d[i] == last_digits(n / 10, before)[i]);
            }
        }
    }
}

proof fn lemma_digits_joined(a: Seq<char>, b: Seq<char>)
    ensures
        digits_value(a + b) == digits_value(a) * ten_to(b.len()) + digits_value(b),
    decreases b.len(),
{
    if b.len() == 0 {
        assert(a + b =~= a);
        let v = digits_value(a);
        assert(v * 1 == v);
    } else {
        let init = b.drop_last();
        lemma_digits_joined(a, init);
        assert((a + b).drop_last() =~= a + init);
        assert((a + b).last() == b.last());
        let (v, t) = (digits_value(a), ten_to(init.len()));
        assert(10 * (v * t) == v * (10 * t)) by (nonlinear_arith);
    }
}

/// A number with digits behind the point spells what it was written from.
proof fn lemma_fixed_digits(units: nat, places: nat)
    requires
        places > 0,
    ensures
        ({
            let t = fixed_digits(units, places);
            &&& number(t)
            &&& t.len() > 0
            &&& digit(t[0])
            &&& digits_value(mantissa_digits(t)) == units
            &&& decimal_exponent(t) == -(places as int)
        }),
{
    let t = fixed_digits(units, places);
    let ten = ten_to(places);
    lemma_ten_to(places, 0);
    let (w, f) = (units / ten, units % ten);
    assert(units == w * ten + f && f < ten) by (nonlinear_arith)
        requires
            w == units / ten,
            f == units % ten,
            ten > 0,
    ;
    lemma_decimal_digits(w);
    lemma_last_digits(f, places);
    let (a, b) = (decimal(w), last_digits(f, places));
    let d = a.len() as int;
    let m = t.len() as int;
    assert(t =~= a + seq!['.'] + b);
    assert(t.subrange(0, d) =~= a);
    assert(t.subrange(d + 1, m) =~= b);
    assert(t[d] == '.');
    assert(t[0] == a[0]);
    lemma_digits_end(t, 0, d);
    lemma_digits_end(t, d + 1, m);
    lemma_number_split(t, d, m);
    assert(t.subrange(m, m) =~= Seq::empty());
    assert(fraction(t) =~= b);
    assert(mantissa_digits(t) =~= a + b);
    lemma_digits_joined(a, b);
}

/// What is written of a number with digits behind the point is a literal, and
/// spells the number nearest to it.
pub proof fn lemma_written_is_read(v: Binary32, places: nat)
    requires
        places > 0,
    ensures
        float_literal(fixed_text(single(), v.bits as nat, places)),
        literal_value(fixed_text(single(), v.bits as nat, places)) == shortened(v, places),
{
    let format = single();
    let bits = v.bits as nat;
    let fields = format.fields(bits);
    let s = fixed_text(format, bits, places);
    lemma_even_unit(format);
    lemma_parts(format, bits);
    reveal_strlit("nan");
    reveal_strlit("inf");
    reveal_strlit("infinity");
    reveal_strlit("NaN");
    let t = without_sign(s);
    let word = ascii_lower_text(t);
    if format.nan(bits) {
        assert(s[0] == 'N');
        assert(word =~= "nan"@);
    } else if fields == format.infinity {
        if format.negative(bits) {
            assert(s[0] == '-');
        } else {
            assert(s =~= "inf"@);
            assert(s[0] == 'i');
        }
        assert(t =~= "inf"@);
        assert(word =~= "inf"@);
        assert(word[0] == 'i');
    } else {
        let units = fixed_units(format, fields, places);
        let plain = fixed_digits(units, places);
        lemma_fixed_digits(units, places);
        if format.negative(bits) {
            assert(s[0] == '-');
            assert(t =~= plain);
        } else {
            assert(s =~= plain);
            assert(s[0] == plain[0]);
        }
        assert(t == plain);
        assert(word[0] == ascii_lower(plain[0]));
        assert(word != "nan"@ && word != "inf"@ && word != "infinity"@);
    }
}

// ---------------------------------------------------------------------------
// What numerals stand for
// ---------------------------------------------------------------------------

/// Digits without a zero in front, but for zero itself.
pub open spec fn numeral(s: Seq<char>) -> bool {
    digits(s) && s.len() > 0 && (s.len() > 1 ==> s[0] != '0')
}

/// The decimal numeral of a number is its digits, without zeros in front.
pub proof fn law_decimal_is_the_numeral(n: nat)
    ensures
        numeral(decimal(n)),
        digits_value(decimal(n)) == n,
    decreases n,
{
    lemma_decimal_digits(n);
    if n >= 10 {
        law_decimal_is_the_numeral(n / 10);
        assert(decimal(n)[0] == decimal(n / 10)[0]);
        if n / 10 < 10 {
            assert(decimal(n / 10) =~= seq![digit_char(n / 10)]);
        } else {
            lemma_decimal_longer(n / 10);
        }
    }
}

proof fn lemma_decimal_longer(n: nat)
    requires
        n >= 10,
    ensures
        decimal(n).len() > 1,
{
    lemma_decimal_digits(n / 10);
}

/// With zeros in front up to three digits, the number is the same.
pub proof fn law_decimal3_is_the_number(n: nat)
    ensures
        digits(decimal3(n)),
        digits_value(decimal3(n)) == n,
        decimal3(n).len() >= 3,
        decimal3(n).len() > 3 ==> decimal3(n)[0] != '0',
{
    law_decimal_is_the_numeral(n);
    let d = decimal(n);
    let (one, two) = (seq!['0'], seq!['0', '0']);
    lemma_digits_joined(one, d);
    lemma_digits_joined(two, d);
    assert(one.drop_last() =~= Seq::empty());
    assert(two.drop_last() =~= one);
    assert(digits_value(Seq::<char>::empty()) == 0);
    assert(digits_value(one) == 0);
    assert(digits_value(two) == 0);
    let t = ten_to(d.len());
    assert(0 * t == 0) by (nonlinear_arith);
    assert forall|i: int| 0 <= i < decimal3(n).len() implies digit(#[trigger] decimal3(n)[i]) by {
        let z = decimal3(n).len() - d.len();
        if i >= z {
            assert(decimal3(n)[i] == d[i - z]);
        }
    }
}

/// A number is written as the decimal numeral of so many digits behind the point
/// that is nearest to it, behind its sign: no other is nearer.
pub proof fn law_text_is_the_nearest_numeral(
    format: Format,
    bits: nat,
    places: nat,
) -> (parts: (Seq<char>, Seq<char>))
    requires
        format.valid(),
        bits < 2 * format.sign,
        format.fields(bits) < format.infinity,
    ensures
        ({
            let (whole, behind) = parts;
            let sign = if format.negative(bits) {
                seq!['-']
            } else {
                Seq::<char>::empty()
            };
            let point = if places > 0 {
                seq!['.']
            } else {
                Seq::<char>::empty()
            };
            let one = pow2(format.scale as nat);
            let off = digits_value(whole + behind) * one - format.number(format.fields(bits))
                * ten_to(places);
            &&& fixed_text(format, bits, places) == sign + whole + point + behind
            &&& numeral(whole)
            &&& digits(behind) && behind.len() == places
            &&& -one <= 2 * off <= one
        }),
{
    let one = pow2(format.scale as nat);
    let n = format.number(format.fields(bits));
    let ten = ten_to(places);
    let num = n * ten;
    let units = fixed_units(format, format.fields(bits), places);
    lemma_pow2_pos(format.scale as nat);
    lemma_ten_to(places, 0);
    let (q, r) = (num / one, num % one);
    assert(num == q * one + r && r < one) by (nonlinear_arith)
        requires
            q == num / one,
            r == num % one,
            one > 0,
    ;
    assert((q + 1) * one == q * one + one) by (nonlinear_arith);
    let (w, f) = (units / ten, units % ten);
    assert(units == w * ten + f && f < ten) by (nonlinear_arith)
        requires
            w == units / ten,
            f == units % ten,
            ten > 0,
    ;
    law_decimal_is_the_numeral(w);
    let whole = decimal(w);
    let behind = if places == 0 {
        Seq::empty()
    } else {
        last_digits(f, places)
    };
    if places > 0 {
        lemma_last_digits(f, places);
    } else {
        assert(w == units && f == 0);
        assert(digits_value(Seq::<char>::empty()) == 0);
    }
    lemma_digits_joined(whole, behind);
    let text = fixed_text(format, bits, places);
    let sign = if format.negative(bits) {
        seq!['-']
    } else {
        Seq::<char>::empty()
    };
    if places == 0 {
        assert(text =~= sign + whole + Seq::<char>::empty() + behind);
    } else {
        assert(text =~= sign + whole + seq!['.'] + behind);
    }
    (whole, behind)
}

/// Digits with a point in them are read as the number nearest to what they stand
/// for, of either sign.
pub proof fn law_numeral_is_read_to_the_nearest(whole: Seq<char>, behind: Seq<char>)
    requires
        digits(whole),
        whole.len() > 0,
        digits(behind),
    ensures
        ({
            let text = whole + seq!['.'] + behind;
            let num = digits_value(whole + behind) * pow2(149);
            &&& single().nearest(
                literal_value(text).bits as nat,
                num,
                ten_to(behind.len()),
            )
            &&& literal_value(seq!['-'] + text).bits == 0x8000_0000 + literal_value(text).bits
        }),
{
    let format = single();
    let t = whole + seq!['.'] + behind;
    let d = whole.len() as int;
    let m = t.len() as int;
    assert(t.subrange(0, d) =~= whole);
    assert(t.subrange(d + 1, m) =~= behind);
    assert(t[d] == '.');
    assert(t[0] == whole[0]);
    assert(digit(whole[0]));
    lemma_digits_end(t, 0, d);
    lemma_digits_end(t, d + 1, m);
    assert(fraction(t) =~= behind);
    assert(mantissa_digits(t) =~= whole + behind);
    assert(t.subrange(m, m) =~= Seq::empty());
    assert(decimal_exponent(t) == -(behind.len() as int));
    let word = ascii_lower_text(t);
    reveal_strlit("nan");
    reveal_strlit("inf");
    reveal_strlit("infinity");
    assert(word[0] == ascii_lower(whole[0]));
    assert(word != "nan"@ && word != "inf"@ && word != "infinity"@);
    assert(without_sign(t) == t);
    let all = digits_value(whole + behind) * pow2(149);
    lemma_ten_to(behind.len(), 0);
    law_nearest_exists(format, all, ten_to(behind.len()));
    law_nearest_exists(format, all * 1, 1);
    let f = rounded_decimal(format, digits_value(mantissa_digits(t)), decimal_exponent(t));
    if behind.len() == 0 {
        assert(ten_to(0) == 1);
        assert(all * 1 == all);
    }
    assert(literal_value(t).bits == f);
    let minus = seq!['-'] + t;
    assert(minus[0] == '-');
    assert(without_sign(minus) =~= t);
}

/// An exponent behind a numeral multiplies it by a power of ten.
pub proof fn law_exponent_is_a_power_of_ten(whole: Seq<char>, power: Seq<char>, minus: bool)
    requires
        digits(whole),
        whole.len() > 0,
        digits(power),
        power.len() > 0,
    ensures
        ({
            let text = whole + (if minus {
                seq!['e', '-']
            } else {
                seq!['e']
            }) + power;
            let num = digits_value(whole) * pow2(149);
            let ten = ten_to(digits_value(power));
            &&& minus ==> single().nearest(literal_value(text).bits as nat, num, ten)
            &&& !minus ==> single().nearest(literal_value(text).bits as nat, num * ten, 1)
        }),
{
    let format = single();
    let middle = if minus {
        seq!['e', '-']
    } else {
        seq!['e']
    };
    let t = whole + middle + power;
    let d = whole.len() as int;
    let m = t.len() as int;
    assert(t.subrange(0, d) =~= whole);
    assert(t[d] == 'e');
    assert(t[0] == whole[0]);
    assert(digit(whole[0]));
    lemma_digits_end(t, 0, d);
    assert(fraction(t) =~= Seq::empty());
    assert(mantissa_digits(t) =~= whole);
    let rest = behind_mantissa(t);
    assert(rest =~= middle + power);
    let p = rest.subrange(1, rest.len() as int);
    if minus {
        assert(p =~= seq!['-'] + power);
        assert(p[0] == '-');
    } else {
        assert(p =~= power);
        assert(digit(power[0]));
    }
    assert(without_sign(p) =~= power);
    let word = ascii_lower_text(t);
    reveal_strlit("nan");
    reveal_strlit("inf");
    reveal_strlit("infinity");
    assert(word[0] == ascii_lower(whole[0]));
    assert(word != "nan"@ && word != "inf"@ && word != "infinity"@);
    assert(without_sign(t) == t);
    let n = digits_value(power);
    let all = digits_value(whole) * pow2(149);
    lemma_ten_to(n, 0);
    law_nearest_exists(format, all, ten_to(n));
    law_nearest_exists(format, all * ten_to(n), 1);
    law_nearest_exists(format, all * ten_to(0), 1);
    if n == 0 {
        assert(ten_to(0) == 1);
        assert(all * 1 == all);
    }
    let f = rounded_decimal(format, digits_value(mantissa_digits(t)), decimal_exponent(t));
    assert(literal_value(t).bits == f);
}

} // verus!
