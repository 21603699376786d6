//! Literals of floating-point numbers, as texts.
//!
//! A literal is an optional sign before `inf`, `infinity` or `nan`, in any
//! case, or before decimal digits with at most one point among or around them
//! and an optional exponent.
use vstd::prelude::*;

use crate::text::{ascii_lower, ascii_lower_text, digit, is_digit, spells};

verus! {

/// Decimal digits, possibly none.
pub open spec fn digits(s: Seq<char>) -> bool {
    forall|i: int| 0 <= i < s.len() ==> digit(#[trigger] s[i])
}

/// The text without a plus or minus in front.
pub open spec fn without_sign(s: Seq<char>) -> Seq<char> {
    if s.len() > 0 && (s[0] == '+' || s[0] == '-') {
        s.subrange(1, s.len() as int)
    } else {
        s
    }
}

/// Digits, of which there is at least one, with at most one point.
pub open spec fn mantissa(s: Seq<char>) -> bool {
    ||| s.len() > 0 && digits(s)
    ||| s.len() > 1 && exists|p: int|
        0 <= p < s.len() && s[p] == '.' && #[trigger] digits(s.subrange(0, p)) && digits(
            s.subrange(p + 1, s.len() as int),
        )
}

/// Nothing, or `e` in either case before digits, of which there is at least
/// one, with an optional sign.
pub open spec fn exponent(s: Seq<char>) -> bool {
    ||| s.len() == 0
    ||| (s[0] == 'e' || s[0] == 'E') && without_sign(s.subrange(1, s.len() as int)).len() > 0
        && digits(without_sign(s.subrange(1, s.len() as int)))
}

/// A decimal number without a sign.
pub open spec fn number(s: Seq<char>) -> bool {
    exists|m: int|
        0 <= m <= s.len() && #[trigger] mantissa(s.subrange(0, m)) && exponent(
            s.subrange(m, s.len() as int),
        )
}

/// A literal of a floating-point number.
pub open spec fn float_literal(s: Seq<char>) -> bool {
    let t = without_sign(s);
    ||| ascii_lower_text(t) == "inf"@
    ||| ascii_lower_text(t) == "infinity"@
    ||| ascii_lower_text(t) == "nan"@
    ||| number(t)
}

/// The first place from `from` on, before `to`, that holds no digit.
pub fn skip_digits(chars: &Vec<char>, from: usize, to: usize) -> (end: usize)
    requires
        from <= to <= chars@.len(),
    ensures
        from <= end <= to,
        digits(chars@.subrange(from as int, end as int)),
        end < to ==> !digit(chars@[end as int]),
{
    let mut end: usize = from;
    while end < to && is_digit(chars[end])
        invariant
            from <= end <= to <= chars@.len(),
            digits(chars@.subrange(from as int, end as int)),
        decreases to - end,
    {
        assert(chars@.subrange(from as int, end + 1) =~= chars@.subrange(
            from as int,
            end as int,
        ).push(chars@[end as int]));
        end = end + 1;
    }
    end
}

/// The place behind a sign at `from`, if there is one.
pub fn skip_sign(chars: &Vec<char>, from: usize, to: usize) -> (start: usize)
    requires
        from <= to <= chars@.len(),
    ensures
        from <= start <= to,
        chars@.subrange(start as int, to as int) == without_sign(
            chars@.subrange(from as int, to as int),
        ),
{
    if from < to && (chars[from] == '+' || chars[from] == '-') {
        assert(chars@.subrange(from as int, to as int).subrange(1, to - from) =~= chars@.subrange(
            from + 1,
            to as int,
        ));
        from + 1
    } else {
        from
    }
}

/// A text splits into mantissa and exponent in one way only: where its digits
/// and point end.
pub proof fn lemma_number_split(s: Seq<char>, d: int, m: int)
    requires
        0 <= d <= m <= s.len(),
        digits(s.subrange(0, d)),
        d < s.len() ==> !digit(s[d]),
        d < s.len() && s[d] == '.' ==> d < m && digits(s.subrange(d + 1, m)) && (m < s.len()
            ==> !digit(s[m])),
        !(d < s.len() && s[d] == '.') ==> m == d,
    ensures
        number(s) == (mantissa(s.subrange(0, m)) && exponent(s.subrange(m, s.len() as int))),
        mantissa(s.subrange(0, m)) == (m > d + 1 || d > 0),
{
    let head = s.subrange(0, m);
    // The part up to `m` is a mantissa exactly if it holds a digit.
    if m == d {
        assert(head =~= s.subrange(0, d));
        if m > 1 {
            assert(digits(head));
        }
    } else {
        assert(head[d] == '.');
        assert(head.subrange(0, d) =~= s.subrange(0, d));
        assert(head.subrange(d + 1, head.len() as int) =~= s.subrange(d + 1, m));
        assert(!digit(head[d]));
        if head.len() > 1 {
            assert(digits(head.subrange(0, d)));
            assert(mantissa(head));
        }
    }
    // Any other split fails.
    if number(s) {
        let k = choose|k: int|
            0 <= k <= s.len() && #[trigger] mantissa(s.subrange(0, k)) && exponent(
                s.subrange(k, s.len() as int),
            );
        let part = s.subrange(0, k);
        if digits(part) && part.len() > 0 {
            if k > d {
                assert(part[d] == s[d]);
            }
            if k < d {
                assert(s.subrange(0, d)[k] == s[k]);
                assert(s.subrange(k, s.len() as int)[0] == s[k]);
            }
            assert(k == d);
            if m > d {
                assert(s.subrange(k, s.len() as int)[0] == s[d]);
            }
        } else {
            let p = choose|p: int|
                0 <= p < part.len() && part[p] == '.' && #[trigger] digits(part.subrange(0, p))
                    && digits(part.subrange(p + 1, part.len() as int));
            assert(s[p] == '.');
            if p < d {
                assert(s.subrange(0, d)[p] == s[p]);
            }
            if p > d {
                assert(part.subrange(0, p)[d] == s[d]);
            }
            assert(p == d);
            if k > m {
                assert(part.subrange(p + 1, part.len() as int)[m - p - 1] == s[m]);
            }
            if k < m {
                assert(s.subrange(d + 1, m)[k - d - 1] == s[k]);
                assert(s.subrange(k, s.len() as int)[0] == s[k]);
            }
            assert(k == m);
        }
    }
}

/// Whether the characters from `from` up to `to` are a number without a sign.
fn is_number(chars: &Vec<char>, from: usize, to: usize) -> (yes: bool)
    requires
        from <= to <= chars@.len(),
    ensures
        yes == number(chars@.subrange(from as int, to as int)),
{
    let ghost s = chars@.subrange(from as int, to as int);
    let whole: usize = skip_digits(chars, from, to);
    let ghost d = whole - from;
    assert(s.subrange(0, d) =~= chars@.subrange(from as int, whole as int));
    let end: usize = if whole < to && chars[whole] == '.' {
        let e: usize = skip_digits(chars, whole + 1, to);
        assert(s.subrange(d + 1, e - from) =~= chars@.subrange(whole + 1, e as int));
        e
    } else {
        whole
    };
    let ghost m = end - from;
    proof {
        lemma_number_split(s, d, m);
    }
    let ghost tail = s.subrange(m, s.len() as int);
    assert(tail =~= chars@.subrange(end as int, to as int));
    if !(end - whole > 1 || whole > from) {
        return false;
    }
    if end == to {
        return true;
    }
    if chars[end] != 'e' && chars[end] != 'E' {
        return false;
    }
    let start: usize = skip_sign(chars, end + 1, to);
    assert(tail.subrange(1, tail.len() as int) =~= chars@.subrange(end + 1, to as int));
    let ghost power = chars@.subrange(start as int, to as int);
    let stop: usize = skip_digits(chars, start, to);
    if stop < to {
        assert(power[stop - start] == chars@[stop as int]);
    }
    start < to && stop == to
}

/// Whether the characters from `from` up to `to` are a literal of a
/// floating-point number.
pub fn is_float_literal(chars: &Vec<char>, from: usize, to: usize) -> (yes: bool)
    requires
        from <= to <= chars@.len(),
    ensures
        yes == float_literal(chars@.subrange(from as int, to as int)),
{
    let start: usize = skip_sign(chars, from, to);
    spells(chars, start, to, "inf") || spells(chars, start, to, "infinity") || spells(
        chars,
        start,
        to,
        "nan",
    ) || is_number(chars, start, to)
}

/// The characters of which literals are made.
pub open spec fn literal_char(c: char) -> bool {
    digit(c) || c == '+' || c == '-' || c == '.' || 'a' <= c <= 'z' || 'A' <= c <= 'Z'
}

proof fn lemma_sign_chars(s: Seq<char>)
    requires
        forall|i: int| 0 <= i < without_sign(s).len() ==> literal_char(#[trigger] without_sign(s)[i]),
    ensures
        forall|i: int| 0 <= i < s.len() ==> literal_char(#[trigger] s[i]),
{
    let t = without_sign(s);
    assert forall|i: int| 0 <= i < s.len() implies literal_char(#[trigger] s[i]) by {
        if t.len() == s.len() {
            assert(t[i] == s[i]);
        } else if i > 0 {
            assert(t[i - 1] == s[i]);
        }
    }
}

proof fn lemma_word_chars(t: Seq<char>, word: Seq<char>)
    requires
        ascii_lower_text(t) == word,
        forall|i: int| 0 <= i < word.len() ==> 'a' <= #[trigger] word[i] <= 'z',
    ensures
        forall|i: int| 0 <= i < t.len() ==> literal_char(#[trigger] t[i]),
{
    assert forall|i: int| 0 <= i < t.len() implies literal_char(#[trigger] t[i]) by {
        assert(word[i] == ascii_lower(t[i]));
    }
}

proof fn lemma_number_chars(t: Seq<char>)
    requires
        number(t),
    ensures
        t.len() > 0,
        forall|i: int| 0 <= i < t.len() ==> literal_char(#[trigger] t[i]),
{
    let m = choose|m: int|
        0 <= m <= t.len() && #[trigger] mantissa(t.subrange(0, m)) && exponent(
            t.subrange(m, t.len() as int),
        );
    let head = t.subrange(0, m);
    let tail = t.subrange(m, t.len() as int);
    assert forall|i: int| 0 <= i < m implies literal_char(#[trigger] t[i]) by {
        assert(head[i] == t[i]);
        if !digits(head) {
            let p = choose|p: int|
                0 <= p < head.len() && head[p] == '.' && #[trigger] digits(head.subrange(0, p))
                    && digits(head.subrange(p + 1, head.len() as int));
            if i < p {
                assert(head.subrange(0, p)[i] == t[i]);
            } else if i > p {
                assert(head.subrange(p + 1, head.len() as int)[i - p - 1] == t[i]);
            }
        }
    }
    if tail.len() > 0 {
        let power = tail.subrange(1, tail.len() as int);
        lemma_sign_chars(power);
        assert forall|i: int| m <= i < t.len() implies literal_char(#[trigger] t[i]) by {
            assert(tail[i - m] == t[i]);
            if i > m {
                assert(power[i - m - 1] == t[i]);
            }
        }
    }
}

/// A literal holds at least one character, and only letters, digits, signs and
/// points.
pub proof fn lemma_literal_chars(s: Seq<char>)
    requires
        float_literal(s),
    ensures
        s.len() > 0,
        forall|i: int| 0 <= i < s.len() ==> literal_char(#[trigger] s[i]),
{
    let t = without_sign(s);
    reveal_strlit("inf");
    reveal_strlit("infinity");
    reveal_strlit("nan");
    if number(t) {
        lemma_number_chars(t);
    } else if ascii_lower_text(t) == "inf"@ {
        lemma_word_chars(t, "inf"@);
    } else if ascii_lower_text(t) == "infinity"@ {
        lemma_word_chars(t, "infinity"@);
    } else {
        lemma_word_chars(t, "nan"@);
    }
    lemma_sign_chars(s);
    assert(ascii_lower_text(t).len() == t.len());
}

/// Whatever digits it has, before or behind the point, a decimal number is a
/// literal, with a sign or without, with an exponent in either case or without.
pub proof fn law_decimal_numbers_are_literals(
    sign: Seq<char>,
    whole: Seq<char>,
    behind: Seq<char>,
    mark: char,
    turn: Seq<char>,
    power: Seq<char>,
)
    requires
        sign.len() == 0 || sign == seq!['+'] || sign == seq!['-'],
        turn.len() == 0 || turn == seq!['+'] || turn == seq!['-'],
        digits(whole) && digits(behind) && digits(power),
        whole.len() + behind.len() > 0,
        power.len() > 0,
        mark == 'e' || mark == 'E',
    ensures
        whole.len() > 0 ==> float_literal(sign + whole),
        float_literal(sign + whole + seq!['.'] + behind),
        whole.len() > 0 ==> float_literal(sign + whole + seq![mark] + turn + power),
        float_literal(sign + whole + seq!['.'] + behind + seq![mark] + turn + power),
{
    let none = Seq::<char>::empty();
    let pointed = whole + seq!['.'] + behind;
    let tail = seq![mark] + turn + power;
    let p = whole.len() as int;
    assert(pointed.subrange(0, p) =~= whole);
    assert(pointed.subrange(p + 1, pointed.len() as int) =~= behind);
    assert(mantissa(pointed));
    assert(tail.subrange(1, tail.len() as int) =~= turn + power);
    lemma_without_sign(turn, power);
    assert(exponent(tail));
    assert(exponent(none));
    lemma_signed_literal(sign, pointed, none);
    lemma_signed_literal(sign, pointed, tail);
    assert(sign + (pointed + none) =~= sign + whole + seq!['.'] + behind);
    assert(sign + (pointed + tail) =~= sign + whole + seq!['.'] + behind + seq![mark] + turn
        + power);
    if whole.len() > 0 {
        assert(mantissa(whole));
        lemma_signed_literal(sign, whole, none);
        lemma_signed_literal(sign, whole, tail);
        assert(sign + (whole + none) =~= sign + whole);
        assert(sign + (whole + tail) =~= sign + whole + seq![mark] + turn + power);
    }
}

/// A sign in front of what does not begin with one is taken off alone.
proof fn lemma_without_sign(sign: Seq<char>, s: Seq<char>)
    requires
        sign.len() == 0 || sign == seq!['+'] || sign == seq!['-'],
        s.len() > 0,
        s[0] != '+' && s[0] != '-',
    ensures
        without_sign(sign + s) == s,
{
    if sign.len() == 0 {
        assert(sign + s =~= s);
    } else {
        assert((sign + s).subrange(1, (sign + s).len() as int) =~= s);
    }
}

proof fn lemma_signed_literal(sign: Seq<char>, head: Seq<char>, tail: Seq<char>)
    requires
        sign.len() == 0 || sign == seq!['+'] || sign == seq!['-'],
        mantissa(head),
        exponent(tail),
        head.len() > 0,
        digit(head[0]) || head[0] == '.',
    ensures
        float_literal(sign + (head + tail)),
{
    let s = head + tail;
    let m = head.len() as int;
    assert(s[0] == head[0]);
    lemma_without_sign(sign, s);
    assert(s.subrange(0, m) =~= head);
    assert(s.subrange(m, s.len() as int) =~= tail);
    assert(number(s));
}

} // verus!
