//! Escapes in JSON strings, by which an identity name of any characters is
//! written into the embedding database and read back.
use vstd::prelude::*;

use crate::text::{chars_of, control, is_control};

verus! {

/// `char::from_u32` gives the character with that code point, and nothing for
/// a number that is no Unicode scalar value.
pub assume_specification[ char::from_u32 ](i: u32) -> (c: Option<char>)
    ensures
        c == if i < 0xd800 || 0xdfff < i <= 0x10ffff {
            Some(i as char)
        } else {
            None
        },
;

/// The hexadecimal digit of `d`, in lower case.
pub open spec fn hex_char(d: int) -> char {
    if d < 10 {
        (48 + d) as char
    } else {
        (87 + d) as char
    }
}

/// How one character of a name is written inside a JSON string.
pub open spec fn escape_char(c: char) -> Seq<char> {
    if c == '"' {
        seq!['\\', '"']
    } else if c == '\\' {
        seq!['\\', '\\']
    } else if c == '\n' {
        seq!['\\', 'n']
    } else if c == '\r' {
        seq!['\\', 'r']
    } else if c == '\t' {
        seq!['\\', 't']
    } else if control(c) {
        seq!['\\', 'u', '0', '0', hex_char(c as u32 as int / 16), hex_char(c as u32 as int % 16)]
    } else {
        seq![c]
    }
}

/// How a name is written inside a JSON string.
pub open spec fn escaped(s: Seq<char>) -> Seq<char>
    decreases s.len(),
{
    if s.len() == 0 {
        Seq::empty()
    } else {
        escape_char(s[0]) + escaped(s.subrange(1, s.len() as int))
    }
}

fn hex_digit(d: u8) -> (c: char)
    requires
        d < 16,
    ensures
        c == hex_char(d as int),
{
    if d < 10 {
        (48u8 + d) as char
    } else {
        (87u8 + d) as char
    }
}

/// Escapes quotes, backslashes and control characters, so that the text can
/// stand inside a JSON string.
pub fn escape_json_string(s: &str) -> (out: String)
    ensures
        out@ == escaped(s@),
{
    let chars: Vec<char> = chars_of(s);
    let mut out: String = String::new();
    assert(chars@.subrange(0, chars@.len() as int) =~= chars@);
    for i in 0..chars.len()
        invariant
            chars@ == s@,
            out@ + escaped(chars@.subrange(i as int, chars@.len() as int)) =~= escaped(s@),
    {
        let c: char = chars[i];
        let ghost rest = chars@.subrange(i as int, chars@.len() as int);
        let ghost before = out@;
        assert(rest.subrange(1, rest.len() as int) =~= chars@.subrange(i + 1, chars@.len() as int));
        if c == '"' {
            out.push('\\');
            out.push('"');
        } else if c == '\\' {
            out.push('\\');
            out.push('\\');
        } else if c == '\n' {
            out.push('\\');
            out.push('n');
        } else if c == '\r' {
            out.push('\\');
            out.push('r');
        } else if c == '\t' {
            out.push('\\');
            out.push('t');
        } else if is_control(c) {
            let u: u32 = c as u32;
            out.push('\\');
            out.push('u');
            out.push('0');
            out.push('0');
            out.push(hex_digit((u / 16) as u8));
            out.push(hex_digit((u % 16) as u8));
        } else {
            out.push(c);
        }
        assert(out@ =~= before + escape_char(c));
    }
    out
}

/// The value of a hexadecimal digit, of either case.
pub open spec fn hex_value(c: char) -> Option<int> {
    if '0' <= c <= '9' {
        Some(c as u32 - 48)
    } else if 'a' <= c <= 'f' {
        Some(c as u32 - 87)
    } else if 'A' <= c <= 'F' {
        Some(c as u32 - 55)
    } else {
        None
    }
}

/// The number that hexadecimal digits spell, `None` if one of them is none.
pub open spec fn hex_number(s: Seq<char>) -> Option<int>
    decreases s.len(),
{
    if s.len() == 0 {
        Some(0)
    } else {
        match (hex_number(s.subrange(0, s.len() - 1)), hex_value(s[s.len() - 1])) {
            (Some(n), Some(d)) => Some(16 * n + d),
            _ => None,
        }
    }
}

/// What the characters behind `\u` stand for: one character, if they are
/// hexadecimal digits, of which there is at least one, behind an optional
/// plus, and their number is a Unicode scalar value; else nothing.
pub open spec fn unicode_escape(hex: Seq<char>) -> Seq<char> {
    let digits = if hex.len() > 0 && hex[0] == '+' {
        hex.subrange(1, hex.len() as int)
    } else {
        hex
    };
    if digits.len() == 0 {
        Seq::empty()
    } else {
        match hex_number(digits) {
            Some(n) => if 0xd800 <= n <= 0xdfff {
                Seq::empty()
            } else {
                seq![n as char]
            },
            None => Seq::empty(),
        }
    }
}

pub open spec fn at_most(n: int, bound: int) -> int {
    if n < bound {
        n
    } else {
        bound
    }
}

/// What the inside of a JSON string stands for.
pub open spec fn unescaped(s: Seq<char>) -> Seq<char>
    decreases s.len(),
{
    if s.len() == 0 {
        Seq::empty()
    } else if s[0] != '\\' {
        seq![s[0]] + unescaped(s.subrange(1, s.len() as int))
    } else if s.len() == 1 {
        seq!['\\']
    } else if s[1] == 'u' {
        let end = at_most(6, s.len() as int);
        unicode_escape(s.subrange(2, end)) + unescaped(s.subrange(end, s.len() as int))
    } else {
        let head = if s[1] == '"' {
            seq!['"']
        } else if s[1] == '\\' {
            seq!['\\']
        } else if s[1] == 'n' {
            seq!['\n']
        } else if s[1] == 'r' {
            seq!['\r']
        } else if s[1] == 't' {
            seq!['\t']
        } else {
            seq!['\\', s[1]]
        };
        head + unescaped(s.subrange(2, s.len() as int))
    }
}

fn hex_digit_value(c: char) -> (v: Option<u32>)
    ensures
        match v {
            Some(d) => hex_value(c) == Some(d as int) && d < 16,
            None => hex_value(c) is None,
        },
{
    if '0' <= c && c <= '9' {
        Some(c as u32 - 48)
    } else if 'a' <= c && c <= 'f' {
        Some(c as u32 - 87)
    } else if 'A' <= c && c <= 'F' {
        Some(c as u32 - 55)
    } else {
        None
    }
}

/// The character that the hexadecimal digits from `from` up to `to` stand for.
fn read_unicode_escape(chars: &Vec<char>, from: usize, to: usize) -> (c: Option<char>)
    requires
        from <= to <= chars@.len(),
        to - from <= 4,
    ensures
        match c {
            Some(ch) => unicode_escape(chars@.subrange(from as int, to as int)) == seq![ch],
            None => unicode_escape(chars@.subrange(from as int, to as int)) == Seq::<char>::empty(),
        },
{
    let ghost hex = chars@.subrange(from as int, to as int);
    let start: usize = if from < to && chars[from] == '+' {
        from + 1
    } else {
        from
    };
    let ghost digits = if hex.len() > 0 && hex[0] == '+' {
        hex.subrange(1, hex.len() as int)
    } else {
        hex
    };
    assert(digits =~= chars@.subrange(start as int, to as int));
    if start >= to {
        return None;
    }
    let mut n: u32 = 0;
    assert(digits.subrange(0, 0) =~= Seq::<char>::empty());
    for i in start..to
        invariant
            start <= to <= chars@.len(),
            to - start <= 4,
            digits == chars@.subrange(start as int, to as int),
            hex_number(digits.subrange(0, i - start)) == Some(n as int),
            i - start == 0 ==> n == 0,
            i - start == 1 ==> n < 0x10,
            i - start == 2 ==> n < 0x100,
            i - start == 3 ==> n < 0x1000,
            i - start == 4 ==> n < 0x10000,
            digits.len() > 0,
            hex == chars@.subrange(from as int, to as int),
            digits == (if hex.len() > 0 && hex[0] == '+' {
                hex.subrange(1, hex.len() as int)
            } else {
                hex
            }),
    {
        let ghost next = digits.subrange(0, i - start + 1);
        assert(next.subrange(0, next.len() - 1) =~= digits.subrange(0, i - start));
        match hex_digit_value(chars[i]) {
            Some(d) => {
                n = 16 * n + d;
            },
            None => {
                proof {
                    lemma_hex_number_prefix(digits, i - start + 1);
                }
                return None;
            },
        }
    }
    assert(digits.subrange(0, digits.len() as int) =~= digits);
    let c: Option<char> = char::from_u32(n);
    assert(hex_number(digits) == Some(n as int));
    c
}

proof fn lemma_hex_number_prefix(s: Seq<char>, n: int)
    requires
        0 <= n <= s.len(),
        hex_number(s.subrange(0, n)) is None,
    ensures
        hex_number(s) is None,
    decreases s.len(),
{
    if n == s.len() {
        assert(s.subrange(0, n) =~= s);
    } else {
        let shorter = s.subrange(0, s.len() - 1);
        assert(shorter.subrange(0, n) =~= s.subrange(0, n));
        lemma_hex_number_prefix(shorter, n);
    }
}

/// The text that the characters from `from` up to `to`, the inside of a JSON
/// string, stand for.
pub fn unescape_chars(chars: &Vec<char>, from: usize, to: usize) -> (out: String)
    requires
        from <= to <= chars@.len(),
    ensures
        out@ == unescaped(chars@.subrange(from as int, to as int)),
{
    let ghost whole = chars@.subrange(from as int, to as int);
    let mut out: String = String::new();
    let mut pos: usize = from;
    while pos < to
        invariant
            from <= pos <= to <= chars@.len(),
            out@ + unescaped(chars@.subrange(pos as int, to as int)) =~= unescaped(whole),
        decreases to - pos,
    {
        let ghost rest = chars@.subrange(pos as int, to as int);
        let ghost before = out@;
        let c: char = chars[pos];
        if c != '\\' {
            out.push(c);
            assert(rest.subrange(1, rest.len() as int) =~= chars@.subrange(pos + 1, to as int));
            assert(out@ =~= before + seq![c]);
            pos = pos + 1;
        } else if to - pos == 1 {
            out.push('\\');
            pos = pos + 1;
            assert(chars@.subrange(pos as int, to as int) =~= Seq::<char>::empty());
            assert(out@ =~= before + seq!['\\']);
        } else {
            let d: char = chars[pos + 1];
            assert(d == rest[1]);
            if d == 'u' {
                let end: usize = if to - pos < 6 {
                    to
                } else {
                    pos + 6
                };
                let ghost stop = at_most(6, rest.len() as int);
                assert(rest.subrange(2, stop) =~= chars@.subrange(pos + 2, end as int));
                assert(rest.subrange(stop, rest.len() as int) =~= chars@.subrange(
                    end as int,
                    to as int,
                ));
                match read_unicode_escape(chars, pos + 2, end) {
                    Some(ch) => {
                        out.push(ch);
                        assert(out@ =~= before + seq![ch]);
                    },
                    None => {},
                }
                pos = end;
            } else {
                assert(rest.subrange(2, rest.len() as int) =~= chars@.subrange(pos + 2, to as int));
                if d == '"' {
                    out.push('"');
                    assert(out@ =~= before + seq!['"']);
                } else if d == '\\' {
                    out.push('\\');
                    assert(out@ =~= before + seq!['\\']);
                } else if d == 'n' {
                    out.push('\n');
                    assert(out@ =~= before + seq!['\n']);
                } else if d == 'r' {
                    out.push('\r');
                    assert(out@ =~= before + seq!['\r']);
                } else if d == 't' {
                    out.push('\t');
                    assert(out@ =~= before + seq!['\t']);
                } else {
                    out.push('\\');
                    out.push(d);
                    assert(out@ =~= before + seq!['\\', d]);
                }
                pos = pos + 2;
            }
        }
    }
    assert(chars@.subrange(pos as int, to as int) =~= Seq::<char>::empty());
    out
}

/// The text that the inside of a JSON string stands for.
pub fn unescape_json_string(s: &str) -> (out: String)
    ensures
        out@ == unescaped(s@),
{
    let chars: Vec<char> = chars_of(s);
    assert(chars@.subrange(0, chars@.len() as int) =~= s@);
    unescape_chars(&chars, 0, chars.len())
}

// ---------------------------------------------------------------------------
// What escaping promises
// ---------------------------------------------------------------------------

proof fn lemma_unescape_one(c: char, rest: Seq<char>)
    ensures
        unescaped(escape_char(c) + rest) == seq![c] + unescaped(rest),
{
    let s = escape_char(c) + rest;
    if c == '"' || c == '\\' || c == '\n' || c == '\r' || c == '\t' {
        assert(s.subrange(2, s.len() as int) =~= rest);
    } else if control(c) {
        let u = c as u32 as int;
        let hex = s.subrange(2, 6);
        assert(hex =~= seq!['0', '0', hex_char(u / 16), hex_char(u % 16)]);
        assert(s.subrange(6, s.len() as int) =~= rest);
        assert(hex_value('0') == Some(0int));
        assert(hex_value(hex_char(u / 16)) == Some(u / 16));
        assert(hex_value(hex_char(u % 16)) == Some(u % 16));
        let h3 = hex.subrange(0, 3);
        let h2 = h3.subrange(0, 2);
        let h1 = h2.subrange(0, 1);
        assert(h1.subrange(0, 0) =~= Seq::<char>::empty());
        assert(hex_number(h1.subrange(0, 0)) == Some(0int));
        assert(hex_number(h1) == Some(0int));
        assert(hex_number(h2) == Some(0int));
        assert(hex_number(h3) == Some(u / 16));
        assert(hex_number(hex) == Some(u));
        assert(u as char == c);
    } else {
        assert(s.subrange(1, s.len() as int) =~= rest);
    }
}

/// Whatever characters a name holds, unescaping its escaped form gives the
/// name back.
pub proof fn law_unescape_undoes_escape(name: Seq<char>)
    ensures
        unescaped(escaped(name)) == name,
    decreases name.len(),
{
    if name.len() > 0 {
        let rest = name.subrange(1, name.len() as int);
        lemma_unescape_one(name[0], escaped(rest));
        law_unescape_undoes_escape(rest);
        assert(seq![name[0]] + rest =~= name);
    }
}

/// Two names are escaped alike only if they are the same name.
pub proof fn law_escape_keeps_names_apart(a: Seq<char>, b: Seq<char>)
    requires
        escaped(a) == escaped(b),
    ensures
        a == b,
{
    law_unescape_undoes_escape(a);
    law_unescape_undoes_escape(b);
}

/// An escaped name holds no control character.
pub proof fn law_escaped_name_has_no_control(name: Seq<char>, i: int)
    requires
        0 <= i < escaped(name).len(),
    ensures
        !control(escaped(name)[i]),
    decreases name.len(),
{
    if name.len() > 0 {
        let head = escape_char(name[0]);
        let rest = name.subrange(1, name.len() as int);
        if i >= head.len() {
            law_escaped_name_has_no_control(rest, i - head.len());
        } else {
            assert(escaped(name)[i] == head[i]);
        }
    }
}

/// Four hexadecimal digits behind `\\u` stand for the character with that code
/// point, unless it is a surrogate, which stands for nothing.
pub proof fn law_code_points_are_unescaped(n: int)
    requires
        0 <= n <= 0xffff,
    ensures
        unescaped(
            seq![
                '\\',
                'u',
                hex_char(n / 0x1000),
                hex_char(n / 0x100 % 0x10),
                hex_char(n / 0x10 % 0x10),
                hex_char(n % 0x10),
            ],
        ) == if 0xd800 <= n <= 0xdfff {
            Seq::<char>::empty()
        } else {
            seq![n as char]
        },
{
    let (a, b, c, d) = (n / 0x1000, n / 0x100 % 0x10, n / 0x10 % 0x10, n % 0x10);
    let s = seq!['\\', 'u', hex_char(a), hex_char(b), hex_char(c), hex_char(d)];
    let hex = s.subrange(2, 6);
    assert(hex =~= seq![hex_char(a), hex_char(b), hex_char(c), hex_char(d)]);
    assert(s.subrange(6, 6) =~= Seq::<char>::empty());
    assert(hex_value(hex_char(a)) == Some(a));
    assert(hex_value(hex_char(b)) == Some(b));
    assert(hex_value(hex_char(c)) == Some(c));
    assert(hex_value(hex_char(d)) == Some(d));
    let h3 = hex.subrange(0, 3);
    let h2 = h3.subrange(0, 2);
    let h1 = h2.subrange(0, 1);
    assert(h1.subrange(0, 0) =~= Seq::<char>::empty());
    assert(hex_number(h1.subrange(0, 0)) == Some(0int));
    assert(hex_number(h1) == Some(a));
    assert(hex_number(h2) == Some(16 * a + b));
    assert(hex_number(h3) == Some(16 * (16 * a + b) + c));
    assert(hex_number(hex) == Some(16 * (16 * (16 * a + b) + c) + d));
    assert(n == 16 * (16 * (16 * a + b) + c) + d);
    assert(hex[0] != '+');
    assert(unescaped(s.subrange(6, 6)) == Seq::<char>::empty());
    assert(unescaped(s) =~= unicode_escape(hex));
}

/// Names are escaped character by character.
pub proof fn law_escaping_goes_by_character(a: Seq<char>, b: Seq<char>)
    ensures
        escaped(a + b) == escaped(a) + escaped(b),
    decreases a.len(),
{
    if a.len() == 0 {
        assert(a + b =~= b);
        assert(escaped(a) + escaped(b) =~= escaped(b));
    } else {
        let rest = a.subrange(1, a.len() as int);
        assert((a + b).subrange(1, (a + b).len() as int) =~= rest + b);
        law_escaping_goes_by_character(rest, b);
        assert(escaped(a + b) =~= escaped(a) + escaped(b));
    }
}

/// A quote, a backslash and any control character is escaped by a backslash,
/// those of lines and tabulators with a letter, the others with four digits.
pub proof fn law_marks_are_escaped(c: char)
    ensures
        ({
            let e = escaped(seq![c]);
            &&& c == '"' || c == '\\' ==> e == seq!['\\', c]
            &&& c == '\n' ==> e == seq!['\\', 'n']
            &&& c == '\r' ==> e == seq!['\\', 'r']
            &&& c == '\t' ==> e == seq!['\\', 't']
            &&& c != '\n' && c != '\r' && c != '\t' && ((c as u32) < 0x20 || 0x7f <= c as u32
                <= 0x9f) ==> e.len() == 6 && e.subrange(0, 2) == seq!['\\', 'u'] && hex_number(
                e.subrange(2, 6),
            ) == Some(c as u32 as int)
        }),
{
    let s = seq![c];
    let e = escaped(s);
    assert(s.subrange(1, 1) =~= Seq::<char>::empty());
    assert(escaped(s.subrange(1, 1)) == Seq::<char>::empty());
    assert(e =~= escape_char(c));
    if c != '\n' && c != '\r' && c != '\t' && ((c as u32) < 0x20 || 0x7f <= c as u32 <= 0x9f) {
        let n = c as u32 as int;
        let hex = e.subrange(2, 6);
        assert(e.subrange(0, 2) =~= seq!['\\', 'u']);
        assert(hex =~= seq!['0', '0', hex_char(n / 16), hex_char(n % 16)]);
        let h3 = hex.subrange(0, 3);
        let h2 = h3.subrange(0, 2);
        let h1 = h2.subrange(0, 1);
        assert(h1.subrange(0, 0) =~= Seq::<char>::empty());
        assert(hex_number(h1.subrange(0, 0)) == Some(0int));
        assert(hex_value('0') == Some(0int));
        assert(hex_value(hex_char(n / 16)) == Some(n / 16));
        assert(hex_value(hex_char(n % 16)) == Some(n % 16));
        assert(hex_number(h1) == Some(0int));
        assert(hex_number(h2) == Some(0int));
        assert(hex_number(h3) == Some(n / 16));
        assert(hex_number(hex) == Some(16 * (n / 16) + n % 16));
    }
}

/// Neither quote nor backslash nor control character.
pub open spec fn plain(c: char) -> bool {
    c != '"' && c != '\\' && 0x20 <= c as u32 && ((c as u32) < 0x7f || 0x9f < c as u32)
}

/// A name of plain characters is written, and read, as it stands.
pub proof fn law_plain_names_stand(name: Seq<char>)
    requires
        forall|i: int| 0 <= i < name.len() ==> plain(#[trigger] name[i]),
    ensures
        escaped(name) == name,
        unescaped(name) == name,
    decreases name.len(),
{
    if name.len() > 0 {
        let rest = name.subrange(1, name.len() as int);
        assert forall|i: int| 0 <= i < rest.len() implies plain(#[trigger] rest[i]) by {
            assert(rest[i] == name[i + 1]);
        }
        law_plain_names_stand(rest);
        assert(plain(name[0]));
        assert(escaped(name) =~= name);
        assert(unescaped(name) =~= name);
    } else {
        assert(escaped(name) =~= name);
        assert(unescaped(name) =~= name);
    }
}

/// A backslash before any other character stands for itself, and so does one at
/// the end.
pub proof fn law_other_backslashes_stand(c: char, rest: Seq<char>)
    requires
        c != '"' && c != '\\' && c != 'n' && c != 'r' && c != 't' && c != 'u',
    ensures
        unescaped(seq!['\\', c] + rest) == seq!['\\', c] + unescaped(rest),
        unescaped(seq!['\\']) == seq!['\\'],
{
    let s = seq!['\\', c] + rest;
    assert(s.subrange(2, s.len() as int) =~= rest);
}

} // verus!
