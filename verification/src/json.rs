//! The `{"name": [v, ...], ...}` document in which the embedding database is
//! kept.
//!
//! Components stay texts here: reading a document hands out the literals that
//! it holds, and writing one takes literals.
use vstd::prelude::*;
use vstd::utf8::encode_utf8;

use crate::embeddings::{
    enrolled, inserted, law_insert_is_map_insert, names_distinct, EmbeddingDb, Identity,
    EMBEDDING_DIM,
};
use crate::escape::{
    escape_char, escape_json_string, escaped, law_unescape_undoes_escape, unescape_chars, unescaped,
};
use crate::literal::{float_literal, is_float_literal, lemma_literal_chars};
use crate::text::{
    ascii_white_space, chars_of, decimal, is_ascii_white_space, law_trim_takes_off_white_space,
    lemma_trim_fixed, push_decimal, text_between, trim, trim_bounds,
};

verus! {

/// The database with each component as the characters of its literal.
pub open spec fn texts(db: Seq<(Seq<char>, Seq<String>)>) -> Seq<(Seq<char>, Seq<Seq<char>>)> {
    Seq::new(db.len(), |i: int| (db[i].0, literals(db[i].1)))
}

/// The characters of each text.
pub open spec fn literals(v: Seq<String>) -> Seq<Seq<char>> {
    Seq::new(v.len(), |j: int| v[j]@)
}

// ---------------------------------------------------------------------------
// Finding the parts
// ---------------------------------------------------------------------------

/// The first place from `pos` on that holds neither a comma nor white space.
pub open spec fn skip_separators(s: Seq<char>, pos: int) -> int
    decreases s.len() - pos,
{
    if 0 <= pos < s.len() && (s[pos] == ',' || ascii_white_space(s[pos])) {
        skip_separators(s, pos + 1)
    } else {
        pos
    }
}

/// The first place from `pos` on that holds no white space.
pub open spec fn skip_white(s: Seq<char>, pos: int) -> int
    decreases s.len() - pos,
{
    if 0 <= pos < s.len() && ascii_white_space(s[pos]) {
        skip_white(s, pos + 1)
    } else {
        pos
    }
}

/// The place of the quote that ends a string whose inside begins at `pos`, or
/// the end of the text: a backslash takes the character behind it along.
pub open spec fn closing_quote(s: Seq<char>, pos: int) -> int
    decreases s.len() - pos,
{
    if pos < 0 || pos >= s.len() {
        s.len() as int
    } else if s[pos] == '\\' && pos + 1 < s.len() {
        closing_quote(s, pos + 2)
    } else if s[pos] == '"' {
        pos
    } else {
        closing_quote(s, pos + 1)
    }
}

/// The place of the bracket that closes the outermost of `depth` arrays that
/// are open at `pos`, or the end of the text.
pub open spec fn closing_bracket(s: Seq<char>, pos: int, depth: int) -> int
    decreases s.len() - pos,
{
    if pos < 0 || pos >= s.len() {
        s.len() as int
    } else if s[pos] == '[' {
        closing_bracket(s, pos + 1, depth + 1)
    } else if s[pos] == ']' {
        if depth == 1 {
            pos
        } else {
            closing_bracket(s, pos + 1, depth - 1)
        }
    } else {
        closing_bracket(s, pos + 1, depth)
    }
}

/// The pieces between commas; there is always at least one.
pub open spec fn split_at_commas(s: Seq<char>) -> Seq<Seq<char>>
    decreases s.len(),
{
    if s.len() == 0 {
        seq![Seq::empty()]
    } else {
        let init = split_at_commas(s.subrange(0, s.len() - 1));
        let c = s[s.len() - 1];
        if c == ',' {
            init.push(Seq::empty())
        } else {
            init.update(init.len() - 1, init[init.len() - 1].push(c))
        }
    }
}

/// The components that the inside of an array holds: the pieces between
/// commas, without the white space around them.
pub open spec fn components(s: Seq<char>) -> Seq<Seq<char>> {
    let pieces = split_at_commas(s);
    Seq::new(pieces.len(), |i: int| trim(pieces[i]))
}

/// Why a component is no literal.
pub open spec fn literal_fault(s: Seq<char>) -> Option<Seq<char>> {
    if float_literal(s) {
        None
    } else if s.len() == 0 {
        Some("cannot parse float from empty string"@)
    } else {
        Some("invalid float literal"@)
    }
}

/// Why the first component that is no literal is none.
pub open spec fn first_fault(v: Seq<Seq<char>>) -> Option<Seq<char>>
    decreases v.len(),
{
    if v.len() == 0 {
        None
    } else {
        match first_fault(v.subrange(0, v.len() - 1)) {
            Some(why) => Some(why),
            None => literal_fault(v[v.len() - 1]),
        }
    }
}

// ---------------------------------------------------------------------------
// Messages
// ---------------------------------------------------------------------------

/// What is said of a place that should hold the opening quote of a key: its
/// offset in bytes, and the first byte found there.
pub open spec fn expected_quote(s: Seq<char>, pos: int) -> Seq<char> {
    "Invalid embedding JSON at position "@ + decimal(encode_utf8(s.subrange(0, pos)).len())
        + ": expected '\"', found '"@ + seq![
        encode_utf8(s.subrange(pos, s.len() as int))[0] as char,
    ] + "'"@
}

pub open spec fn quoted(key: Seq<char>) -> Seq<char> {
    "\""@ + key + "\""@
}

pub open spec fn expected_colon(key: Seq<char>) -> Seq<char> {
    "Invalid embedding JSON: expected ':' after key "@ + quoted(key)
}

pub open spec fn expected_bracket(key: Seq<char>) -> Seq<char> {
    "Invalid embedding JSON: expected '[' for value of "@ + quoted(key)
}

pub open spec fn unterminated_array(key: Seq<char>) -> Seq<char> {
    "Invalid embedding JSON: unterminated array for "@ + quoted(key)
}

pub open spec fn bad_component(key: Seq<char>, why: Seq<char>) -> Seq<char> {
    "Failed to parse embedding for "@ + quoted(key) + ": "@ + why
}

pub open spec fn wrong_dimension(key: Seq<char>, count: nat) -> Seq<char> {
    "Embedding for "@ + quoted(key) + " has "@ + decimal(count) + " values (expected "@ + decimal(
        EMBEDDING_DIM as nat,
    ) + ")"@
}

fn message(prefix: &str, key: &String) -> (out: String)
    ensures
        out@ == prefix@ + quoted(key@),
{
    let mut out: String = prefix.to_owned();
    out.append("\"");
    out.append(key.as_str());
    out.append("\"");
    assert(out@ =~= prefix@ + quoted(key@));
    out
}

// ---------------------------------------------------------------------------
// Reading
// ---------------------------------------------------------------------------

/// What an entry whose key begins behind the quote before `start` holds: its
/// key, its components and the place behind it, or what is wrong with it.
pub open spec fn parsed_entry(s: Seq<char>, start: int) -> Result<
    (Seq<char>, Seq<Seq<char>>, int),
    Seq<char>,
> {
    let quote = closing_quote(s, start);
    let key = unescaped(s.subrange(start, quote));
    let colon = skip_white(s, quote + 1);
    let open = skip_white(s, colon + 1);
    let close = closing_bracket(s, open + 1, 1);
    let values = components(s.subrange(open + 1, close));
    if quote >= s.len() {
        Err("Invalid embedding JSON: unterminated key string"@)
    } else if colon >= s.len() || s[colon] != ':' {
        Err(expected_colon(key))
    } else if open >= s.len() || s[open] != '[' {
        Err(expected_bracket(key))
    } else if close >= s.len() {
        Err(unterminated_array(key))
    } else if first_fault(values) is Some {
        Err(bad_component(key, first_fault(values)->0))
    } else if values.len() != EMBEDDING_DIM {
        Err(wrong_dimension(key, values.len()))
    } else {
        Ok((key, values, close + 1))
    }
}

/// What the entries from `pos` on add to `db`, or what is wrong with the first
/// bad one.
pub open spec fn parsed_entries(
    s: Seq<char>,
    pos: int,
    db: Seq<(Seq<char>, Seq<Seq<char>>)>,
) -> Result<Seq<(Seq<char>, Seq<Seq<char>>)>, Seq<char>>
    decreases s.len() - pos,
{
    proof {
        lemma_parts_in_order(s, pos);
    }
    let quote = skip_separators(s, pos);
    if pos < 0 || quote >= s.len() {
        Ok(db)
    } else if s[quote] != '"' {
        Err(expected_quote(s, quote))
    } else {
        match parsed_entry(s, quote + 1) {
            Err(why) => Err(why),
            Ok((key, values, next)) => parsed_entries(s, next, inserted(db, key, values)),
        }
    }
}

/// The database that a document holds, or what is wrong with it.
pub open spec fn parsed(json: Seq<char>) -> Result<Seq<(Seq<char>, Seq<Seq<char>>)>, Seq<char>> {
    let doc = trim(json);
    if doc.len() == 0 {
        Ok(Seq::empty())
    } else if doc.len() < 2 || doc[0] != '{' || doc[doc.len() - 1] != '}' {
        Err("Invalid embedding JSON: missing outer braces"@)
    } else {
        parsed_entries(trim(doc.subrange(1, doc.len() - 1)), 0, Seq::empty())
    }
}

proof fn lemma_skip_separators(s: Seq<char>, pos: int)
    ensures
        pos <= skip_separators(s, pos),
        pos <= s.len() ==> skip_separators(s, pos) <= s.len(),
    decreases s.len() - pos,
{
    if 0 <= pos < s.len() && (s[pos] == ',' || ascii_white_space(s[pos])) {
        lemma_skip_separators(s, pos + 1);
    }
}

proof fn lemma_skip_white(s: Seq<char>, pos: int)
    ensures
        pos <= skip_white(s, pos),
        pos <= s.len() ==> skip_white(s, pos) <= s.len(),
    decreases s.len() - pos,
{
    if 0 <= pos < s.len() && ascii_white_space(s[pos]) {
        lemma_skip_white(s, pos + 1);
    }
}

proof fn lemma_closing_quote(s: Seq<char>, pos: int)
    ensures
        closing_quote(s, pos) <= s.len(),
        0 <= pos <= s.len() ==> pos <= closing_quote(s, pos),
    decreases s.len() - pos,
{
    if 0 <= pos < s.len() {
        if s[pos] == '\\' && pos + 1 < s.len() {
            lemma_closing_quote(s, pos + 2);
        } else if s[pos] != '"' {
            lemma_closing_quote(s, pos + 1);
        }
    }
}

proof fn lemma_closing_bracket(s: Seq<char>, pos: int, depth: int)
    ensures
        closing_bracket(s, pos, depth) <= s.len(),
        0 <= pos <= s.len() ==> pos <= closing_bracket(s, pos, depth),
    decreases s.len() - pos,
{
    if 0 <= pos < s.len() {
        if s[pos] == '[' {
            lemma_closing_bracket(s, pos + 1, depth + 1);
        } else if s[pos] == ']' {
            if depth != 1 {
                lemma_closing_bracket(s, pos + 1, depth - 1);
            }
        } else {
            lemma_closing_bracket(s, pos + 1, depth);
        }
    }
}

/// The parts of an entry stand behind each other, so reading one moves on.
pub proof fn lemma_parts_in_order(s: Seq<char>, pos: int)
    ensures
        0 <= pos && skip_separators(s, pos) < s.len() ==> (parsed_entry(
            s,
            skip_separators(s, pos) + 1,
        ) matches Ok(entry) ==> pos < entry.2 <= s.len()),
{
    lemma_skip_separators(s, pos);
    let start = skip_separators(s, pos) + 1;
    lemma_closing_quote(s, start);
    let quote = closing_quote(s, start);
    lemma_skip_white(s, quote + 1);
    let colon = skip_white(s, quote + 1);
    lemma_skip_white(s, colon + 1);
    let open = skip_white(s, colon + 1);
    lemma_closing_bracket(s, open + 1, 1);
}

proof fn lemma_split_nonempty(s: Seq<char>)
    ensures
        split_at_commas(s).len() >= 1,
    decreases s.len(),
{
    if s.len() > 0 {
        lemma_split_nonempty(s.subrange(0, s.len() - 1));
    }
}

/// All pieces of a prefix but the last are pieces of the whole.
proof fn lemma_split_prefix(s: Seq<char>, n: int)
    requires
        0 <= n <= s.len(),
    ensures
        ({
            let part = split_at_commas(s.subrange(0, n));
            let all = split_at_commas(s);
            &&& 1 <= part.len() <= all.len()
            &&& forall|k: int| 0 <= k < part.len() - 1 ==> part[k] == #[trigger] all[k]
        }),
    decreases s.len(),
{
    lemma_split_nonempty(s);
    if n == s.len() {
        assert(s.subrange(0, n) =~= s);
    } else {
        let shorter = s.subrange(0, s.len() - 1);
        assert(shorter.subrange(0, n) =~= s.subrange(0, n));
        lemma_split_prefix(shorter, n);
    }
}

proof fn lemma_first_fault_prefix(v: Seq<Seq<char>>, n: int)
    requires
        0 <= n <= v.len(),
        first_fault(v.subrange(0, n)) is Some,
    ensures
        first_fault(v) == first_fault(v.subrange(0, n)),
    decreases v.len(),
{
    if n == v.len() {
        assert(v.subrange(0, n) =~= v);
    } else {
        let shorter = v.subrange(0, v.len() - 1);
        assert(shorter.subrange(0, n) =~= v.subrange(0, n));
        lemma_first_fault_prefix(shorter, n);
    }
}

/// Reads one component, or says why it is none.
fn read_component(chars: &Vec<char>, from: usize, to: usize) -> (read: Result<String, String>)
    requires
        from <= to <= chars@.len(),
    ensures
        match read {
            Ok(v) => v@ == trim(chars@.subrange(from as int, to as int)) && literal_fault(v@) is None,
            Err(why) => literal_fault(trim(chars@.subrange(from as int, to as int))) == Some(why@),
        },
{
    let (lo, hi) = trim_bounds(chars, from, to);
    if is_float_literal(chars, lo, hi) {
        Ok(text_between(chars, lo, hi))
    } else if lo == hi {
        Err("cannot parse float from empty string".to_owned())
    } else {
        Err("invalid float literal".to_owned())
    }
}

/// Reads the components from `from` up to `to`, or says why the first bad one
/// is none.
fn read_components(chars: &Vec<char>, from: usize, to: usize) -> (read: Result<Vec<String>, String>)
    requires
        from <= to <= chars@.len(),
    ensures
        match read {
            Ok(v) => literals(v@) == components(chars@.subrange(from as int, to as int))
                && first_fault(literals(v@)) is None,
            Err(why) => first_fault(components(chars@.subrange(from as int, to as int))) == Some(
                why@,
            ),
        },
{
    let ghost s = chars@.subrange(from as int, to as int);
    let mut out: Vec<String> = Vec::new();
    let mut start: usize = from;
    let mut pos: usize = from;
    let ghost mut pieces: Seq<Seq<char>> = Seq::empty();
    assert(s.subrange(0, 0) =~= Seq::<char>::empty());
    assert(split_at_commas(s.subrange(0, 0)) =~= seq![Seq::<char>::empty()]);
    assert(chars@.subrange(start as int, pos as int) =~= Seq::<char>::empty());
    while pos < to
        invariant
            from <= start <= pos <= to <= chars@.len(),
            s == chars@.subrange(from as int, to as int),
            split_at_commas(s.subrange(0, pos - from)) =~= pieces.push(
                chars@.subrange(start as int, pos as int),
            ),
            out@.len() == pieces.len(),
            forall|k: int| 0 <= k < pieces.len() ==> (#[trigger] out@[k])@ == trim(pieces[k]),
            first_fault(literals(out@)) is None,
        decreases to - pos,
    {
        let ghost next = s.subrange(0, pos - from + 1);
        let ghost piece = chars@.subrange(start as int, pos as int);
        assert(next.subrange(0, next.len() - 1) =~= s.subrange(0, pos - from));
        assert(next[next.len() - 1] == chars@[pos as int]);
        if chars[pos] == ',' {
            let ghost before = literals(out@);
            let ghost all = pieces.push(piece);
            assert(split_at_commas(next) =~= all.push(Seq::empty()));
            match read_component(chars, start, pos) {
                Ok(v) => {
                    out.push(v);
                    assert(literals(out@).subrange(0, before.len() as int) =~= before);
                },
                Err(why) => {
                    proof {
                        lemma_split_prefix(s, pos - from + 1);
                        let vs = components(s);
                        let part = vs.subrange(0, all.len() as int);
                        assert forall|k: int| 0 <= k < all.len() implies #[trigger] part[k] == trim(
                            all[k],
                        ) by {
                            assert(split_at_commas(s)[k] == all[k]);
                        }
                        assert(part.subrange(0, part.len() - 1) =~= before);
                        assert(first_fault(part) == Some(why@));
                        lemma_first_fault_prefix(vs, all.len() as int);
                    }
                    return Err(why);
                },
            }
            start = pos + 1;
            proof {
                pieces = all;
            }
            assert(chars@.subrange(start as int, pos + 1) =~= Seq::<char>::empty());
        } else {
            assert(chars@.subrange(start as int, pos + 1) =~= piece.push(chars@[pos as int]));
        }
        pos = pos + 1;
    }
    let ghost before = literals(out@);
    let ghost last = chars@.subrange(start as int, to as int);
    assert(s.subrange(0, s.len() as int) =~= s);
    let ghost vs = components(s);
    assert(vs.subrange(0, vs.len() - 1) =~= before);
    assert(vs[vs.len() - 1] == trim(last));
    match read_component(chars, start, to) {
        Ok(v) => {
            out.push(v);
            assert(literals(out@) =~= vs);
            Ok(out)
        },
        Err(why) => Err(why),
    }
}

fn find_separators_end(chars: &Vec<char>, from: usize) -> (pos: usize)
    requires
        from <= chars@.len(),
    ensures
        from <= pos <= chars@.len(),
        pos == skip_separators(chars@, from as int),
{
    let mut pos: usize = from;
    while pos < chars.len() && (chars[pos] == ',' || is_ascii_white_space(chars[pos]))
        invariant
            from <= pos <= chars@.len(),
            skip_separators(chars@, pos as int) == skip_separators(chars@, from as int),
        decreases chars@.len() - pos,
    {
        pos = pos + 1;
    }
    pos
}

fn find_white_end(chars: &Vec<char>, from: usize) -> (pos: usize)
    requires
        from <= chars@.len(),
    ensures
        from <= pos <= chars@.len(),
        pos == skip_white(chars@, from as int),
{
    let mut pos: usize = from;
    while pos < chars.len() && is_ascii_white_space(chars[pos])
        invariant
            from <= pos <= chars@.len(),
            skip_white(chars@, pos as int) == skip_white(chars@, from as int),
        decreases chars@.len() - pos,
    {
        pos = pos + 1;
    }
    pos
}

fn find_closing_quote(chars: &Vec<char>, from: usize) -> (pos: usize)
    requires
        from <= chars@.len(),
    ensures
        from <= pos <= chars@.len(),
        pos == closing_quote(chars@, from as int),
{
    let mut pos: usize = from;
    while pos < chars.len()
        invariant
            from <= pos <= chars@.len(),
            closing_quote(chars@, pos as int) == closing_quote(chars@, from as int),
        decreases chars@.len() - pos,
    {
        if chars[pos] == '\\' && chars.len() - pos > 1 {
            pos = pos + 2;
        } else if chars[pos] == '"' {
            return pos;
        } else {
            pos = pos + 1;
        }
    }
    pos
}

fn find_closing_bracket(chars: &Vec<char>, from: usize) -> (pos: usize)
    requires
        from <= chars@.len(),
    ensures
        from <= pos <= chars@.len(),
        pos == closing_bracket(chars@, from as int, 1),
{
    let mut pos: usize = from;
    let mut nested: usize = 0;
    while pos < chars.len()
        invariant
            from <= pos <= chars@.len(),
            nested <= pos - from,
            closing_bracket(chars@, pos as int, nested + 1) == closing_bracket(
                chars@,
                from as int,
                1,
            ),
        decreases chars@.len() - pos,
    {
        if chars[pos] == '[' {
            nested = nested + 1;
        } else if chars[pos] == ']' {
            if nested == 0 {
                return pos;
            }
            nested = nested - 1;
        }
        pos = pos + 1;
    }
    pos
}

/// Reads the entry whose key begins at `start`: its key, its components and
/// the place behind it.
fn read_entry(chars: &Vec<char>, start: usize) -> (read: Result<(String, Vec<String>, usize), String>)
    requires
        start <= chars@.len(),
    ensures
        match read {
            Ok(entry) => parsed_entry(chars@, start as int) == Ok::<_, Seq<char>>(
                (entry.0@, literals(entry.1@), entry.2 as int),
            ) && start < entry.2 <= chars@.len(),
            Err(why) => parsed_entry(chars@, start as int) == Err::<
                (Seq<char>, Seq<Seq<char>>, int),
                _,
            >(why@),
        },
{
    let quote: usize = find_closing_quote(chars, start);
    if quote >= chars.len() {
        return Err("Invalid embedding JSON: unterminated key string".to_owned());
    }
    let key: String = unescape_chars(chars, start, quote);
    let colon: usize = find_white_end(chars, quote + 1);
    if colon >= chars.len() || chars[colon] != ':' {
        return Err(message("Invalid embedding JSON: expected ':' after key ", &key));
    }
    let open: usize = find_white_end(chars, colon + 1);
    if open >= chars.len() || chars[open] != '[' {
        return Err(message("Invalid embedding JSON: expected '[' for value of ", &key));
    }
    let close: usize = find_closing_bracket(chars, open + 1);
    if close >= chars.len() {
        return Err(message("Invalid embedding JSON: unterminated array for ", &key));
    }
    match read_components(chars, open + 1, close) {
        Err(why) => {
            let mut out: String = message("Failed to parse embedding for ", &key);
            out.append(": ");
            out.append(why.as_str());
            Err(out)
        },
        Ok(values) => {
            if values.len() != EMBEDDING_DIM {
                let mut out: String = message("Embedding for ", &key);
                out.append(" has ");
                push_decimal(&mut out, values.len() as u64);
                out.append(" values (expected ");
                push_decimal(&mut out, EMBEDDING_DIM as u64);
                out.append(")");
                Err(out)
            } else {
                Ok((key, values, close + 1))
            }
        },
    }
}

/// The message for a place that should hold the opening quote of a key.
fn quote_message(chars: &Vec<char>, pos: usize) -> (out: String)
    requires
        pos < chars@.len(),
    ensures
        out@ == expected_quote(chars@, pos as int),
{
    let head: String = text_between(chars, 0, pos);
    let tail: String = text_between(chars, pos, chars.len());
    let offset: usize = head.as_str().as_bytes().len();
    let found: u8 = tail.as_str().as_bytes()[0];
    let mut out: String = "Invalid embedding JSON at position ".to_owned();
    push_decimal(&mut out, offset as u64);
    out.append(": expected '\"', found '");
    let ghost before = out@;
    out.push(found as char);
    assert(out@ =~= before + seq![found as char]);
    out.append("'");
    out
}

/// Reads the literals of the embedding database from its JSON text.
///
/// White space may stand between the tokens, keys may hold escapes, and an
/// entry replaces an earlier one of the same key.  Every value must be an array
/// of [`EMBEDDING_DIM`] literals of floating-point numbers; they are handed out
/// as they are written.
pub fn parse_document(json: &str) -> (read: Result<EmbeddingDb<String>, String>)
    ensures
        match read {
            Ok(db) => db.well_formed() && parsed(json@) == Ok::<_, Seq<char>>(texts(db@)),
            Err(why) => parsed(json@) == Err::<Seq<(Seq<char>, Seq<Seq<char>>)>, _>(why@),
        },
{
    let mut db: EmbeddingDb<String> = EmbeddingDb::new();
    assert(texts(db@) =~= Seq::empty());
    let whole: Vec<char> = chars_of(json);
    assert(whole@.subrange(0, whole@.len() as int) =~= json@);
    let (lo, hi) = trim_bounds(&whole, 0, whole.len());
    let ghost doc = whole@.subrange(lo as int, hi as int);
    if lo == hi {
        return Ok(db);
    }
    if hi - lo < 2 || whole[lo] != '{' || whole[hi - 1] != '}' {
        return Err("Invalid embedding JSON: missing outer braces".to_owned());
    }
    assert(doc.subrange(1, doc.len() - 1) =~= whole@.subrange(lo + 1, hi - 1));
    let (from, to) = trim_bounds(&whole, lo + 1, hi - 1);
    let inner: Vec<char> = chars_of(text_between(&whole, from, to).as_str());
    let mut pos: usize = 0;
    while pos < inner.len()
        invariant
            pos <= inner@.len(),
            db.well_formed(),
            parsed(json@) == parsed_entries(inner@, pos as int, texts(db@)),
        decreases inner@.len() - pos,
    {
        let quote: usize = find_separators_end(&inner, pos);
        if quote >= inner.len() {
            return Ok(db);
        }
        if inner[quote] != '"' {
            return Err(quote_message(&inner, quote));
        }
        match read_entry(&inner, quote + 1) {
            Err(why) => {
                return Err(why);
            },
            Ok((key, values, next)) => {
                let ghost before = db@;
                let ghost k = key@;
                let ghost v = values@;
                db.insert(key, values);
                proof {
                    lemma_texts_inserted(before, k, v);
                }
                pos = next;
            },
        }
    }
    Ok(db)
}

proof fn lemma_texts_inserted(db: Seq<(Seq<char>, Seq<String>)>, name: Seq<char>, v: Seq<String>)
    ensures
        texts(inserted(db, name, v)) == inserted(texts(db), name, literals(v)),
{
    if enrolled(db, name) {
        let i = choose|i: int| 0 <= i < db.len() && (#[trigger] db[i]).0 == name;
        assert(texts(db)[i].0 == name);
    }
    if enrolled(texts(db), name) {
        let i = choose|i: int| 0 <= i < texts(db).len() && (#[trigger] texts(db)[i]).0 == name;
        assert(db[i].0 == name);
    }
    assert(texts(inserted(db, name, v)) =~= inserted(texts(db), name, literals(v)));
}

// ---------------------------------------------------------------------------
// Writing
// ---------------------------------------------------------------------------

/// The texts with commas between them.
pub open spec fn joined(v: Seq<Seq<char>>) -> Seq<char>
    decreases v.len(),
{
    if v.len() == 0 {
        Seq::empty()
    } else if v.len() == 1 {
        v[0]
    } else {
        joined(v.subrange(0, v.len() - 1)) + seq![','] + v[v.len() - 1]
    }
}

/// How one identity is written.
pub open spec fn entry_text(name: Seq<char>, values: Seq<Seq<char>>) -> Seq<char> {
    seq!['"'] + escaped(name) + seq!['"', ':', '['] + joined(values) + seq![']']
}

/// How the first `n` identities are written, with commas between them.
pub open spec fn entries_text(db: Seq<(Seq<char>, Seq<Seq<char>>)>, n: int) -> Seq<char>
    decreases n,
{
    if n <= 0 {
        Seq::empty()
    } else if n == 1 {
        entry_text(db[0].0, db[0].1)
    } else {
        entries_text(db, n - 1) + seq![','] + entry_text(db[n - 1].0, db[n - 1].1)
    }
}

/// The document of a database.
pub open spec fn rendered(db: Seq<(Seq<char>, Seq<Seq<char>>)>) -> Seq<char> {
    seq!['{'] + entries_text(db, db.len() as int) + seq!['}', '\n']
}

/// Appends the texts, with commas between them.
fn push_joined(out: &mut String, values: &Vec<String>)
    ensures
        final(out)@ == old(out)@ + joined(literals(values@)),
{
    let ghost start = out@;
    let ghost all = literals(values@);
    assert(out@ =~= start + joined(all.subrange(0, 0)));
    for i in 0..values.len()
        invariant
            all == literals(values@),
            out@ == start + joined(all.subrange(0, i as int)),
    {
        let ghost before = out@;
        let ghost next = all.subrange(0, i + 1);
        assert(next.subrange(0, next.len() - 1) =~= all.subrange(0, i as int));
        if i > 0 {
            out.push(',');
        }
        out.append(values[i].as_str());
        assert(out@ =~= start + joined(next));
    }
    assert(all.subrange(0, all.len() as int) =~= all);
}

/// Appends an entry.
fn push_entry(out: &mut String, name: &str, values: &Vec<String>)
    ensures
        final(out)@ == old(out)@ + entry_text(name@, literals(values@)),
{
    let ghost before = out@;
    let key: String = escape_json_string(name);
    out.push('"');
    out.append(key.as_str());
    out.push('"');
    out.push(':');
    out.push('[');
    assert(out@ =~= before + (seq!['"'] + key@ + seq!['"', ':', '[']));
    push_joined(out, values);
    out.push(']');
    assert(out@ =~= before + entry_text(name@, literals(values@)));
}

/// Writes an embedding database of literals as JSON text.
pub fn render_document(db: &EmbeddingDb<String>) -> (out: String)
    ensures
        out@ == rendered(texts(db@)),
{
    let all: &Vec<Identity<String>> = db.identities();
    let ghost t = texts(db@);
    let mut out: String = String::new();
    out.push('{');
    assert(out@ =~= seq!['{'] + entries_text(t, 0));
    for i in 0..all.len()
        invariant
            all@.len() == db@.len(),
            forall|k: int|
                0 <= k < all@.len() ==> (#[trigger] all@[k]).name@ == db@[k].0
                    && all@[k].embedding@ == db@[k].1,
            t == texts(db@),
            out@ == seq!['{'] + entries_text(t, i as int),
    {
        let ghost before = out@;
        assert(t[i as int] == (all@[i as int].name@, literals(all@[i as int].embedding@)));
        if i > 0 {
            out.push(',');
        }
        push_entry(&mut out, all[i].name.as_str(), &all[i].embedding);
        let ghost e = entry_text(t[i as int].0, t[i as int].1);
        if i > 0 {
            let ghost text = entries_text(t, i as int);
            assert(out@ =~= before + seq![','] + e);
            assert(entries_text(t, i + 1) == text + seq![','] + e);
            assert(seq!['{'] + text + seq![','] + e =~= seq!['{'] + (text + seq![','] + e));
        } else {
            assert(out@ =~= before + e);
            assert(entries_text(t, i + 1) == e);
            assert(before =~= seq!['{']);
        }
    }
    let ghost before = out@;
    out.push('}');
    out.push('\n');
    assert(out@ =~= before + seq!['}', '\n']);
    out
}

// ---------------------------------------------------------------------------
// What a read gives back of a write
// ---------------------------------------------------------------------------

/// No name occurs twice, and every embedding has its dimension and consists of
/// literals of floating-point numbers.
pub open spec fn storable(db: Seq<(Seq<char>, Seq<Seq<char>>)>) -> bool {
    &&& names_distinct(db)
    &&& forall|i: int| 0 <= i < db.len() ==> storable_embedding((#[trigger] db[i]).1)
}

/// Of the dimension of an embedding, and all literals.
pub open spec fn storable_embedding(v: Seq<Seq<char>>) -> bool {
    &&& v.len() == EMBEDDING_DIM
    &&& forall|j: int| 0 <= j < v.len() ==> float_literal(#[trigger] v[j])
}

pub open spec fn no_commas(s: Seq<char>) -> bool {
    forall|i: int| 0 <= i < s.len() ==> #[trigger] s[i] != ','
}

proof fn lemma_split_append(a: Seq<char>, b: Seq<char>)
    requires
        no_commas(b),
    ensures
        ({
            let left = split_at_commas(a);
            split_at_commas(a + b) == left.update(left.len() - 1, left[left.len() - 1] + b)
        }),
    decreases b.len(),
{
    let left = split_at_commas(a);
    lemma_split_nonempty(a);
    if b.len() == 0 {
        assert(a + b =~= a);
        assert(left[left.len() - 1] + b =~= left[left.len() - 1]);
        assert(left.update(left.len() - 1, left[left.len() - 1] + b) =~= left);
    } else {
        let shorter = b.subrange(0, b.len() - 1);
        let whole = a + b;
        assert(whole.subrange(0, whole.len() - 1) =~= a + shorter);
        lemma_split_append(a, shorter);
        let init = split_at_commas(a + shorter);
        assert(init[init.len() - 1].push(b[b.len() - 1]) =~= left[left.len() - 1] + b);
        assert(split_at_commas(whole) =~= left.update(left.len() - 1, left[left.len() - 1] + b));
    }
}

pub proof fn lemma_split_joined(v: Seq<Seq<char>>)
    requires
        v.len() > 0,
        forall|j: int| 0 <= j < v.len() ==> no_commas(#[trigger] v[j]),
    ensures
        split_at_commas(joined(v)) == v,
    decreases v.len(),
{
    let e = Seq::<char>::empty();
    if v.len() == 1 {
        lemma_split_append(e, v[0]);
        assert(e + v[0] =~= v[0]);
        assert(split_at_commas(joined(v)) =~= v);
    } else {
        let init = v.subrange(0, v.len() - 1);
        let last = v[v.len() - 1];
        assert forall|j: int| 0 <= j < init.len() implies no_commas(#[trigger] init[j]) by {
            assert(init[j] == v[j]);
        }
        lemma_split_joined(init);
        let a = joined(init) + seq![','];
        assert(a.subrange(0, a.len() - 1) =~= joined(init));
        assert(split_at_commas(a) =~= init.push(e));
        lemma_split_append(a, last);
        assert(e + last =~= last);
        assert(split_at_commas(joined(v)) =~= v);
    }
}

/// A written embedding holds no brackets and splits into its components.
proof fn lemma_joined_literals(v: Seq<Seq<char>>)
    requires
        storable_embedding(v),
    ensures
        components(joined(v)) == v,
        first_fault(v) is None,
{
    assert forall|j: int| 0 <= j < v.len() implies no_commas(#[trigger] v[j]) by {
        lemma_literal_chars(v[j]);
    }
    lemma_split_joined(v);
    assert forall|j: int| 0 <= j < v.len() implies #[trigger] trim(v[j]) == v[j] by {
        lemma_literal_chars(v[j]);
        lemma_trim_fixed(v[j]);
    }
    assert(components(joined(v)) =~= v);
    lemma_no_fault(v);
}

pub proof fn lemma_no_fault(v: Seq<Seq<char>>)
    ensures
        first_fault(v) is None <==> forall|j: int| 0 <= j < v.len() ==> float_literal(#[trigger] v[j]),
    decreases v.len(),
{
    if v.len() > 0 {
        let init = v.subrange(0, v.len() - 1);
        lemma_no_fault(init);
        if first_fault(v) is None {
            assert forall|j: int| 0 <= j < v.len() implies float_literal(#[trigger] v[j]) by {
                if j < init.len() {
                    assert(init[j] == v[j]);
                }
            }
        } else if first_fault(init) is Some {
            let j = choose|j: int| 0 <= j < init.len() && !float_literal(#[trigger] init[j]);
            assert(v[j] == init[j]);
        }
    }
}

pub open spec fn no_brackets(s: Seq<char>) -> bool {
    forall|i: int| 0 <= i < s.len() ==> #[trigger] s[i] != '[' && s[i] != ']'
}

pub proof fn lemma_joined_has_no_brackets(v: Seq<Seq<char>>)
    requires
        forall|j: int| 0 <= j < v.len() ==> no_brackets(#[trigger] v[j]),
    ensures
        no_brackets(joined(v)),
    decreases v.len(),
{
    if v.len() > 1 {
        let init = v.subrange(0, v.len() - 1);
        let last = v[v.len() - 1];
        assert forall|j: int| 0 <= j < init.len() implies no_brackets(#[trigger] init[j]) by {
            assert(init[j] == v[j]);
        }
        lemma_joined_has_no_brackets(init);
        let head = joined(init);
        assert forall|i: int| 0 <= i < joined(v).len() implies #[trigger] joined(v)[i] != '['
            && joined(v)[i] != ']' by {
            if i < head.len() {
                assert(joined(v)[i] == head[i]);
            } else if i > head.len() {
                assert(joined(v)[i] == last[i - head.len() - 1]);
            }
        }
    }
}

/// The quote behind an escaped name closes the string.
pub proof fn lemma_quote_behind_name(s: Seq<char>, at: int, name: Seq<char>)
    requires
        0 <= at,
        at + escaped(name).len() < s.len(),
        s.subrange(at, at + escaped(name).len()) == escaped(name),
        s[at + escaped(name).len()] == '"',
    ensures
        closing_quote(s, at) == at + escaped(name).len(),
    decreases name.len(),
{
    let e = escaped(name);
    if name.len() > 0 {
        let head = escape_char(name[0]);
        let rest = name.subrange(1, name.len() as int);
        let next = at + head.len();
        assert forall|i: int| 0 <= i < e.len() implies s[at + i] == #[trigger] e[i] by {
            assert(s.subrange(at, at + e.len())[i] == s[at + i]);
        }
        assert(s.subrange(next, next + escaped(rest).len()) =~= escaped(rest)) by {
            assert forall|i: int| 0 <= i < escaped(rest).len() implies s[next + i] == escaped(
                rest,
            )[i] by {
                assert(e[head.len() + i] == escaped(rest)[i]);
                assert(s[at + (head.len() + i)] == e[head.len() + i]);
            }
        }
        lemma_quote_behind_name(s, next, rest);
        assert(s[at] == e[0]);
        assert(e[0] == head[0]);
        if head.len() > 1 {
            assert(e[1] == head[1] && s[at + 1] == e[1]);
            if head.len() == 6 {
                assert(e[2] == head[2] && s[at + 2] == e[2]);
                assert(e[3] == head[3] && s[at + 3] == e[3]);
                assert(e[4] == head[4] && s[at + 4] == e[4]);
                assert(e[5] == head[5] && s[at + 5] == e[5]);
                assert(closing_quote(s, at) == closing_quote(s, at + 2));
                assert(closing_quote(s, at + 2) == closing_quote(s, at + 3));
                assert(closing_quote(s, at + 3) == closing_quote(s, at + 4));
                assert(closing_quote(s, at + 4) == closing_quote(s, at + 5));
                assert(closing_quote(s, at + 5) == closing_quote(s, at + 6));
            }
        }
        assert(closing_quote(s, at) == closing_quote(s, next));
    }
}

pub proof fn lemma_bracket_behind(s: Seq<char>, at: int, end: int)
    requires
        0 <= at <= end < s.len(),
        forall|i: int| at <= i < end ==> #[trigger] s[i] != '[' && s[i] != ']',
        s[end] == ']',
    ensures
        closing_bracket(s, at, 1) == end,
    decreases end - at,
{
    if at < end {
        lemma_bracket_behind(s, at + 1, end);
    }
}

/// An entry that stands at `at` is read as what was written.
proof fn lemma_entry_is_read(s: Seq<char>, at: int, name: Seq<char>, v: Seq<Seq<char>>)
    requires
        storable_embedding(v),
        0 <= at,
        at + entry_text(name, v).len() <= s.len(),
        s.subrange(at, at + entry_text(name, v).len()) == entry_text(name, v),
    ensures
        s[at] == '"',
        parsed_entry(s, at + 1) == Ok::<_, Seq<char>>(
            (name, v, at + entry_text(name, v).len()),
        ),
{
    let e = entry_text(name, v);
    let key = escaped(name);
    let body = joined(v);
    assert forall|i: int| 0 <= i < e.len() implies s[at + i] == #[trigger] e[i] by {
        assert(s.subrange(at, at + e.len())[i] == s[at + i]);
    }
    assert(s[at + 0] == e[0]);
    assert(s.subrange(at + 1, at + 1 + key.len()) =~= key) by {
        assert forall|i: int| 0 <= i < key.len() implies s[at + 1 + i] == key[i] by {
            assert(s[at + (1 + i)] == e[1 + i]);
        }
    }
    let quote = at + 1 + key.len();
    assert(s[at + (1 + key.len())] == e[1 + key.len() as int]);
    assert(s[at + (2 + key.len())] == e[2 + key.len() as int]);
    assert(s[at + (3 + key.len())] == e[3 + key.len() as int]);
    lemma_quote_behind_name(s, at + 1, name);
    law_unescape_undoes_escape(name);
    let open = quote + 2;
    let close = open + 1 + body.len();
    assert forall|i: int| open + 1 <= i < close implies #[trigger] s[i] == body[i - open - 1] by {
        assert(s[at + (i - at)] == e[i - at]);
    }
    assert forall|j: int| 0 <= j < v.len() implies no_brackets(#[trigger] v[j]) by {
        lemma_literal_chars(v[j]);
    }
    lemma_joined_has_no_brackets(v);
    assert forall|i: int| open + 1 <= i < close implies #[trigger] s[i] != '[' && s[i] != ']' by {
        assert(body[i - open - 1] != '[');
    }
    assert(s[at + (e.len() - 1)] == e[e.len() - 1]);
    lemma_bracket_behind(s, open + 1, close);
    assert(s.subrange(open + 1, close) =~= body);
    lemma_joined_literals(v);
}

pub proof fn lemma_entries_prefix(db: Seq<(Seq<char>, Seq<Seq<char>>)>, k: int, n: int)
    requires
        0 <= k <= n <= db.len(),
    ensures
        entries_text(db, k).len() <= entries_text(db, n).len(),
        entries_text(db, n).subrange(0, entries_text(db, k).len() as int) == entries_text(db, k),
    decreases n - k,
{
    let a = entries_text(db, k);
    let b = entries_text(db, n);
    if k == n {
        assert(b.subrange(0, a.len() as int) =~= a);
    } else {
        lemma_entries_prefix(db, k, n - 1);
        let c = entries_text(db, n - 1);
        assert(b.subrange(0, c.len() as int) =~= c);
        assert(b.subrange(0, a.len() as int) =~= c.subrange(0, a.len() as int));
    }
}

/// Behind the first `k` entries of a text that begins with those of the database,
/// the others are read.
pub proof fn lemma_entries_lead_on(s: Seq<char>, db: Seq<(Seq<char>, Seq<Seq<char>>)>, k: int)
    requires
        storable(db),
        0 <= k <= db.len(),
        entries_text(db, db.len() as int).len() <= s.len(),
        s.subrange(0, entries_text(db, db.len() as int).len() as int) == entries_text(
            db,
            db.len() as int,
        ),
    ensures
        parsed_entries(s, entries_text(db, k).len() as int, db.subrange(0, k)) == parsed_entries(
            s,
            entries_text(db, db.len() as int).len() as int,
            db,
        ),
    decreases db.len() - k,
{
    let n = db.len() as int;
    let all = entries_text(db, n);
    let pos = entries_text(db, k).len() as int;
    let read = db.subrange(0, k);
    if k == n {
        assert(read =~= db);
    } else {
        lemma_entries_prefix(db, k, n);
        lemma_entries_prefix(db, k + 1, n);
        lemma_entries_lead_on(s, db, k + 1);
        let (name, v) = db[k];
        let e = entry_text(name, v);
        let upto = entries_text(db, k + 1);
        let at = if k == 0 { 0 } else { pos + 1 };
        if k == 0 {
            assert(upto =~= e);
        } else {
            assert(upto =~= entries_text(db, k) + seq![','] + e);
        }
        assert forall|i: int| 0 <= i < upto.len() implies s[i] == #[trigger] upto[i] by {
            assert(all.subrange(0, upto.len() as int)[i] == all[i]);
            assert(s.subrange(0, all.len() as int)[i] == s[i]);
        }
        assert(s.subrange(at, at + e.len()) =~= e) by {
            assert forall|i: int| 0 <= i < e.len() implies s[at + i] == e[i] by {
                assert(upto[at + i] == e[i]);
            }
        }
        lemma_entry_is_read(s, at, name, v);
        if k > 0 {
            assert(upto[pos] == ',');
            assert(s[pos] == ',');
            assert(skip_separators(s, pos) == skip_separators(s, pos + 1));
        }
        assert(skip_separators(s, at) == at);
        assert(!enrolled(read, name)) by {
            if enrolled(read, name) {
                let i = choose|i: int| 0 <= i < read.len() && (#[trigger] read[i]).0 == name;
                assert(db[i].0 == db[k].0);
            }
        }
        assert(inserted(read, name, v) =~= db.subrange(0, k + 1));
    }
}

/// Behind the first `k` entries, the others are read.
proof fn lemma_entries_are_read(db: Seq<(Seq<char>, Seq<Seq<char>>)>, k: int)
    requires
        storable(db),
        0 <= k <= db.len(),
    ensures
        ({
            let s = entries_text(db, db.len() as int);
            parsed_entries(s, entries_text(db, k).len() as int, db.subrange(0, k)) == Ok::<
                _,
                Seq<char>,
            >(db)
        }),
{
    let s = entries_text(db, db.len() as int);
    assert(s.subrange(0, s.len() as int) =~= s);
    lemma_entries_lead_on(s, db, k);
}

/// The line that a document ends is trimmed off.
proof fn lemma_document_trimmed(body: Seq<char>)
    ensures
        trim(seq!['{'] + body + seq!['}', '\n']) == seq!['{'] + body + seq!['}'],
{
    let (none, end) = (Seq::<char>::empty(), seq!['\n']);
    let doc = seq!['{'] + body + seq!['}'];
    assert(doc[0] == '{' && doc[doc.len() - 1] == '}');
    law_trim_takes_off_white_space(none, doc, end);
    assert(none + doc + end =~= seq!['{'] + body + seq!['}', '\n']);
}

/// The entries of a document have no white space around them.
proof fn lemma_entries_trimmed(db: Seq<(Seq<char>, Seq<Seq<char>>)>)
    ensures
        trim(entries_text(db, db.len() as int)) == entries_text(db, db.len() as int),
{
    let body = entries_text(db, db.len() as int);
    if db.len() > 0 {
        lemma_entries_prefix(db, 1, db.len() as int);
        let first = entries_text(db, 1);
        assert(first[0] == '"');
        assert(body.subrange(0, first.len() as int)[0] == first[0]);
        assert(body[body.len() - 1] == ']');
    }
    lemma_trim_fixed(body);
}

/// Reading the document of a database gives the database back, whatever
/// characters the names hold: no name can corrupt the file.
pub proof fn law_parse_undoes_render(db: Seq<(Seq<char>, Seq<Seq<char>>)>)
    requires
        storable(db),
    ensures
        parsed(rendered(db)) == Ok::<_, Seq<char>>(db),
{
    let body = entries_text(db, db.len() as int);
    let doc = seq!['{'] + body + seq!['}'];
    lemma_document_trimmed(body);
    assert(doc.subrange(1, doc.len() - 1) =~= body);
    lemma_entries_trimmed(db);
    lemma_entries_are_read(db, 0);
    assert(db.subrange(0, 0) =~= Seq::empty());
}

proof fn lemma_parsed_entries_storable(
    s: Seq<char>,
    pos: int,
    db: Seq<(Seq<char>, Seq<Seq<char>>)>,
)
    requires
        storable(db),
    ensures
        parsed_entries(s, pos, db) matches Ok(read) ==> storable(read),
    decreases s.len() - pos,
{
    let quote = skip_separators(s, pos);
    if 0 <= pos && quote < s.len() && s[quote] == '"' {
        lemma_parts_in_order(s, pos);
        if let Ok((key, values, next)) = parsed_entry(s, quote + 1) {
            lemma_no_fault(values);
            law_insert_is_map_insert(db, key, values);
            lemma_parsed_entries_storable(s, next, inserted(db, key, values));
        }
    }
}

/// Every database that is read can be written: no name occurs twice in it, and
/// every embedding has its dimension and consists of literals.
pub proof fn law_parsed_is_storable(json: Seq<char>)
    ensures
        parsed(json) matches Ok(db) ==> storable(db),
{
    let doc = trim(json);
    if doc.len() >= 2 {
        lemma_parsed_entries_storable(trim(doc.subrange(1, doc.len() - 1)), 0, Seq::empty());
    }
}

/// A document of nothing holds the braces alone; a further identity is written
/// behind the others, its name in quotes and its literals in brackets, with
/// commas between and no white space but the end of the line.
pub proof fn law_document_grows_by_its_entries(
    db: Seq<(Seq<char>, Seq<Seq<char>>)>,
    name: Seq<char>,
    values: Seq<Seq<char>>,
)
    ensures
        rendered(Seq::empty()) == seq!['{', '}', '\n'],
        ({
            let before = rendered(db);
            let comma = if db.len() == 0 {
                Seq::<char>::empty()
            } else {
                seq![',']
            };
            rendered(db.push((name, values))) == before.subrange(0, before.len() - 2) + comma + seq![
                '"',
            ] + escaped(name) + seq!['"', ':', '['] + joined(values) + seq![']', '}', '\n']
        }),
{
    let empty = Seq::<(Seq<char>, Seq<Seq<char>>)>::empty();
    let more = db.push((name, values));
    let n = db.len() as int;
    assert(rendered(empty) =~= seq!['{', '}', '\n']);
    lemma_entries_same(db, more, n);
    assert(rendered(more) =~= rendered(db).subrange(0, rendered(db).len() - 2) + (if n == 0 {
        Seq::<char>::empty()
    } else {
        seq![',']
    }) + seq!['"'] + escaped(name) + seq!['"', ':', '['] + joined(values) + seq![']', '}', '\n']);
}

/// Literals are written in their order, with commas between.
pub proof fn law_literals_are_written_in_a_row(values: Seq<Seq<char>>, literal: Seq<char>)
    ensures
        joined(values.push(literal)) == if values.len() == 0 {
            literal
        } else {
            joined(values) + seq![','] + literal
        },
{
    let more = values.push(literal);
    assert(more.subrange(0, more.len() - 1) =~= values);
}

proof fn lemma_entries_same(
    a: Seq<(Seq<char>, Seq<Seq<char>>)>,
    b: Seq<(Seq<char>, Seq<Seq<char>>)>,
    n: int,
)
    requires
        n <= a.len(),
        n <= b.len(),
        forall|i: int| 0 <= i < n ==> #[trigger] a[i] == b[i],
    ensures
        entries_text(a, n) == entries_text(b, n),
    decreases n,
{
    if n > 1 {
        lemma_entries_same(a, b, n - 1);
        assert(a[n - 1] == b[n - 1]);
    } else if n == 1 {
        assert(a[0] == b[0]);
    }
}

} // verus!
