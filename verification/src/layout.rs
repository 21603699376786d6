//! Documents of the embedding database with white space between their tokens,
//! with names that occur more than once, and with a spoilt entry.
use vstd::prelude::*;
use vstd::utf8::encode_utf8;

use crate::embeddings::{
    enrolled, inserted, law_insert_is_map_insert, name_map, names_distinct, EMBEDDING_DIM,
};
use crate::escape::{escaped, law_unescape_undoes_escape, unescaped};
use crate::json::{
    closing_bracket, closing_quote, components, entries_text, first_fault, joined,
    lemma_bracket_behind, lemma_entries_lead_on, lemma_entries_prefix,
    lemma_joined_has_no_brackets, lemma_no_fault, lemma_parts_in_order, lemma_quote_behind_name,
    lemma_split_joined, literal_fault, no_brackets, no_commas, parsed, parsed_entries, parsed_entry,
    skip_separators, skip_white, storable,
};
use crate::literal::{float_literal, lemma_literal_chars};
use crate::text::{
    ascii_white_space, decimal, lemma_trim_fixed, trim, trim_end, trim_start, white_space,
};

verus! {

/// Nothing but white space within ASCII.
pub open spec fn blank(s: Seq<char>) -> bool {
    forall|i: int| 0 <= i < s.len() ==> ascii_white_space(#[trigger] s[i])
}

/// A text that can stand between the quotes of a key: none of its characters
/// ends the string.
pub open spec fn key_text(s: Seq<char>) -> bool {
    closing_quote(s.push('"'), 0) == s.len()
}

/// A component with the white space around it.
pub struct Component {
    pub before: Seq<char>,
    pub literal: Seq<char>,
    pub behind: Seq<char>,
}

/// An entry with the white space around its tokens.
pub struct Entry {
    pub before_key: Seq<char>,
    /// What stands between the quotes.
    pub key: Seq<char>,
    pub behind_key: Seq<char>,
    pub behind_colon: Seq<char>,
    pub values: Seq<Component>,
    pub behind: Seq<char>,
}

/// A document with the white space around its tokens.
pub struct Layout {
    pub before: Seq<char>,
    pub behind_brace: Seq<char>,
    pub entries: Seq<Entry>,
    pub behind: Seq<char>,
}

impl Component {
    pub open spec fn text(self) -> Seq<char> {
        self.before + self.literal + self.behind
    }

    /// White space around a literal of a floating-point number.
    pub open spec fn valid(self) -> bool {
        blank(self.before) && float_literal(self.literal) && blank(self.behind)
    }
}

impl Entry {
    /// The name that the key stands for.
    pub open spec fn name(self) -> Seq<char> {
        unescaped(self.key)
    }

    /// The literals alone.
    pub open spec fn literals(self) -> Seq<Seq<char>> {
        self.values.map_values(|c: Component| c.literal)
    }

    /// The components with their white space.
    pub open spec fn padded(self) -> Seq<Seq<char>> {
        self.values.map_values(|c: Component| c.text())
    }

    /// From the opening quote to the closing bracket.
    pub open spec fn tokens(self) -> Seq<char> {
        seq!['"'] + self.key + seq!['"'] + self.behind_key + seq![':'] + self.behind_colon
            + seq!['['] + joined(self.padded()) + seq![']']
    }

    pub open spec fn text(self) -> Seq<char> {
        self.before_key + self.tokens() + self.behind
    }

    /// White space between a key and an embedding of literals.
    pub open spec fn valid(self) -> bool {
        &&& blank(self.before_key) && blank(self.behind_key) && blank(self.behind_colon) && blank(
            self.behind,
        )
        &&& key_text(self.key)
        &&& self.values.len() == EMBEDDING_DIM
        &&& forall|j: int| 0 <= j < self.values.len() ==> (#[trigger] self.values[j]).valid()
    }
}

/// The entries from the `k`th on, with commas between them.
pub open spec fn laid(entries: Seq<Entry>, k: int) -> Seq<char>
    decreases entries.len() - k,
{
    if k < 0 || k >= entries.len() {
        Seq::empty()
    } else if k + 1 == entries.len() {
        entries[k].text()
    } else {
        entries[k].text() + seq![','] + laid(entries, k + 1)
    }
}

pub open spec fn all_valid(entries: Seq<Entry>) -> bool {
    forall|k: int| 0 <= k < entries.len() ==> (#[trigger] entries[k]).valid()
}

impl Layout {
    pub open spec fn text(self) -> Seq<char> {
        self.before + (seq!['{'] + (self.behind_brace + laid(self.entries, 0)) + seq!['}'])
            + self.behind
    }

    /// White space around valid entries.
    pub open spec fn valid(self) -> bool {
        &&& blank(self.before) && blank(self.behind_brace) && blank(self.behind)
        &&& all_valid(self.entries)
    }
}

/// The database after the first `n` entries, each in its turn.
pub open spec fn gathered(entries: Seq<Entry>, n: int) -> Seq<(Seq<char>, Seq<Seq<char>>)>
    decreases n,
{
    if n <= 0 {
        Seq::empty()
    } else {
        inserted(gathered(entries, n - 1), entries[n - 1].name(), entries[n - 1].literals())
    }
}

/// One of the first `n` entries has that name.
pub open spec fn named(entries: Seq<Entry>, n: int, name: Seq<char>) -> bool {
    exists|i: int| 0 <= i < n && (#[trigger] entries[i]).name() == name
}

/// None of the first `n` entries behind the `i`th has the same name.
pub open spec fn last_of_its_name(entries: Seq<Entry>, i: int, n: int) -> bool {
    forall|j: int| i < j < n ==> (#[trigger] entries[j]).name() != entries[i].name()
}

// ---------------------------------------------------------------------------
// White space
// ---------------------------------------------------------------------------

proof fn lemma_trim_start(a: Seq<char>, s: Seq<char>)
    requires
        blank(a),
    ensures
        trim_start(a + s) == trim_start(s),
    decreases a.len(),
{
    if a.len() == 0 {
        assert(a + s =~= s);
    } else {
        let rest = a.subrange(1, a.len() as int);
        let whole = a + s;
        assert(ascii_white_space(a[0]));
        assert(whole[0] == a[0]);
        assert(whole.subrange(1, whole.len() as int) =~= rest + s);
        assert forall|i: int| 0 <= i < rest.len() implies ascii_white_space(#[trigger] rest[i]) by {
            assert(rest[i] == a[i + 1]);
        }
        lemma_trim_start(rest, s);
    }
}

proof fn lemma_trim_end(s: Seq<char>, b: Seq<char>)
    requires
        blank(b),
    ensures
        trim_end(s + b) == trim_end(s),
    decreases b.len(),
{
    if b.len() == 0 {
        assert(s + b =~= s);
    } else {
        let rest = b.subrange(0, b.len() - 1);
        let whole = s + b;
        assert(ascii_white_space(b[b.len() - 1]));
        assert(whole[whole.len() - 1] == b[b.len() - 1]);
        assert(whole.subrange(0, whole.len() - 1) =~= s + rest);
        assert forall|i: int| 0 <= i < rest.len() implies ascii_white_space(#[trigger] rest[i]) by {
            assert(rest[i] == b[i]);
        }
        lemma_trim_end(s, rest);
    }
}

/// White space around a text is trimmed off, and nothing else.
proof fn lemma_trim_around(a: Seq<char>, s: Seq<char>, b: Seq<char>)
    requires
        blank(a),
        blank(b),
        s.len() > 0 ==> !white_space(s[0]) && !white_space(s[s.len() - 1]),
    ensures
        trim(a + s + b) == s,
{
    assert(a + s + b =~= a + (s + b));
    lemma_trim_start(a, s + b);
    lemma_trim_end(s, b);
    if s.len() == 0 {
        let e = Seq::<char>::empty();
        assert(s + b =~= b + e);
        lemma_trim_start(b, e);
        assert(trim_start(e) =~= e);
        assert(trim_end(e) =~= e);
        assert(s =~= e);
    } else {
        assert((s + b)[0] == s[0]);
        assert(trim_start(s + b) == s + b);
        assert(trim_end(s) == s);
    }
}

proof fn lemma_skip_white_over(s: Seq<char>, pos: int, end: int)
    requires
        0 <= pos <= end < s.len(),
        forall|i: int| pos <= i < end ==> ascii_white_space(#[trigger] s[i]),
        !ascii_white_space(s[end]),
    ensures
        skip_white(s, pos) == end,
    decreases end - pos,
{
    if pos < end {
        lemma_skip_white_over(s, pos + 1, end);
    }
}

proof fn lemma_skip_separators_over(s: Seq<char>, pos: int, end: int)
    requires
        0 <= pos <= end <= s.len(),
        forall|i: int| pos <= i < end ==> #[trigger] s[i] == ',' || ascii_white_space(s[i]),
    ensures
        skip_separators(s, pos) == skip_separators(s, end),
    decreases end - pos,
{
    if pos < end {
        lemma_skip_separators_over(s, pos + 1, end);
    }
}

/// Where reading goes on does not depend on the separators before it.
proof fn lemma_entries_behind(
    s: Seq<char>,
    pos: int,
    end: int,
    db: Seq<(Seq<char>, Seq<Seq<char>>)>,
)
    requires
        0 <= pos <= end <= s.len(),
        forall|i: int| pos <= i < end ==> #[trigger] s[i] == ',' || ascii_white_space(s[i]),
    ensures
        parsed_entries(s, pos, db) == parsed_entries(s, end, db),
{
    lemma_skip_separators_over(s, pos, end);
    lemma_parts_in_order(s, pos);
    lemma_parts_in_order(s, end);
}

// ---------------------------------------------------------------------------
// One entry
// ---------------------------------------------------------------------------

/// The quote behind a key closes it, wherever it stands.
proof fn lemma_quote_behind_key(s: Seq<char>, at: int, key: Seq<char>, i: int)
    requires
        0 <= at,
        0 <= i <= key.len(),
        at + key.len() < s.len(),
        s.subrange(at, at + key.len()) == key,
        s[at + key.len()] == '"',
        closing_quote(key.push('"'), i) == key.len(),
    ensures
        closing_quote(s, at + i) == at + key.len(),
    decreases key.len() - i,
{
    let k = key.push('"');
    assert(s[at + i] == k[i]) by {
        if i < key.len() {
            assert(s.subrange(at, at + key.len())[i] == s[at + i]);
        }
    }
    if i < key.len() {
        if k[i] == '\\' {
            if i + 2 <= key.len() {
                lemma_quote_behind_key(s, at, key, i + 2);
            } else {
                assert(closing_quote(k, i + 2) == k.len());
            }
        } else if k[i] != '"' {
            lemma_quote_behind_key(s, at, key, i + 1);
        }
    }
}

/// A padded embedding holds no brackets and splits into its literals.
proof fn lemma_padded(e: Entry)
    requires
        e.valid(),
    ensures
        no_brackets(joined(e.padded())),
        components(joined(e.padded())) == e.literals(),
        forall|j: int| 0 <= j < e.literals().len() ==> float_literal(#[trigger] e.literals()[j]),
{
    let v = e.padded();
    assert forall|j: int| 0 <= j < v.len() implies no_commas(#[trigger] v[j]) && no_brackets(v[j])
        && trim(v[j]) == e.literals()[j] by {
        let c = e.values[j];
        assert(c.valid());
        lemma_literal_chars(c.literal);
        let (a, b) = (c.before.len() as int, (c.before + c.literal).len() as int);
        assert forall|i: int| 0 <= i < v[j].len() implies #[trigger] v[j][i] != ',' && v[j][i]
            != '[' && v[j][i] != ']' by {
            if i < a {
                assert(v[j][i] == c.before[i]);
            } else if i < b {
                assert(v[j][i] == c.literal[i - a]);
            } else {
                assert(v[j][i] == c.behind[i - b]);
            }
        }
        lemma_trim_around(c.before, c.literal, c.behind);
    }
    lemma_split_joined(v);
    lemma_joined_has_no_brackets(v);
    assert(components(joined(v)) =~= e.literals());
    assert forall|j: int| 0 <= j < e.literals().len() implies float_literal(
        #[trigger] e.literals()[j],
    ) by {
        assert(e.values[j].valid());
    }
}

/// An entry that stands at `at` is read as its name and its literals.
proof fn lemma_tokens_are_read(s: Seq<char>, at: int, e: Entry)
    requires
        e.valid(),
        0 <= at,
        at + e.tokens().len() <= s.len(),
        s.subrange(at, at + e.tokens().len()) == e.tokens(),
    ensures
        s[at] == '"',
        parsed_entry(s, at + 1) == Ok::<_, Seq<char>>(
            (e.name(), e.literals(), at + e.tokens().len()),
        ),
{
    let tokens = e.tokens();
    let body = joined(e.padded());
    let (nk, nb, nc, nv) = (
        e.key.len() as int,
        e.behind_key.len() as int,
        e.behind_colon.len() as int,
        body.len() as int,
    );
    let quote = at + 1 + nk;
    let colon = quote + 1 + nb;
    let open = colon + 1 + nc;
    let close = open + 1 + nv;
    assert forall|i: int| 0 <= i < tokens.len() implies s[at + i] == #[trigger] tokens[i] by {
        assert(s.subrange(at, at + tokens.len())[i] == s[at + i]);
    }
    assert(tokens[0] == '"' && s[at + 0] == tokens[0]);
    assert(tokens[1 + nk] == '"' && s[at + (1 + nk)] == tokens[1 + nk]);
    assert(tokens[2 + nk + nb] == ':' && s[at + (2 + nk + nb)] == tokens[2 + nk + nb]);
    assert(tokens[3 + nk + nb + nc] == '[' && s[at + (3 + nk + nb + nc)] == tokens[3 + nk + nb + nc]);
    assert(tokens[4 + nk + nb + nc + nv] == ']' && s[at + (4 + nk + nb + nc + nv)] == tokens[4 + nk
        + nb + nc + nv]);
    assert(s.subrange(at + 1, quote) =~= e.key) by {
        assert forall|i: int| 0 <= i < nk implies s[at + 1 + i] == e.key[i] by {
            assert(s[at + (1 + i)] == tokens[1 + i]);
        }
    }
    assert forall|i: int| quote + 1 <= i < colon implies ascii_white_space(#[trigger] s[i]) by {
        assert(s[at + (i - at)] == tokens[i - at]);
        assert(tokens[i - at] == e.behind_key[i - quote - 1]);
    }
    assert forall|i: int| colon + 1 <= i < open implies ascii_white_space(#[trigger] s[i]) by {
        assert(s[at + (i - at)] == tokens[i - at]);
        assert(tokens[i - at] == e.behind_colon[i - colon - 1]);
    }
    assert forall|i: int| open + 1 <= i < close implies #[trigger] s[i] == body[i - open - 1] by {
        assert(s[at + (i - at)] == tokens[i - at]);
    }
    lemma_quote_behind_key(s, at + 1, e.key, 0);
    lemma_skip_white_over(s, quote + 1, colon);
    lemma_skip_white_over(s, colon + 1, open);
    lemma_padded(e);
    assert forall|i: int| open + 1 <= i < close implies #[trigger] s[i] != '[' && s[i] != ']' by {
        assert(body[i - open - 1] != '[');
    }
    lemma_bracket_behind(s, open + 1, close);
    assert(s.subrange(open + 1, close) =~= body);
    lemma_no_fault(e.literals());
}

// ---------------------------------------------------------------------------
// All entries
// ---------------------------------------------------------------------------

/// An entry that stands at `pos`, white space and all, is read and entered.
proof fn lemma_entry_is_entered(
    s: Seq<char>,
    pos: int,
    e: Entry,
    db: Seq<(Seq<char>, Seq<Seq<char>>)>,
)
    requires
        e.valid(),
        0 <= pos,
        pos + e.text().len() <= s.len(),
        s.subrange(pos, pos + e.text().len()) == e.text(),
    ensures
        parsed_entries(s, pos, db) == parsed_entries(
            s,
            pos + e.text().len(),
            inserted(db, e.name(), e.literals()),
        ),
{
    let text = e.text();
    let tokens = e.tokens();
    let (a, b, c) = (e.before_key.len() as int, tokens.len() as int, e.behind.len() as int);
    let at = pos + a;
    let next = at + b;
    let end = next + c;
    assert(text.len() == a + b + c);
    assert forall|i: int| 0 <= i < text.len() implies s[pos + i] == #[trigger] text[i] by {
        assert(s.subrange(pos, pos + text.len())[i] == s[pos + i]);
    }
    assert forall|i: int| pos <= i < at implies #[trigger] s[i] == ',' || ascii_white_space(
        s[i],
    ) by {
        assert(s[pos + (i - pos)] == text[i - pos]);
        assert(text[i - pos] == e.before_key[i - pos]);
    }
    assert(s.subrange(at, next) =~= tokens) by {
        assert forall|i: int| 0 <= i < b implies s[at + i] == tokens[i] by {
            assert(s[pos + (a + i)] == text[a + i]);
            assert(text[a + i] == tokens[i]);
        }
    }
    assert forall|i: int| next <= i < end implies #[trigger] s[i] == ',' || ascii_white_space(
        s[i],
    ) by {
        assert(s[pos + (i - pos)] == text[i - pos]);
        assert(text[i - pos] == e.behind[i - next]);
    }
    let after = inserted(db, e.name(), e.literals());
    lemma_entries_behind(s, pos, at, db);
    lemma_tokens_are_read(s, at, e);
    lemma_parts_in_order(s, at);
    assert(skip_separators(s, at) == at);
    assert(parsed_entries(s, at, db) == parsed_entries(s, next, after));
    lemma_entries_behind(s, next, end, after);
}

/// Where the entries from the `k`th on end the text, they are read.
proof fn lemma_laid_is_read(s: Seq<char>, pos: int, entries: Seq<Entry>, k: int)
    requires
        all_valid(entries),
        0 <= k <= entries.len(),
        0 <= pos <= s.len(),
        s.subrange(pos, s.len() as int) == laid(entries, k),
    ensures
        parsed_entries(s, pos, gathered(entries, k)) == Ok::<_, Seq<char>>(
            gathered(entries, entries.len() as int),
        ),
    decreases entries.len() - k,
{
    let text = laid(entries, k);
    assert(text.len() == s.len() - pos);
    if k < entries.len() {
        let e = entries[k];
        let n = e.text().len() as int;
        let rest = laid(entries, k + 1);
        assert(e.valid());
        assert forall|i: int| 0 <= i < text.len() implies s[pos + i] == #[trigger] text[i] by {
            assert(s.subrange(pos, s.len() as int)[i] == s[pos + i]);
        }
        assert(text.subrange(0, n) =~= e.text());
        assert(s.subrange(pos, pos + n) =~= text.subrange(0, n));
        lemma_entry_is_entered(s, pos, e, gathered(entries, k));
        if k + 1 < entries.len() {
            assert(text =~= e.text() + seq![','] + rest);
            assert(text[n] == ',' && s[pos + n] == text[n]);
            lemma_entries_behind(s, pos + n, pos + n + 1, gathered(entries, k + 1));
            assert(s.subrange(pos + n + 1, s.len() as int) =~= rest) by {
                assert forall|i: int| 0 <= i < rest.len() implies s[pos + n + 1 + i] == rest[i] by {
                    assert(s[pos + (n + 1 + i)] == text[n + 1 + i]);
                }
            }
            lemma_laid_is_read(s, pos + n + 1, entries, k + 1);
        } else {
            assert(s.subrange(pos + n, s.len() as int) =~= rest);
            lemma_laid_is_read(s, pos + n, entries, k + 1);
        }
    }
}

/// The entries without the white space at both ends of them.
spec fn stripped(entries: Seq<Entry>) -> Seq<Entry> {
    let n = entries.len();
    let front = entries.update(0, Entry { before_key: Seq::empty(), ..entries[0] });
    front.update(n - 1, Entry { behind: Seq::empty(), ..front[n - 1] })
}

proof fn lemma_laid_without_behind(entries: Seq<Entry>, bare: Seq<Entry>, k: int)
    requires
        0 <= k < entries.len(),
        bare.len() == entries.len(),
        forall|i: int| k <= i < entries.len() - 1 ==> #[trigger] bare[i] == entries[i],
        bare[entries.len() - 1] == (Entry {
            behind: Seq::empty(),
            ..entries[entries.len() - 1]
        }),
    ensures
        laid(bare, k) + entries[entries.len() - 1].behind == laid(entries, k),
        laid(bare, k).len() > 0,
        laid(bare, k)[laid(bare, k).len() - 1] == ']',
    decreases entries.len() - k,
{
    let last = entries[entries.len() - 1];
    if k + 1 == entries.len() {
        assert(bare[k].tokens() == last.tokens());
        assert(laid(bare, k) + last.behind =~= laid(entries, k));
        assert(laid(bare, k) =~= last.before_key + last.tokens());
    } else {
        lemma_laid_without_behind(entries, bare, k + 1);
        assert(bare[k] == entries[k]);
        assert(laid(bare, k) + last.behind =~= laid(entries, k));
        let rest = laid(bare, k + 1);
        assert(laid(bare, k)[laid(bare, k).len() - 1] == rest[rest.len() - 1]);
    }
}

/// White space at both ends of the entries is all that trimming takes off.
proof fn lemma_stripped(entries: Seq<Entry>)
    requires
        entries.len() > 0,
        all_valid(entries),
    ensures
        all_valid(stripped(entries)),
        gathered(stripped(entries), entries.len() as int) == gathered(
            entries,
            entries.len() as int,
        ),
        ({
            let s = laid(stripped(entries), 0);
            &&& laid(entries, 0) == entries[0].before_key + s + entries[entries.len() - 1].behind
            &&& s.len() > 0 && s[0] == '"' && s[s.len() - 1] == ']'
        }),
{
    let n = entries.len() as int;
    let first = entries[0];
    let front = entries.update(0, Entry { before_key: Seq::empty(), ..first });
    let bare = stripped(entries);
    assert(first.valid() && entries[n - 1].valid());
    assert forall|k: int| 0 <= k < n implies (#[trigger] bare[k]).valid() && bare[k].name()
        == entries[k].name() && bare[k].literals() == entries[k].literals() by {
        assert(entries[k].valid());
    }
    lemma_gathered_same(bare, entries, n);
    lemma_laid_without_behind(front, bare, 0);
    assert(front[n - 1].behind == entries[n - 1].behind);
    assert(front[0].tokens() == first.tokens());
    lemma_laid_same(entries, front, 1);
    assert(laid(entries, 0) =~= first.before_key + laid(front, 0));
    let s = laid(bare, 0);
    assert(first.before_key + laid(front, 0) =~= first.before_key + s + entries[n - 1].behind);
    assert(bare[0].tokens() == first.tokens());
    assert(s[0] == bare[0].text()[0]);
    assert(bare[0].text()[0] == first.tokens()[0]);
}

proof fn lemma_laid_same(a: Seq<Entry>, b: Seq<Entry>, k: int)
    requires
        a.len() == b.len(),
        0 <= k,
        forall|i: int| k <= i < a.len() ==> #[trigger] a[i] == b[i],
    ensures
        laid(a, k) == laid(b, k),
    decreases a.len() - k,
{
    if k < a.len() {
        lemma_laid_same(a, b, k + 1);
        assert(a[k] == b[k]);
    }
}

proof fn lemma_gathered_same(a: Seq<Entry>, b: Seq<Entry>, n: int)
    requires
        n <= a.len() && n <= b.len(),
        forall|i: int|
            0 <= i < n ==> (#[trigger] a[i]).name() == b[i].name() && a[i].literals()
                == b[i].literals(),
    ensures
        gathered(a, n) == gathered(b, n),
    decreases n,
{
    if n > 0 {
        lemma_gathered_same(a, b, n - 1);
        assert(a[n - 1].name() == b[n - 1].name());
    }
}

// ---------------------------------------------------------------------------
// Laws
// ---------------------------------------------------------------------------

/// A document is read as its entries in their order, each with the name that
/// its key stands for and its literals as they are written, whatever white
/// space stands around the tokens.
pub proof fn law_layout_is_read(layout: Layout)
    requires
        layout.valid(),
    ensures
        parsed(layout.text()) == Ok::<_, Seq<char>>(
            gathered(layout.entries, layout.entries.len() as int),
        ),
{
    let entries = layout.entries;
    let body = layout.behind_brace + laid(entries, 0);
    let doc = seq!['{'] + body + seq!['}'];
    lemma_trim_around(layout.before, doc, layout.behind);
    assert(doc.subrange(1, doc.len() - 1) =~= body);
    let e = Seq::<char>::empty();
    if entries.len() == 0 {
        assert(body =~= layout.behind_brace + e + e);
        lemma_trim_around(layout.behind_brace, e, e);
        assert(skip_separators(e, 0) == 0);
    } else {
        let n = entries.len() as int;
        let bare = stripped(entries);
        let s = laid(bare, 0);
        lemma_stripped(entries);
        let front = layout.behind_brace + entries[0].before_key;
        let behind = entries[n - 1].behind;
        assert(entries[0].valid() && entries[n - 1].valid());
        assert(blank(front)) by {
            assert forall|i: int| 0 <= i < front.len() implies ascii_white_space(
                #[trigger] front[i],
            ) by {
                if i < layout.behind_brace.len() {
                    assert(front[i] == layout.behind_brace[i]);
                } else {
                    assert(front[i] == entries[0].before_key[i - layout.behind_brace.len()]);
                }
            }
        }
        assert(body =~= front + s + behind);
        lemma_trim_around(front, s, behind);
        assert(s.subrange(0, s.len() as int) =~= s);
        lemma_laid_is_read(s, 0, bare, 0);
    }
}

/// White space around the tokens has no influence: two documents of the same
/// names and literals in the same order are read alike.
pub proof fn law_white_space_has_no_influence(a: Layout, b: Layout)
    requires
        a.valid(),
        b.valid(),
        a.entries.len() == b.entries.len(),
        forall|i: int|
            0 <= i < a.entries.len() ==> (#[trigger] a.entries[i]).name() == b.entries[i].name()
                && a.entries[i].literals() == b.entries[i].literals(),
    ensures
        parsed(a.text()) == parsed(b.text()),
{
    law_layout_is_read(a);
    law_layout_is_read(b);
    lemma_gathered_same(a.entries, b.entries, a.entries.len() as int);
}

/// Of the entries of one name the last one counts, and no other name is there.
pub proof fn law_last_entry_counts(entries: Seq<Entry>)
    ensures
        ({
            let db = gathered(entries, entries.len() as int);
            &&& names_distinct(db)
            &&& forall|name: Seq<char>| #[trigger]
                enrolled(db, name) <==> named(entries, entries.len() as int, name)
            &&& forall|i: int|
                0 <= i < entries.len() && #[trigger] last_of_its_name(
                    entries,
                    i,
                    entries.len() as int,
                ) ==> name_map(db)[entries[i].name()] == entries[i].literals()
        }),
{
    let n = entries.len() as int;
    let db = gathered(entries, n);
    lemma_gathered_distinct(entries, n);
    assert forall|name: Seq<char>| #[trigger] enrolled(db, name) <==> named(entries, n, name) by {
        lemma_gathered_names(entries, n, name);
    }
    assert forall|i: int| 0 <= i < n && #[trigger] last_of_its_name(entries, i, n) implies name_map(
        db,
    )[entries[i].name()] == entries[i].literals() by {
        lemma_gathered_last(entries, n, i);
    }
}

proof fn lemma_gathered_distinct(entries: Seq<Entry>, n: int)
    ensures
        names_distinct(gathered(entries, n)),
    decreases n,
{
    if n > 0 {
        let before = gathered(entries, n - 1);
        lemma_gathered_distinct(entries, n - 1);
        law_insert_is_map_insert(before, entries[n - 1].name(), entries[n - 1].literals());
    }
}

proof fn lemma_gathered_names(entries: Seq<Entry>, n: int, name: Seq<char>)
    ensures
        enrolled(gathered(entries, n), name) <==> named(entries, n, name),
    decreases n,
{
    if n > 0 {
        let before = gathered(entries, n - 1);
        let (key, v) = (entries[n - 1].name(), entries[n - 1].literals());
        lemma_gathered_distinct(entries, n - 1);
        lemma_gathered_names(entries, n - 1, name);
        law_insert_is_map_insert(before, key, v);
        assert(name_map(gathered(entries, n)).dom().contains(name) <==> name_map(before).insert(
            key,
            v,
        ).dom().contains(name));
        if named(entries, n - 1, name) {
            let i = choose|i: int| 0 <= i < n - 1 && (#[trigger] entries[i]).name() == name;
            assert(0 <= i < n && entries[i].name() == name);
        }
        if named(entries, n, name) && key != name {
            let i = choose|i: int| 0 <= i < n && (#[trigger] entries[i]).name() == name;
            assert(0 <= i < n - 1 && entries[i].name() == name);
        }
        assert(entries[n - 1].name() == key);
    }
}

proof fn lemma_gathered_last(entries: Seq<Entry>, n: int, i: int)
    requires
        0 <= i < n,
        last_of_its_name(entries, i, n),
    ensures
        name_map(gathered(entries, n))[entries[i].name()] == entries[i].literals(),
    decreases n,
{
    let before = gathered(entries, n - 1);
    let (key, v) = (entries[n - 1].name(), entries[n - 1].literals());
    lemma_gathered_distinct(entries, n - 1);
    law_insert_is_map_insert(before, key, v);
    if i < n - 1 {
        assert(entries[n - 1].name() != entries[i].name());
        assert(last_of_its_name(entries, i, n - 1));
        lemma_gathered_last(entries, n - 1, i);
    }
}

/// Every name has a key that stands for it: its escaped form.
pub proof fn law_escaped_name_is_key(name: Seq<char>)
    ensures
        key_text(escaped(name)),
        unescaped(escaped(name)) == name,
{
    let e = escaped(name);
    let s = e.push('"');
    assert(s.subrange(0, e.len() as int) =~= e);
    lemma_quote_behind_name(s, 0, name);
    law_unescape_undoes_escape(name);
}

// ---------------------------------------------------------------------------
// Refusals
// ---------------------------------------------------------------------------

/// The entries of a database, as they are written, and a further one.
pub open spec fn listed(db: Seq<(Seq<char>, Seq<Seq<char>>)>, tail: Seq<char>) -> Seq<char> {
    if db.len() == 0 {
        tail
    } else {
        entries_text(db, db.len() as int) + seq![','] + tail
    }
}

/// The document of a database with a further entry behind the others.
pub open spec fn continued(db: Seq<(Seq<char>, Seq<Seq<char>>)>, tail: Seq<char>) -> Seq<char> {
    seq!['{'] + listed(db, tail) + seq!['}']
}

/// The document is refused with these words.
pub open spec fn refused(document: Seq<char>, why: Seq<char>) -> bool {
    parsed(document) == Err::<Seq<(Seq<char>, Seq<Seq<char>>)>, Seq<char>>(why)
}

/// Begins with no separator and ends with no white space.
pub open spec fn unpadded(tail: Seq<char>) -> bool {
    &&& tail.len() > 0
    &&& tail[0] != ',' && !white_space(tail[0])
    &&& !white_space(tail[tail.len() - 1])
}

/// The entries of the database are read, and then the further one.
proof fn lemma_continued(db: Seq<(Seq<char>, Seq<Seq<char>>)>, tail: Seq<char>)
    requires
        storable(db),
        unpadded(tail),
    ensures
        ({
            let s = listed(db, tail);
            let at = s.len() - tail.len();
            &&& parsed(continued(db, tail)) == parsed_entries(s, at, db)
            &&& at >= 0
            &&& s.subrange(at, s.len() as int) == tail
            &&& skip_separators(s, at) == at
            &&& s[at] == tail[0]
        }),
{
    let n = db.len() as int;
    let s = listed(db, tail);
    let at = s.len() - tail.len();
    let doc = continued(db, tail);
    let e = Seq::<(Seq<char>, Seq<Seq<char>>)>::empty();
    lemma_trim_fixed(doc);
    assert(doc.subrange(1, doc.len() - 1) =~= s);
    assert(s.subrange(at, s.len() as int) =~= tail);
    assert(s[s.len() - 1] == tail[tail.len() - 1]);
    assert(s[at] == tail[0]);
    if n == 0 {
        lemma_trim_fixed(s);
        assert(db =~= e);
    } else {
        let head = entries_text(db, n);
        lemma_entries_prefix(db, 1, n);
        let first = entries_text(db, 1);
        assert(head.subrange(0, first.len() as int)[0] == first[0]);
        assert(s[0] == head[0]);
        lemma_trim_fixed(s);
        assert(s.subrange(0, head.len() as int) =~= head);
        lemma_entries_lead_on(s, db, 0);
        assert(db.subrange(0, 0) =~= e);
        assert(s[head.len() as int] == ',');
        assert(skip_separators(s, head.len() as int) == skip_separators(s, at));
    }
}

/// The name behind an opening quote is read.
proof fn lemma_name(s: Seq<char>, at: int, tail: Seq<char>, name: Seq<char>, rest: Seq<char>)
    requires
        0 <= at < s.len(),
        s.subrange(at, s.len() as int) == tail,
        tail == seq!['"'] + escaped(name) + seq!['"'] + rest,
    ensures
        ({
            let quote = at + 1 + escaped(name).len();
            &&& closing_quote(s, at + 1) == quote
            &&& unescaped(s.subrange(at + 1, quote)) == name
            &&& quote + 1 + rest.len() == s.len()
            &&& forall|i: int| 0 <= i < rest.len() ==> s[quote + 1 + i] == #[trigger] rest[i]
        }),
{
    let key = escaped(name);
    let quote = at + 1 + key.len();
    assert(s.subrange(at, s.len() as int).len() == s.len() - at);
    assert(tail.len() == 2 + key.len() + rest.len());
    assert forall|i: int| 0 <= i < tail.len() implies s[at + i] == #[trigger] tail[i] by {
        assert(s.subrange(at, s.len() as int)[i] == s[at + i]);
    }
    assert(s.subrange(at + 1, quote) =~= key) by {
        assert forall|i: int| 0 <= i < key.len() implies s[at + 1 + i] == key[i] by {
            assert(s[at + (1 + i)] == tail[1 + i]);
        }
    }
    assert(s[at + (1 + key.len())] == tail[1 + key.len() as int]);
    lemma_quote_behind_name(s, at + 1, name);
    law_unescape_undoes_escape(name);
    assert forall|i: int| 0 <= i < rest.len() implies s[quote + 1 + i] == #[trigger] rest[i] by {
        assert(s[at + (2 + key.len() + i)] == tail[2 + key.len() + i]);
    }
}

/// Without a quote there is none that closes.
proof fn lemma_no_quote(s: Seq<char>, pos: int)
    requires
        0 <= pos,
        forall|i: int| pos <= i < s.len() ==> #[trigger] s[i] != '"',
    ensures
        closing_quote(s, pos) >= s.len(),
    decreases s.len() - pos,
{
    if pos < s.len() {
        if s[pos] == '\\' && pos + 1 < s.len() {
            lemma_no_quote(s, pos + 2);
        } else {
            lemma_no_quote(s, pos + 1);
        }
    }
}

/// Without a closing bracket there is none that closes.
proof fn lemma_no_bracket(s: Seq<char>, pos: int, depth: int)
    requires
        0 <= pos,
        forall|i: int| pos <= i < s.len() ==> #[trigger] s[i] != ']',
    ensures
        closing_bracket(s, pos, depth) >= s.len(),
    decreases s.len() - pos,
{
    if pos < s.len() {
        if s[pos] == '[' {
            lemma_no_bracket(s, pos + 1, depth + 1);
        } else {
            lemma_no_bracket(s, pos + 1, depth);
        }
    }
}

/// A text that is in no braces is no document, unless it is white space alone.
pub proof fn law_document_stands_in_braces(text: Seq<char>)
    requires
        text.len() > 0,
        !white_space(text[0]) && !white_space(text[text.len() - 1]),
        text[0] != '{' || text[text.len() - 1] != '}' || text.len() == 1,
    ensures
        refused(text, "Invalid embedding JSON: missing outer braces"@),
{
    lemma_trim_fixed(text);
}

/// What stands in the place of an entry, and begins with no quote, is refused;
/// the byte is named at which it stands.
pub proof fn law_entry_begins_with_a_quote(
    db: Seq<(Seq<char>, Seq<Seq<char>>)>,
    tail: Seq<char>,
)
    requires
        storable(db),
        unpadded(tail),
        tail[0] != '"',
    ensures
        ({
            let s = listed(db, tail);
            let before = s.subrange(0, s.len() - tail.len());
            refused(
                continued(db, tail),
                "Invalid embedding JSON at position "@ + decimal(encode_utf8(before).len())
                    + ": expected '\"', found '"@ + seq![encode_utf8(tail)[0] as char] + "'"@,
            )
        }),
{
    lemma_continued(db, tail);
}

/// A key that is not closed is refused.
pub proof fn law_key_ends_with_a_quote(db: Seq<(Seq<char>, Seq<Seq<char>>)>, open: Seq<char>)
    requires
        storable(db),
        forall|i: int| 0 <= i < open.len() ==> #[trigger] open[i] != '"',
        open.len() > 0 ==> !white_space(open[open.len() - 1]),
    ensures
        refused(
            continued(db, seq!['"'] + open),
            "Invalid embedding JSON: unterminated key string"@,
        ),
{
    let tail = seq!['"'] + open;
    let s = listed(db, tail);
    let at = s.len() - tail.len();
    lemma_continued(db, tail);
    assert forall|i: int| at + 1 <= i < s.len() implies #[trigger] s[i] != '"' by {
        assert(s.subrange(at, s.len() as int)[i - at] == s[i]);
        assert(tail[i - at] == open[i - at - 1]);
    }
    lemma_no_quote(s, at + 1);
}

/// A key without a colon behind it is refused, by its name.
pub proof fn law_key_is_followed_by_a_colon(
    db: Seq<(Seq<char>, Seq<Seq<char>>)>,
    name: Seq<char>,
    rest: Seq<char>,
)
    requires
        storable(db),
        rest.len() > 0 ==> rest[0] != ':' && !white_space(rest[0]) && !white_space(
            rest[rest.len() - 1],
        ),
    ensures
        refused(
            continued(db, seq!['"'] + escaped(name) + seq!['"'] + rest),
            "Invalid embedding JSON: expected ':' after key "@ + ("\""@ + name + "\""@),
        ),
{
    let tail = seq!['"'] + escaped(name) + seq!['"'] + rest;
    let s = listed(db, tail);
    let at = s.len() - tail.len();
    let quote = at + 1 + escaped(name).len();
    lemma_continued(db, tail);
    lemma_name(s, at, tail, name, rest);
    if rest.len() > 0 {
        assert(s[quote + 1 + 0] == rest[0]);
    }
    assert(skip_white(s, quote + 1) == quote + 1);
}

/// A key whose value is no array is refused, by its name.
pub proof fn law_value_begins_with_a_bracket(
    db: Seq<(Seq<char>, Seq<Seq<char>>)>,
    name: Seq<char>,
    rest: Seq<char>,
)
    requires
        storable(db),
        rest.len() > 0 ==> rest[0] != '[' && !white_space(rest[0]) && !white_space(
            rest[rest.len() - 1],
        ),
    ensures
        refused(
            continued(db, seq!['"'] + escaped(name) + seq!['"'] + (seq![':'] + rest)),
            "Invalid embedding JSON: expected '[' for value of "@ + ("\""@ + name + "\""@),
        ),
{
    let more = seq![':'] + rest;
    let tail = seq!['"'] + escaped(name) + seq!['"'] + more;
    let s = listed(db, tail);
    let at = s.len() - tail.len();
    let quote = at + 1 + escaped(name).len();
    assert(tail[tail.len() - 1] == more[more.len() - 1]);
    lemma_continued(db, tail);
    lemma_name(s, at, tail, name, more);
    assert(s[quote + 1 + 0] == more[0]);
    assert(skip_white(s, quote + 1) == quote + 1);
    if rest.len() > 0 {
        assert(s[quote + 1 + 1] == more[1]);
    }
    assert(skip_white(s, quote + 2) == quote + 2);
}

/// An array that is not closed is refused, by the name of its key.
pub proof fn law_array_ends_with_a_bracket(
    db: Seq<(Seq<char>, Seq<Seq<char>>)>,
    name: Seq<char>,
    rest: Seq<char>,
)
    requires
        storable(db),
        forall|i: int| 0 <= i < rest.len() ==> #[trigger] rest[i] != ']',
        rest.len() > 0 ==> !white_space(rest[rest.len() - 1]),
    ensures
        refused(
            continued(db, seq!['"'] + escaped(name) + seq!['"'] + (seq![':', '['] + rest)),
            "Invalid embedding JSON: unterminated array for "@ + ("\""@ + name + "\""@),
        ),
{
    let more = seq![':', '['] + rest;
    let tail = seq!['"'] + escaped(name) + seq!['"'] + more;
    let s = listed(db, tail);
    let at = s.len() - tail.len();
    let quote = at + 1 + escaped(name).len();
    assert(tail[tail.len() - 1] == more[more.len() - 1]);
    lemma_continued(db, tail);
    lemma_name(s, at, tail, name, more);
    assert(s[quote + 1 + 0] == more[0]);
    assert(s[quote + 1 + 1] == more[1]);
    assert(skip_white(s, quote + 1) == quote + 1);
    assert(skip_white(s, quote + 2) == quote + 2);
    assert forall|i: int| quote + 3 <= i < s.len() implies #[trigger] s[i] != ']' by {
        assert(s[quote + 1 + (i - quote - 1)] == more[i - quote - 1]);
        assert(more[i - quote - 1] == rest[i - quote - 3]);
    }
    lemma_no_bracket(s, quote + 3, 1);
}

/// The parts of an entry with these components are found at `at`.
spec fn array_found(s: Seq<char>, at: int, name: Seq<char>, read: Seq<Seq<char>>) -> bool {
    let quote = closing_quote(s, at + 1);
    let open = quote + 2;
    let close = closing_bracket(s, open + 1, 1);
    &&& quote < s.len()
    &&& unescaped(s.subrange(at + 1, quote)) == name
    &&& skip_white(s, quote + 1) == quote + 1 && s[quote + 1] == ':'
    &&& skip_white(s, open) == open && open < s.len() && s[open] == '['
    &&& close < s.len()
    &&& components(s.subrange(open + 1, close)) == read
}

proof fn lemma_array(
    s: Seq<char>,
    at: int,
    tail: Seq<char>,
    name: Seq<char>,
    values: Seq<Seq<char>>,
)
    requires
        0 <= at < s.len(),
        s.subrange(at, s.len() as int) == tail,
        tail == seq!['"'] + escaped(name) + seq!['"'] + (seq![':', '['] + joined(values) + seq![
            ']',
        ]),
        values.len() > 0,
        forall|j: int|
            0 <= j < values.len() ==> no_commas(#[trigger] values[j]) && no_brackets(values[j]),
    ensures
        array_found(s, at, name, Seq::new(values.len(), |j: int| trim(values[j]))),
{
    let body = joined(values);
    let more = seq![':', '['] + body + seq![']'];
    let quote = at + 1 + escaped(name).len();
    lemma_name(s, at, tail, name, more);
    assert(s[quote + 1 + 0] == more[0]);
    assert(s[quote + 1 + 1] == more[1]);
    assert(skip_white(s, quote + 1) == quote + 1);
    assert(skip_white(s, quote + 2) == quote + 2);
    let open = quote + 2;
    let close = open + 1 + body.len();
    lemma_joined_has_no_brackets(values);
    assert forall|i: int| open + 1 <= i < close implies #[trigger] s[i] == body[i - open - 1] by {
        assert(s[quote + 1 + (i - quote - 1)] == more[i - quote - 1]);
    }
    assert forall|i: int| open + 1 <= i < close implies #[trigger] s[i] != '[' && s[i] != ']' by {
        assert(body[i - open - 1] != '[');
    }
    assert(s[quote + 1 + (more.len() - 1)] == more[more.len() - 1]);
    lemma_bracket_behind(s, open + 1, close);
    assert(s.subrange(open + 1, close) =~= body);
    lemma_split_joined(values);
    assert(components(body) =~= Seq::new(values.len(), |j: int| trim(values[j])));
}

/// An entry with any components is read up to them.
proof fn lemma_components(
    db: Seq<(Seq<char>, Seq<Seq<char>>)>,
    tail: Seq<char>,
    name: Seq<char>,
    values: Seq<Seq<char>>,
)
    requires
        storable(db),
        tail == seq!['"'] + escaped(name) + seq!['"'] + (seq![':', '['] + joined(values) + seq![
            ']',
        ]),
        values.len() > 0,
        forall|j: int|
            0 <= j < values.len() ==> no_commas(#[trigger] values[j]) && no_brackets(values[j]),
    ensures
        ({
            let s = listed(db, tail);
            let at = s.len() - tail.len();
            &&& parsed(continued(db, tail)) == parsed_entries(s, at, db)
            &&& 0 <= at < s.len() && s[at] == '"'
            &&& skip_separators(s, at) == at
            &&& array_found(s, at, name, Seq::new(values.len(), |j: int| trim(values[j])))
        }),
{
    let s = listed(db, tail);
    assert(tail[tail.len() - 1] == ']');
    lemma_continued(db, tail);
    lemma_array(s, s.len() - tail.len(), tail, name, values);
}

/// The first fault is that of the first component with one.
proof fn lemma_first_fault(v: Seq<Seq<char>>, k: int)
    requires
        0 <= k < v.len(),
        forall|j: int| 0 <= j < k ==> float_literal(#[trigger] v[j]),
        !float_literal(v[k]),
    ensures
        first_fault(v) == literal_fault(v[k]),
    decreases v.len(),
{
    let init = v.subrange(0, v.len() - 1);
    if k < init.len() {
        assert forall|j: int| 0 <= j < k implies float_literal(#[trigger] init[j]) by {
            assert(init[j] == v[j]);
        }
        lemma_first_fault(init, k);
    } else {
        assert forall|j: int| 0 <= j < init.len() implies float_literal(#[trigger] init[j]) by {
            assert(init[j] == v[j]);
        }
        lemma_no_fault(init);
    }
}

/// An embedding with a component that is no number is refused, by the name of its
/// key, with what is wrong with the first such component.
pub proof fn law_components_are_numbers(
    db: Seq<(Seq<char>, Seq<Seq<char>>)>,
    name: Seq<char>,
    values: Seq<Seq<char>>,
    k: int,
)
    requires
        storable(db),
        forall|j: int|
            0 <= j < values.len() ==> no_commas(#[trigger] values[j]) && no_brackets(values[j]),
        0 <= k < values.len(),
        forall|j: int| 0 <= j < k ==> float_literal(trim(#[trigger] values[j])),
        !float_literal(trim(values[k])),
    ensures
        refused(
            continued(
                db,
                seq!['"'] + escaped(name) + seq!['"'] + (seq![':', '['] + joined(values) + seq![
                    ']',
                ]),
            ),
            "Failed to parse embedding for "@ + ("\""@ + name + "\""@) + ": "@ + if trim(
                values[k],
            ).len() == 0 {
                "cannot parse float from empty string"@
            } else {
                "invalid float literal"@
            },
        ),
{
    let read = Seq::new(values.len(), |j: int| trim(values[j]));
    let tail = seq!['"'] + escaped(name) + seq!['"'] + (seq![':', '['] + joined(values) + seq![']']);
    lemma_components(db, tail, name, values);
    assert forall|j: int| 0 <= j < k implies float_literal(#[trigger] read[j]) by {
        assert(read[j] == trim(values[j]));
    }
    lemma_first_fault(read, k);
}

/// An embedding of numbers that has not its dimension is refused, by the name of
/// its key, with the number of its components.
pub proof fn law_embedding_has_its_dimension(
    db: Seq<(Seq<char>, Seq<Seq<char>>)>,
    name: Seq<char>,
    values: Seq<Seq<char>>,
)
    requires
        storable(db),
        forall|j: int|
            0 <= j < values.len() ==> no_commas(#[trigger] values[j]) && no_brackets(values[j])
                && float_literal(trim(values[j])),
        values.len() > 0,
        values.len() != 512,
    ensures
        refused(
            continued(
                db,
                seq!['"'] + escaped(name) + seq!['"'] + (seq![':', '['] + joined(values) + seq![
                    ']',
                ]),
            ),
            "Embedding for "@ + ("\""@ + name + "\""@) + " has "@ + decimal(values.len())
                + " values (expected "@ + decimal(512) + ")"@,
        ),
{
    let read = Seq::new(values.len(), |j: int| trim(values[j]));
    let tail = seq!['"'] + escaped(name) + seq!['"'] + (seq![':', '['] + joined(values) + seq![']']);
    lemma_components(db, tail, name, values);
    assert forall|j: int| 0 <= j < read.len() implies float_literal(#[trigger] read[j]) by {
        assert(read[j] == trim(values[j]));
    }
    lemma_no_fault(read);
}

} // verus!
