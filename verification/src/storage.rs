//! The embedding database as it is stored: a JSON text with six digits behind
//! the point of every component.
use vstd::arithmetic::power2::{lemma_pow2_adds, lemma_pow2_pos, lemma_pow2_strictly_increases, pow2};
use vstd::prelude::*;

use crate::big::ten_to;
use crate::embeddings::{
    enrolled, name_map, names_distinct, EmbeddingDb, Identity, EMBEDDING_DIM,
};
use crate::float::{lemma_parts, magnitude};
use crate::ieee::Binary32;
use crate::json::{
    law_parse_undoes_render, law_parsed_is_storable, literals, parse_document, parsed,
    render_document, rendered, storable, storable_embedding, texts,
};
use crate::layout::{
    gathered, last_of_its_name, law_last_entry_counts, law_layout_is_read,
    law_white_space_has_no_influence, named, Layout,
};
use crate::literal::{digits, float_literal};
use crate::numerals::{
    digits_value, fixed_units, law_text_is_the_nearest_numeral, lemma_written_is_read,
    literal_value, nearest_whole, numeral, push_single, read_literal, rounded_decimal, shortened,
    single_text,
};
use crate::rounding::{
    law_nearest_exists, lemma_error, lemma_even_unit, lemma_multiple_of, lemma_multiple_order,
    lemma_nearest_unique, single,
};
use crate::text::chars_of;

verus! {

/// Digits behind the point of a stored component.
pub const STORED_DIGITS: u32 = 6;

/// The embedding that literals spell.
pub open spec fn spelled(v: Seq<Seq<char>>) -> Seq<Binary32> {
    Seq::new(v.len(), |j: int| literal_value(v[j]))
}

/// The database that literals spell.
pub open spec fn spelled_db(db: Seq<(Seq<char>, Seq<Seq<char>>)>) -> Seq<
    (Seq<char>, Seq<Binary32>),
> {
    Seq::new(db.len(), |i: int| (db[i].0, spelled(db[i].1)))
}

/// The database that a document holds, or what is wrong with it.
pub open spec fn stored(json: Seq<char>) -> Result<Seq<(Seq<char>, Seq<Binary32>)>, Seq<char>> {
    match parsed(json) {
        Ok(db) => Ok(spelled_db(db)),
        Err(why) => Err(why),
    }
}

/// How an embedding is written.
pub open spec fn written(v: Seq<Binary32>) -> Seq<Seq<char>> {
    Seq::new(v.len(), |j: int| single_text(v[j], STORED_DIGITS as nat))
}

/// How the embeddings of a database are written.
pub open spec fn written_db(db: Seq<(Seq<char>, Seq<Binary32>)>) -> Seq<
    (Seq<char>, Seq<Seq<char>>),
> {
    Seq::new(db.len(), |i: int| (db[i].0, written(db[i].1)))
}

/// The embedding that literals spell.
fn spell(values: &Vec<String>) -> (embedding: Vec<Binary32>)
    requires
        storable_embedding(literals(values@)),
    ensures
        embedding@ == spelled(literals(values@)),
{
    let mut embedding: Vec<Binary32> = Vec::new();
    for j in 0..values.len()
        invariant
            storable_embedding(literals(values@)),
            embedding@ == spelled(literals(values@)).take(j as int),
    {
        let chars: Vec<char> = chars_of(values[j].as_str());
        assert(chars@.subrange(0, chars@.len() as int) =~= literals(values@)[j as int]);
        embedding.push(read_literal(&chars, 0, chars.len()));
        assert(embedding@ =~= spelled(literals(values@)).take(j as int + 1));
    }
    assert(embedding@ =~= spelled(literals(values@)));
    embedding
}

/// Read the embedding database from its JSON text.
///
/// Handles escaped characters in names and white space between tokens; an entry
/// replaces an earlier one of the same name.  Every value must be an array of
/// [`EMBEDDING_DIM`] numbers.
pub fn parse_json(json: &str) -> (read: Result<EmbeddingDb<Binary32>, String>)
    ensures
        match read {
            Ok(db) => db.well_formed() && stored(json@) == Ok::<_, Seq<char>>(db@),
            Err(why) => stored(json@) == Err::<Seq<(Seq<char>, Seq<Binary32>)>, _>(why@),
        },
{
    proof {
        law_parsed_is_storable(json@);
    }
    let document: EmbeddingDb<String> = match parse_document(json) {
        Ok(document) => document,
        Err(why) => {
            return Err(why);
        },
    };
    let all: &Vec<Identity<String>> = document.identities();
    let ghost t = texts(document@);
    let ghost want = spelled_db(t);
    let mut db: EmbeddingDb<Binary32> = EmbeddingDb::new();
    assert(db@ =~= want.take(0));
    for i in 0..all.len()
        invariant
            all@.len() == document@.len(),
            forall|k: int|
                0 <= k < all@.len() ==> (#[trigger] all@[k]).name@ == document@[k].0
                    && all@[k].embedding@ == document@[k].1,
            t == texts(document@),
            storable(t),
            want == spelled_db(t),
            db.well_formed(),
            db@ == want.take(i as int),
    {
        assert(t[i as int] == (all@[i as int].name@, literals(all@[i as int].embedding@)));
        let embedding: Vec<Binary32> = spell(&all[i].embedding);
        let ghost before = db@;
        assert(!enrolled(before, t[i as int].0)) by {
            if enrolled(before, t[i as int].0) {
                let j = choose|j: int|
                    0 <= j < before.len() && (#[trigger] before[j]).0 == t[i as int].0;
                assert(t[j].0 == t[i as int].0);
            }
        }
        db.insert(all[i].name.clone(), embedding);
        assert(db@ =~= want.take(i as int + 1));
    }
    assert(want.take(want.len() as int) =~= want);
    Ok(db)
}

/// The embedding database of a file, given what the file holds; an empty one if
/// there is no file.
pub fn load_embeddings(contents: Option<&str>) -> (read: Result<EmbeddingDb<Binary32>, String>)
    ensures
        match read {
            Ok(db) => db.well_formed() && match contents {
                Some(json) => stored(json@) == Ok::<_, Seq<char>>(db@),
                None => db@ == Seq::<(Seq<char>, Seq<Binary32>)>::empty(),
            },
            Err(why) => contents is Some && stored(contents->0@) == Err::<
                Seq<(Seq<char>, Seq<Binary32>)>,
                _,
            >(why@),
        },
{
    match contents {
        Some(json) => parse_json(json),
        None => Ok(EmbeddingDb::new()),
    }
}

/// How an embedding is written.
fn write_out(embedding: &Vec<Binary32>) -> (values: Vec<String>)
    ensures
        literals(values@) == written(embedding@),
{
    let mut values: Vec<String> = Vec::new();
    for j in 0..embedding.len()
        invariant
            literals(values@) == written(embedding@).take(j as int),
    {
        let mut text: String = String::new();
        push_single(&mut text, embedding[j], STORED_DIGITS);
        assert(text@ =~= written(embedding@)[j as int]);
        let ghost before = literals(values@);
        values.push(text);
        assert(literals(values@) =~= before.push(text@));
        assert(literals(values@) =~= written(embedding@).take(j as int + 1));
    }
    assert(literals(values@) =~= written(embedding@));
    values
}

/// Write the embedding database as JSON text.
pub fn render_json(db: &EmbeddingDb<Binary32>) -> (out: String)
    requires
        db.well_formed(),
    ensures
        out@ == rendered(written_db(db@)),
{
    let all: &Vec<Identity<Binary32>> = db.identities();
    let ghost want = written_db(db@);
    let mut document: EmbeddingDb<String> = EmbeddingDb::new();
    assert(texts(document@) =~= want.take(0));
    for i in 0..all.len()
        invariant
            db.well_formed(),
            all@.len() == db@.len(),
            forall|k: int|
                0 <= k < all@.len() ==> (#[trigger] all@[k]).name@ == db@[k].0
                    && all@[k].embedding@ == db@[k].1,
            want == written_db(db@),
            document.well_formed(),
            texts(document@) == want.take(i as int),
    {
        let ghost before = document@;
        let values: Vec<String> = write_out(&all[i].embedding);
        assert(texts(before).len() == i);
        assert(!enrolled(before, db@[i as int].0)) by {
            if enrolled(before, db@[i as int].0) {
                let j = choose|j: int|
                    0 <= j < before.len() && (#[trigger] before[j]).0 == db@[i as int].0;
                assert(texts(before)[j] == want[j]);
                assert(want[j].0 == db@[j].0);
            }
        }
        let ghost v = values@;
        document.insert(all[i].name.clone(), values);
        assert(texts(document@) =~= texts(before).push((db@[i as int].0, literals(v))));
        assert(texts(document@) =~= want.take(i as int + 1));
    }
    assert(want.take(want.len() as int) =~= want);
    render_document(&document)
}

/// The database with every component as near as six digits behind the point
/// come to it.
pub open spec fn shortened_db(db: Seq<(Seq<char>, Seq<Binary32>)>) -> Seq<
    (Seq<char>, Seq<Binary32>),
> {
    Seq::new(
        db.len(),
        |i: int|
            (db[i].0, db[i].1.map_values(|v: Binary32| shortened(v, STORED_DIGITS as nat))),
    )
}

/// What is read of a written database is the database: the same names in the
/// same order, whatever characters they hold, and every component as near as
/// six digits behind the point come to it.
pub proof fn law_read_gives_back_written(db: Seq<(Seq<char>, Seq<Binary32>)>)
    requires
        names_distinct(db),
        forall|i: int| 0 <= i < db.len() ==> (#[trigger] db[i]).1.len() == EMBEDDING_DIM,
    ensures
        stored(rendered(written_db(db))) == Ok::<_, Seq<char>>(shortened_db(db)),
{
    let w = written_db(db);
    assert forall|i: int, j: int| 0 <= i < j < w.len() implies (#[trigger] w[i]).0 != (
    #[trigger] w[j]).0 by {
        assert(db[i].0 != db[j].0);
    }
    assert forall|i: int| 0 <= i < w.len() implies storable_embedding((#[trigger] w[i]).1)
        && spelled(w[i].1) == shortened_db(db)[i].1 by {
        let v = db[i].1;
        assert forall|j: int| 0 <= j < v.len() implies float_literal(#[trigger] written(v)[j])
            && literal_value(written(v)[j]) == shortened(v[j], STORED_DIGITS as nat) by {
            lemma_written_is_read(v[j], STORED_DIGITS as nat);
        }
        assert(spelled(w[i].1) =~= shortened_db(db)[i].1);
    }
    law_parse_undoes_render(w);
    assert(spelled_db(w) =~= shortened_db(db));
}

// --- Documents in any layout

proof fn lemma_spelled_names(db: Seq<(Seq<char>, Seq<Seq<char>>)>, name: Seq<char>)
    requires
        names_distinct(db),
    ensures
        enrolled(spelled_db(db), name) <==> enrolled(db, name),
        enrolled(db, name) ==> name_map(spelled_db(db))[name] == spelled(name_map(db)[name]),
{
    let out = spelled_db(db);
    if enrolled(db, name) {
        let i = choose|i: int| 0 <= i < db.len() && (#[trigger] db[i]).0 == name;
        assert(out[i].0 == name);
        let j = choose|j: int| 0 <= j < out.len() && (#[trigger] out[j]).0 == name;
        assert(db[j].0 == db[i].0);
        assert(i == j);
    }
    if enrolled(out, name) {
        let i = choose|i: int| 0 <= i < out.len() && (#[trigger] out[i]).0 == name;
        assert(db[i].0 == name);
    }
}

/// A document is read whatever white space stands around its tokens: its names
/// are those of its entries, no others, and each has the numbers that the last
/// entry of that name spells.
pub proof fn law_any_layout_is_read(layout: Layout)
    requires
        layout.valid(),
    ensures
        ({
            let entries = layout.entries;
            let n = entries.len() as int;
            stored(layout.text()) matches Ok(db) && {
                &&& names_distinct(db)
                &&& forall|name: Seq<char>| #[trigger]
                    enrolled(db, name) <==> named(entries, n, name)
                &&& forall|i: int|
                    0 <= i < n && #[trigger] last_of_its_name(entries, i, n) ==> name_map(
                        db,
                    )[entries[i].name()] == spelled(entries[i].literals())
            }
        }),
{
    let entries = layout.entries;
    let n = entries.len() as int;
    let read = gathered(entries, n);
    let db = spelled_db(read);
    law_layout_is_read(layout);
    law_last_entry_counts(entries);
    assert forall|i: int, j: int| 0 <= i < j < db.len() implies (#[trigger] db[i]).0 != (
    #[trigger] db[j]).0 by {
        assert(read[i].0 != read[j].0);
    }
    assert forall|name: Seq<char>| #[trigger] enrolled(db, name) <==> named(entries, n, name) by {
        lemma_spelled_names(read, name);
        assert(enrolled(read, name) <==> named(entries, n, name));
    }
    assert forall|i: int| 0 <= i < n && #[trigger] last_of_its_name(entries, i, n) implies name_map(
        db,
    )[entries[i].name()] == spelled(entries[i].literals()) by {
        let name = entries[i].name();
        assert(named(entries, n, name));
        assert(enrolled(read, name));
        lemma_spelled_names(read, name);
    }
}

/// White space around the tokens has no influence on what is read.
pub proof fn law_layout_has_no_influence(a: Layout, b: Layout)
    requires
        a.valid(),
        b.valid(),
        a.entries.len() == b.entries.len(),
        forall|i: int|
            0 <= i < a.entries.len() ==> (#[trigger] a.entries[i]).name() == b.entries[i].name()
                && a.entries[i].literals() == b.entries[i].literals(),
    ensures
        stored(a.text()) == stored(b.text()),
{
    law_white_space_has_no_influence(a, b);
}

// --- Storing again what was read

/// Sixteen, as the fields of a number.
spec fn sixteen() -> nat {
    0x4180_0000
}

proof fn lemma_sixteen()
    ensures
        single().number(sixteen()) == 16 * pow2(149),
        ten_to(6) == 1_000_000,
        pow2(129) * 1_000_000 < pow2(149) < pow2(130) * 1_000_000,
{
    let u = single().unit();
    lemma_even_unit(single());
    reveal_with_fuel(ten_to, 7);
    vstd::arithmetic::power2::lemma2_to64();
    assert(sixteen() % 0x80_0000 == 0 && sixteen() / 0x80_0000 == 131);
    lemma_pow2_adds(23, 130);
    lemma_pow2_adds(4, 149);
    lemma_pow2_adds(129, 20);
    lemma_pow2_adds(130, 19);
    let p = pow2(130);
    assert((u + 0) * p == u * p);
    lemma_pow2_pos(129);
    lemma_pow2_pos(130);
    let q = pow2(129);
    assert(q * 1_000_000 < q * 0x10_0000) by (nonlinear_arith)
        requires
            q > 0,
    ;
    assert(p * 0x8_0000 < p * 1_000_000) by (nonlinear_arith)
        requires
            p > 0,
    ;
}

/// From one number to the next it is small up to sixteen, and great from there.
proof fn lemma_step(fields: nat)
    requires
        fields < single().infinity,
    ensures
        single().number(fields) < single().number(fields + 1),
        fields < sixteen() ==> single().number(fields + 1) - single().number(fields) <= pow2(129),
        fields >= sixteen() ==> single().number(fields + 1) - single().number(fields) >= pow2(130),
{
    let u = single().unit();
    lemma_even_unit(single());
    lemma_multiple_order(fields, fields + 1, u);
    vstd::arithmetic::power2::lemma2_to64();
    let (e, m) = if fields < u {
        (0nat, fields)
    } else {
        ((fields / 0x80_0000 - 1) as nat, 0x80_0000 + fields % 0x80_0000)
    };
    assert(fields == e * u + m);
    lemma_multiple_of(e, m, u);
    lemma_multiple_of(e, m + 1, u);
    let p = pow2(e);
    assert((m + 1) * p - m * p == p) by (nonlinear_arith);
    if e < 129 {
        lemma_pow2_strictly_increases(e, 129);
    }
    if e > 130 {
        lemma_pow2_strictly_increases(130, e);
    }
}

/// A whole number is nearest exactly where it is within a half.
proof fn lemma_nearest_whole(num: nat, den: nat, u: nat)
    requires
        den > 0,
    ensures
        -(den as int) <= 2 * (num - nearest_whole(num, den) * den) <= den,
        -(den as int) < 2 * (num - u * den) < den ==> nearest_whole(num, den) == u,
{
    let (q, r) = (num / den, num % den);
    assert(num == q * den + r && r < den) by (nonlinear_arith)
        requires
            q == num / den,
            r == num % den,
            den > 0,
    ;
    assert((q + 1) * den == q * den + den) by (nonlinear_arith);
    if -(den as int) < 2 * (num - u * den) < den {
        if u < q {
            assert(u * den + den <= q * den) by (nonlinear_arith)
                requires
                    u + 1 <= q,
            ;
        } else if u > q + 1 {
            assert(u * den >= (q + 1) * den + den) by (nonlinear_arith)
                requires
                    u >= q + 2,
            ;
        }
    }
}

/// The number nearest to a stored component is stored as that component.
proof fn lemma_units_are_stable(fields: nat)
    requires
        fields < single().infinity,
    ensures
        ({
            let units = fixed_units(single(), fields, 6);
            let near = rounded_decimal(single(), units, -6);
            &&& near < single().infinity
            &&& fixed_units(single(), near, 6) == units
        }),
{
    let format = single();
    let n = format.number(fields);
    let s = pow2(149);
    let t = 1_000_000nat;
    lemma_sixteen();
    lemma_pow2_pos(149);
    lemma_even_unit(format);
    let units = fixed_units(format, fields, 6);
    lemma_nearest_whole(n * t, s, 0);
    let num = units * s;
    let near = rounded_decimal(format, units, -6);
    assert(near == format.rounded(num, t));
    if fields > sixteen() {
        let a = format.number((fields - 1) as nat);
        let b = format.number(fields + 1);
        lemma_step((fields - 1) as nat);
        lemma_step(fields);
        assert((a + n) * t < 2 * num) by (nonlinear_arith)
            requires
                n - a >= pow2(130),
                pow2(130) * t > s,
                2 * (n * t - num) <= s,
                t == 1_000_000,
        ;
        assert(2 * num < (n + b) * t) by (nonlinear_arith)
            requires
                b - n >= pow2(130),
                pow2(130) * t > s,
                2 * (n * t - num) >= -s,
                t == 1_000_000,
        ;
        assert(format.nearest(fields, num, t));
        lemma_nearest_unique(format, fields, near, num, t);
    } else {
        lemma_small_units(fields);
    }
}

proof fn lemma_small_units(fields: nat)
    requires
        fields <= sixteen(),
    ensures
        ({
            let units = fixed_units(single(), fields, 6);
            let near = rounded_decimal(single(), units, -6);
            &&& near < single().infinity
            &&& fixed_units(single(), near, 6) == units
        }),
{
    let format = single();
    let n = format.number(fields);
    let s = pow2(149);
    let t = 1_000_000nat;
    let u = format.unit();
    lemma_sixteen();
    lemma_pow2_pos(149);
    lemma_even_unit(format);
    lemma_multiple_order(sixteen(), fields, u);
    let units = fixed_units(format, fields, 6);
    lemma_nearest_whole(n * t, s, 0);
    let num = units * s;
    // No more than sixteen is stored.
    assert(units <= 16 * t) by (nonlinear_arith)
        requires
            n <= 16 * s,
            2 * (n * t - units * s) >= -s,
            s > 0,
    ;
    let top = format.number(sixteen());
    assert(num <= top * t) by (nonlinear_arith)
        requires
            num == units * s,
            units <= 16 * t,
            top == 16 * s,
    ;
    law_nearest_exists(format, num, t);
    let near = rounded_decimal(format, units, -6);
    assert(format.nearest(near, num, t));
    let here = format.number(near);
    if near > 0 {
        lemma_step((near - 1) as nat);
    }
    if near > sixteen() {
        let before = format.number((near - 1) as nat);
        lemma_multiple_order((near - 1) as nat, sixteen(), u);
        assert((before + here) * t > 2 * num) by (nonlinear_arith)
            requires
                before >= top,
                here > before,
                num <= top * t,
                t == 1_000_000,
        ;
    }
    assert(near <= sixteen());
    if here * t >= num {
        if near > 0 {
            let before = format.number((near - 1) as nat);
            assert(2 * (here * t - num) < s) by (nonlinear_arith)
                requires
                    (before + here) * t <= 2 * num,
                    here - before <= pow2(129),
                    pow2(129) * t < s,
                    t == 1_000_000,
            ;
        } else {
            assert(here == 0);
            assert(0 * t == 0);
        }
    } else {
        assert(near < sixteen());
        lemma_step(near);
        let after = format.number(near + 1);
        assert(2 * (num - here * t) < s) by (nonlinear_arith)
            requires
                2 * num <= (here + after) * t,
                after - here <= pow2(129),
                pow2(129) * t < s,
                t == 1_000_000,
        ;
    }
    lemma_nearest_whole(here * t, s, units);
}

/// Storing again what was read changes nothing: a component that is the number
/// nearest to a stored one is stored, and read, as itself.
pub proof fn law_stored_is_stable(v: Binary32)
    ensures
        ({
            let kept = shortened(v, STORED_DIGITS as nat);
            shortened(kept, STORED_DIGITS as nat) == kept
        }),
{
    let format = single();
    let bits = v.bits as nat;
    let fields = format.fields(bits);
    lemma_even_unit(format);
    lemma_parts(format, bits);
    if !format.nan(bits) && fields < format.infinity {
        lemma_units_are_stable(fields);
    }
}

/// A stored component is the component to six digits behind the point: it differs
/// by no more than half of the sixth, and what rounding to the format adds, a
/// share of 1/2^24 of the component and one smallest number.
pub proof fn law_stored_is_near(v: Binary32)
    requires
        v.finite(),
    ensures
        ({
            let kept = shortened(v, STORED_DIGITS as nat);
            let off = 1_000_000 * (kept.value() - v.value());
            let most = 0x80_0001 * pow2(149) + 1_000_000 * magnitude(v.value()) + 1_000_000
                * 0x80_0000;
            &&& kept.finite()
            &&& -most <= 0x100_0000 * off <= most
        }),
{
    let format = single();
    let fields = v.fields();
    let n = format.number(fields);
    let t = pow2(149);
    let units = fixed_units(format, fields, 6);
    let near = rounded_decimal(format, units, -6);
    let kept = shortened(v, 6);
    lemma_even_unit(format);
    lemma_parts(format, v.bits as nat);
    lemma_sixteen();
    lemma_pow2_pos(149);
    lemma_units_are_stable(fields);
    lemma_nearest_whole(n * 1_000_000, t, 0);
    law_nearest_exists(format, units * t, 1_000_000);
    assert(near == format.rounded(units * t, 1_000_000));
    lemma_error(format, units * t, 1_000_000);
    let bits = format.signed(format.negative(v.bits as nat), near);
    assert(bits % 0x8000_0000 == near);
    let k = format.number(near);
    let off = k * 1_000_000 - units * t;
    assert(2 * (0x80_0000 * off) == 0x100_0000 * off);
}

/// Every finite component is written, in its place, with six digits behind the
/// point, as the decimal number of that many digits that is nearest to it.
pub proof fn law_written_has_six_digits(v: Seq<Binary32>, j: int) -> (parts: (
    Seq<char>,
    Seq<char>,
))
    requires
        0 <= j < v.len(),
        v[j].finite(),
    ensures
        ({
            let (whole, behind) = parts;
            let sign = if v[j].bits >= 0x8000_0000 {
                seq!['-']
            } else {
                Seq::<char>::empty()
            };
            let off = digits_value(whole + behind) * pow2(149) - magnitude(v[j].value())
                * 1_000_000;
            &&& written(v).len() == v.len()
            &&& written(v)[j] == sign + whole + seq!['.'] + behind
            &&& numeral(whole)
            &&& digits(behind) && behind.len() == 6
            &&& -pow2(149) <= 2 * off <= pow2(149)
        }),
{
    lemma_even_unit(single());
    reveal_with_fuel(ten_to, 7);
    assert(ten_to(6) == 1_000_000);
    law_text_is_the_nearest_numeral(single(), v[j].bits as nat, 6)
}

} // verus!
