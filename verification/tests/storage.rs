use visiomatch::embeddings::{EmbeddingDb, EMBEDDING_DIM};
use visiomatch::escape::{escape_json_string, unescape_json_string};
use visiomatch::ieee::Binary32;
use visiomatch::json::{parse_document, render_document};
use visiomatch::storage::{load_embeddings, parse_json, render_json};

fn b32(v: f32) -> Binary32 {
    Binary32 { bits: v.to_bits() }
}

fn embedding(first: f32) -> Vec<Binary32> {
    (0..EMBEDDING_DIM).map(|i| b32(first + i as f32 / 1024.0)).collect()
}

fn literals(word: &str) -> Vec<String> {
    vec![word.to_string(); EMBEDDING_DIM]
}

/// An array of as many numbers as an embedding has.
fn array(word: &str) -> String {
    format!("[{}]", literals(word).join(","))
}

fn failure(json: &str) -> String {
    match parse_json(json) {
        Ok(_) => panic!("{json} was read"),
        Err(why) => why,
    }
}

fn names(db: &EmbeddingDb<Binary32>) -> Vec<String> {
    db.identities().iter().map(|i| i.name.clone()).collect()
}

#[test]
fn nothing_is_an_empty_database() {
    for json in ["", "  \n", "{}", " { } ", "{ , , }", "{\n}"] {
        assert_eq!(parse_json(json).unwrap().len(), 0, "{json}");
    }
    assert!(load_embeddings(None).unwrap().is_empty());
    assert!(load_embeddings(Some("{}\n")).unwrap().is_empty());
    assert!(load_embeddings(Some("[]")).is_err());
}

#[test]
fn entries_are_read_in_order() {
    let json = format!(
        " {{ \"ada\" : {} ,\n\t\"bob\":{}}}\n",
        array(" 0.5 "),
        array("-1e-3")
    );
    let db = parse_json(&json).unwrap();
    assert_eq!(names(&db), ["ada", "bob"]);
    assert_eq!(db.identities()[0].embedding.len(), EMBEDDING_DIM);
    assert_eq!(db.identities()[0].embedding[511], b32(0.5));
    assert_eq!(db.identities()[1].embedding[0], b32(-0.001));
    assert!(!db.is_empty());
}

#[test]
fn a_later_entry_replaces_an_earlier_one() {
    let json = format!("{{\"a\":{},\"b\":{},\"a\":{}}}", array("1"), array("2"), array("3"));
    let db = parse_json(&json).unwrap();
    assert_eq!(names(&db), ["a", "b"]);
    assert_eq!(db.identities()[0].embedding[0], b32(3.0));
    assert_eq!(db.identities()[1].embedding[0], b32(2.0));
}

#[test]
fn escaped_names_are_read() {
    let json = format!("{{\"a\\\"b\\\\c\\n\\u0041\":{}}}", array("0"));
    assert_eq!(names(&parse_json(&json).unwrap()), ["a\"b\\c\nA"]);
}

#[test]
fn missing_braces() {
    let why = "Invalid embedding JSON: missing outer braces";
    for json in ["[]", "{", "}", "x", "{\"a\":[1]", "\"a\":[1]}"] {
        assert_eq!(failure(json), why, "{json}");
    }
}

#[test]
fn a_key_must_begin_with_a_quote() {
    assert_eq!(
        failure("{ a:[1]}"),
        "Invalid embedding JSON at position 0: expected '\"', found 'a'"
    );
    let json = format!("{{\"\u{e9}\":{} \u{e9}}}", array("1"));
    let position = array("1").len() + 6;
    assert_eq!(
        failure(&json),
        format!("Invalid embedding JSON at position {position}: expected '\"', found '\u{c3}'")
    );
}

#[test]
fn faults_of_an_entry() {
    assert_eq!(failure("{\"abc}"), "Invalid embedding JSON: unterminated key string");
    assert_eq!(failure("{\"ab\\\"}"), "Invalid embedding JSON: unterminated key string");
    assert_eq!(failure("{\"ada\"}"), "Invalid embedding JSON: expected ':' after key \"ada\"");
    assert_eq!(
        failure("{\"ada\" [1]}"),
        "Invalid embedding JSON: expected ':' after key \"ada\""
    );
    assert_eq!(
        failure("{\"ada\": 1}"),
        "Invalid embedding JSON: expected '[' for value of \"ada\""
    );
    assert_eq!(
        failure("{\"ada\":}"),
        "Invalid embedding JSON: expected '[' for value of \"ada\""
    );
    assert_eq!(
        failure("{\"ada\":[1,2}"),
        "Invalid embedding JSON: unterminated array for \"ada\""
    );
    assert_eq!(
        failure("{\"ada\":[1,[2]}"),
        "Invalid embedding JSON: unterminated array for \"ada\""
    );
}

#[test]
fn faults_of_a_component() {
    assert_eq!(
        failure("{\"ada\":[1,x,]}"),
        "Failed to parse embedding for \"ada\": invalid float literal"
    );
    assert_eq!(
        failure("{\"ada\":[]}"),
        "Failed to parse embedding for \"ada\": cannot parse float from empty string"
    );
    assert_eq!(
        failure("{\"ada\":[1,,x]}"),
        "Failed to parse embedding for \"ada\": cannot parse float from empty string"
    );
    assert_eq!(
        failure("{\"ada\":[[1]]}"),
        "Failed to parse embedding for \"ada\": invalid float literal"
    );
    assert_eq!(failure("{\"ada\":[1,2,3]}"), "Embedding for \"ada\" has 3 values (expected 512)");
}

#[test]
fn the_document_of_a_database() {
    let mut db: EmbeddingDb<Binary32> = EmbeddingDb::new();
    assert_eq!(render_json(&db), "{}\n");
    db.insert("ada".to_string(), vec![b32(0.5), b32(-0.0000004), b32(1.0 / 3.0)]);
    assert_eq!(render_json(&db), "{\"ada\":[0.500000,-0.000000,0.333333]}\n");
    db.insert("b\"ob".to_string(), vec![b32(1.0)]);
    assert_eq!(
        render_json(&db),
        "{\"ada\":[0.500000,-0.000000,0.333333],\"b\\\"ob\":[1.000000]}\n"
    );
    db.insert("ada".to_string(), vec![b32(2.0)]);
    assert_eq!(render_json(&db), "{\"ada\":[2.000000],\"b\\\"ob\":[1.000000]}\n");
}

#[test]
fn what_was_written_is_read_back() {
    let mut db: EmbeddingDb<Binary32> = EmbeddingDb::new();
    let people = ["ada", "", "a\"b\\c", "tab\tnew\nline\r", "\u{1}\u{7f}\u{9f}", "\u{1F600} {}[]:,"];
    for (i, name) in people.iter().enumerate() {
        db.insert(name.to_string(), embedding(i as f32 / 7.0 - 0.5));
    }
    let text = render_json(&db);
    let read = parse_json(&text).unwrap();
    assert_eq!(names(&read), people);
    for (before, after) in db.identities().iter().zip(read.identities()) {
        for (x, y) in before.embedding.iter().zip(&after.embedding) {
            let stored: f32 = format!("{:.6}", f32::from_bits(x.bits)).parse().unwrap();
            assert_eq!(f32::from_bits(y.bits), stored);
        }
    }
    // Storing again what was read changes nothing.
    assert_eq!(render_json(&read), text);
}

#[test]
fn literals_are_kept_as_they_are() {
    let mut db: EmbeddingDb<String> = EmbeddingDb::new();
    db.insert("x".to_string(), literals("1.50"));
    let text = render_document(&db);
    assert!(text.starts_with("{\"x\":[1.50,1.50"));
    let read = parse_document(&text).unwrap();
    assert_eq!(read.identities()[0].embedding, literals("1.50"));
}

#[test]
fn names_stay_apart_when_escaped() {
    assert_eq!(escape_json_string("a\"\\\n\r\t\u{8}\u{85}z"), "a\\\"\\\\\\n\\r\\t\\u0008\\u0085z");
    assert_ne!(escape_json_string("\\n"), escape_json_string("\n"));
    assert_eq!(unescape_json_string(&escape_json_string("\\n\n")), "\\n\n");
}

#[test]
fn odd_escapes() {
    assert_eq!(unescape_json_string("\\q\\/\\"), "\\q\\/\\");
    assert_eq!(unescape_json_string("\\u0041\\u00e9\\u20AC"), "A\u{e9}\u{20ac}");
    assert_eq!(unescape_json_string("a\\ud800b"), "ab");
    assert_eq!(unescape_json_string("a\\u00zzb"), "ab");
    assert_eq!(unescape_json_string("a\\u12"), "a\u{12}");
    assert_eq!(unescape_json_string("a\\u+041b"), "aAb");
}

#[test]
fn inserting_into_the_database() {
    let mut db: EmbeddingDb<u8> = EmbeddingDb::new();
    db.insert("a".to_string(), vec![1]);
    db.insert("b".to_string(), vec![2]);
    db.insert("a".to_string(), vec![3]);
    assert_eq!(db.len(), 2);
    assert_eq!(db.identities()[0].name, "a");
    assert_eq!(db.identities()[0].embedding, [3]);
    assert_eq!(db.identities()[1].embedding, [2]);
}

#[test]
fn escapes_quotes_and_backslashes() {
    assert_eq!(escape_json_string("a\"b\\c"), "a\\\"b\\\\c");
    assert_eq!(unescape_json_string("a\\\"b\\\\c"), "a\"b\\c");
}

#[test]
fn white_space_has_no_influence_and_the_last_entry_counts() {
    let values = |word: &str, space: &str| -> String {
        let padded: Vec<String> = (0..512)
            .map(|j| format!("{space}{}{space}", if j == 0 { word } else { "0" }))
            .collect();
        format!("[{}]", padded.join(","))
    };
    let mut read = Vec::new();
    for s in ["", " ", "\n", "\t \r\n\x0c "] {
        let json = format!(
            "{s}{{{s}\"a\\\"b\"{s}:{s}{}{s},{s}\"ada\"{s}:{s}{}{s},{s}\"\\u0061da\"{s}:{s}{}{s}}}{s}",
            values("0.5", s),
            values("1", s),
            values("-2.5e0", s)
        );
        let db = parse_json(&json).unwrap();
        assert_eq!(names(&db), ["a\"b", "ada"]);
        for (identity, first) in db.identities().iter().zip([0.5, -2.5]) {
            assert_eq!(identity.embedding.len(), EMBEDDING_DIM);
            assert_eq!(identity.embedding[0], b32(first));
            assert!(identity.embedding[1..].iter().all(|v| *v == b32(0.0)));
        }
        read.push(render_json(&db));
    }
    assert!(read.iter().all(|text| *text == read[0]));
}
