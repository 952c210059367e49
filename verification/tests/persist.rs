use todo_store::store::{TodoError, TodoStore};

#[test]
fn save_empty_store() {
    let s = TodoStore::new();
    assert_eq!(s.save_json(), "{}");
}

#[test]
fn save_two_entries_exact_text() {
    let mut s = TodoStore::new();
    assert!(s.add(String::from("buy milk")).is_ok());
    assert!(s.add(String::from("pay rent")).is_ok());
    assert!(s.complete(&String::from("pay rent")).is_ok());
    assert_eq!(s.save_json(), "{\"buy milk\":false,\"pay rent\":true}");
}

#[test]
fn save_escapes_quote_and_backslash() {
    let mut s = TodoStore::new();
    assert!(s.add(String::from("say \"hi\" a\\b")).is_ok());
    assert_eq!(s.save_json(), "{\"say \\\"hi\\\" a\\\\b\":false}");
}

#[test]
fn round_trip_restores_entries() {
    let mut s = TodoStore::new();
    assert!(s.add(String::from("buy milk")).is_ok());
    assert!(s.add(String::from("say \"hi\" a\\b")).is_ok());
    assert!(s.add(String::from("caf\u{e9} \u{2615}")).is_ok());
    assert!(s.complete(&String::from("buy milk")).is_ok());
    let saved = s.save_json();
    let mut t = TodoStore::new();
    let loaded = t.load(Some(saved.as_str())).expect("saved text must load");
    assert_eq!(loaded, s.list());
    assert_eq!(t.list(), s.list());
}

#[test]
fn load_missing_file_yields_empty_store() {
    let mut s = TodoStore::new();
    assert!(s.add(String::from("stale")).is_ok());
    let loaded = s.load(None).expect("a missing file is not an error");
    assert_eq!(loaded.len(), 0);
    assert_eq!(s.list().len(), 0);
}

#[test]
fn load_invalid_text_is_parse_error_and_keeps_state() {
    let mut s = TodoStore::new();
    assert!(s.add(String::from("keep me")).is_ok());
    let before = s.list();
    assert_eq!(s.load(Some("not json")), Err(TodoError::ParseError));
    assert_eq!(s.list(), before);
}

#[test]
fn load_replaces_rather_than_merges() {
    let mut s = TodoStore::new();
    assert!(s.add(String::from("old")).is_ok());
    let loaded = s.load(Some("{\"new\":true}")).expect("well-formed text must load");
    assert_eq!(loaded, vec![(String::from("new"), true)]);
    assert_eq!(s.list(), vec![(String::from("new"), true)]);
}

#[test]
fn load_empty_object() {
    let mut s = TodoStore::new();
    let loaded = s.load(Some("{}")).expect("the empty object must load");
    assert_eq!(loaded.len(), 0);
    assert_eq!(s.list().len(), 0);
}

#[test]
fn load_reads_escapes_back() {
    let mut s = TodoStore::new();
    let loaded = s.load(Some("{\"a\\\"b\":false,\"c\\\\d\":true}")).expect("escapes must load");
    assert_eq!(loaded, vec![(String::from("a\"b"), false), (String::from("c\\d"), true)]);
}

#[test]
fn load_rejects_duplicate_names() {
    let mut s = TodoStore::new();
    assert_eq!(s.load(Some("{\"a\":true,\"a\":false}")), Err(TodoError::ParseError));
}

#[test]
fn load_rejects_empty_name() {
    let mut s = TodoStore::new();
    assert_eq!(s.load(Some("{\"\":true}")), Err(TodoError::ParseError));
}

#[test]
fn load_accepts_whitespace_around_the_object() {
    let mut s = TodoStore::new();
    let loaded = s.load(Some(" \t\r\n{\"a\":true} \n")).expect("whitespace around must load");
    assert_eq!(loaded, vec![(String::from("a"), true)]);
    let empty = s.load(Some("  {  }  ")).expect("a spaced empty object must load");
    assert_eq!(empty.len(), 0);
}

#[test]
fn load_accepts_spacing_inside_the_object() {
    let mut s = TodoStore::new();
    let loaded = s.load(Some("{\"a\": true}")).expect("a space after the colon must load");
    assert_eq!(loaded, vec![(String::from("a"), true)]);
    let loaded = s
        .load(Some("{ \"a\" : true , \"b\" : false }"))
        .expect("spacing around members must load");
    assert_eq!(loaded, vec![(String::from("a"), true), (String::from("b"), false)]);
}

#[test]
fn load_rejects_text_around_the_object() {
    let mut s = TodoStore::new();
    assert_eq!(s.load(Some("{\"a\":true}x")), Err(TodoError::ParseError));
    assert_eq!(s.load(Some("x{\"a\":true}")), Err(TodoError::ParseError));
    assert_eq!(s.load(Some("")), Err(TodoError::ParseError));
    assert_eq!(s.load(Some("   ")), Err(TodoError::ParseError));
}

#[test]
fn load_reads_standard_escapes() {
    let mut s = TodoStore::new();
    let loaded = s.load(Some("{\"a\\/b\":true}")).expect("an escaped slash must load");
    assert_eq!(loaded, vec![(String::from("a/b"), true)]);
    let loaded = s.load(Some("{\"\\u0041\\u00e9\\u00C9\":false}")).expect("code points must load");
    assert_eq!(loaded, vec![(String::from("A\u{e9}\u{c9}"), false)]);
}

#[test]
fn load_reads_surrogate_pairs() {
    let mut s = TodoStore::new();
    let loaded = s.load(Some("{\"a\\uD834\\uDD1Eb\":true}")).expect("a pair must load");
    assert_eq!(loaded, vec![(String::from("a\u{1d11e}b"), true)]);
}

#[test]
fn load_rejects_bad_escapes() {
    let mut s = TodoStore::new();
    assert_eq!(s.load(Some("{\"a\\qb\":true}")), Err(TodoError::ParseError));
    assert_eq!(s.load(Some("{\"a\\u12\":true}")), Err(TodoError::ParseError));
    assert_eq!(s.load(Some("{\"a\\uD800b\":true}")), Err(TodoError::ParseError));
    assert_eq!(s.load(Some("{\"a\\uDD1E\\uD834b\":true}")), Err(TodoError::ParseError));
    assert_eq!(s.load(Some("{\"a\\")), Err(TodoError::ParseError));
}

#[test]
fn load_reads_escaped_control_characters() {
    let mut s = TodoStore::new();
    let loaded = s.load(Some("{\"a\\nb\":true}")).expect("an escaped newline must load");
    assert_eq!(loaded, vec![(String::from("a\nb"), true)]);
    let loaded = s.load(Some("{\"a\\u0000b\":true}")).expect("an escaped NUL must load");
    assert_eq!(loaded, vec![(String::from("a\u{0}b"), true)]);
}

#[test]
fn save_escapes_control_characters() {
    let mut s = TodoStore::new();
    assert!(s.add(String::from("a\nb\u{1f}")).is_ok());
    assert_eq!(s.save_json(), "{\"a\\u000ab\\u001f\":false}");
}

#[test]
fn control_character_names_round_trip() {
    let mut s = TodoStore::new();
    assert!(s.add(String::from("a\tb")).is_ok());
    assert!(s.add(String::from("\u{1}\u{2}\u{3}")).is_ok());
    assert!(s.complete(&String::from("a\tb")).is_ok());
    let saved = s.save_json();
    let mut t = TodoStore::new();
    let loaded = t.load(Some(saved.as_str())).expect("saved text must load");
    assert_eq!(loaded, s.list());
    assert_eq!(t.list(), s.list());
}

#[test]
fn load_rejects_trailing_comma() {
    let mut s = TodoStore::new();
    assert_eq!(s.load(Some("{\"a\":true,}")), Err(TodoError::ParseError));
    assert_eq!(s.load(Some("{\"a\":true,,\"b\":false}")), Err(TodoError::ParseError));
}

#[test]
fn load_rejects_other_value_kinds() {
    let mut s = TodoStore::new();
    assert_eq!(s.load(Some("{\"a\":1}")), Err(TodoError::ParseError));
    assert_eq!(s.load(Some("{\"a\":null}")), Err(TodoError::ParseError));
    assert_eq!(s.load(Some("{\"a\":\"true\"}")), Err(TodoError::ParseError));
}

#[test]
fn load_rejects_raw_control_character_in_name() {
    let mut s = TodoStore::new();
    assert_eq!(s.load(Some("{\"a\nb\":true}")), Err(TodoError::ParseError));
}

#[test]
fn unicode_names_round_trip() {
    let mut s = TodoStore::new();
    assert!(s.add(String::from("\u{65e5}\u{8a18}\u{3092}\u{66f8}\u{304f}")).is_ok());
    let saved = s.save_json();
    let mut t = TodoStore::new();
    t.load(Some(saved.as_str())).expect("saved text must load");
    assert_eq!(t.list(), s.list());
}
