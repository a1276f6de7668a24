use ziran_engine::schema::SchemaConfig;

#[test]
fn schema_lists_are_read_under_translator() {
    let content = "# schema\n---\nschema:\n  name: test\ntranslator:\n  dictionaries:\n    - base\n    - ext # extra words\n  english_dictionaries:\n    - en\n  bilingual_dictionaries:\n    - bilingual\n...\n";
    let s = SchemaConfig::load(content).expect("a schema");
    assert_eq!(s.dictionaries, vec!["base".to_string(), "ext".to_string()]);
    assert_eq!(s.english_dictionaries, vec!["en".to_string()]);
    assert_eq!(s.bilingual_dictionaries, vec!["bilingual".to_string()]);
}

#[test]
fn items_outside_translator_are_ignored() {
    let content = "other:\n  dictionaries:\n    - nope\ntranslator:\n  dictionaries:\n    - yes\n";
    let s = SchemaConfig::load(content).unwrap();
    assert_eq!(s.dictionaries, vec!["yes".to_string()]);
    assert!(s.english_dictionaries.is_empty());
}

#[test]
fn empty_dictionary_list_is_an_error() {
    let r = SchemaConfig::load("translator:\n  english_dictionaries:\n    - en\n");
    assert_eq!(r.err(), Some("schema translator.dictionaries is empty".to_string()));
    assert!(SchemaConfig::load("").is_err());
}

#[test]
fn indentation_decides_what_a_line_is() {
    // a list header at indent 4 is not a list header; an item at indent 2 is not an item
    let content = "translator:\n  dictionaries:\n  - shallow\n    - deep\n      - deeper\n    english_dictionaries:\n    - still_zh\n";
    let s = SchemaConfig::load(content).unwrap();
    assert_eq!(s.dictionaries, vec!["deep".to_string(), "deeper".to_string(), "still_zh".to_string()]);
}

#[test]
fn items_are_trimmed_and_comments_cut() {
    let content = "translator::\n  dictionaries::\n    - - base  \n    -  ext#c\n    - #only comment\n    -\n\r\n    - crlf\r\n";
    let s = SchemaConfig::load(content).unwrap();
    assert_eq!(s.dictionaries, vec!["base".to_string(), "ext".to_string(), "crlf".to_string()]);
}

#[test]
fn a_new_section_clears_the_list() {
    let content = "translator:\n  dictionaries:\n    - a\nother:\ntranslator:\n    - b\n";
    let s = SchemaConfig::load(content).unwrap();
    assert_eq!(s.dictionaries, vec!["a".to_string()]);
}

#[test]
fn tab_and_wide_space_indents_count_bytes() {
    // U+3000 is 3 bytes of indent, a tab 1: neither makes an indent of 2
    let content = "translator:\n\u{3000}dictionaries:\n  dictionaries:\n\t\t\t\t- four_tabs\n";
    let s = SchemaConfig::load(content).unwrap();
    assert_eq!(s.dictionaries, vec!["four_tabs".to_string()]);
}
