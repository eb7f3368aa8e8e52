use wordrember::import::{pairs_from, pairs_from_entries, pairs_from_text, parse_format, ImportFormat};
use wordrember::store::WordStore;
use wordrember::word::StoreError;

fn texts(s: &WordStore) -> Vec<(String, String)> {
    s.get_all_words().into_iter().map(|w| (w.word, w.meaning)).collect()
}

fn pair(a: &str, b: &str) -> (String, String) {
    (a.to_string(), b.to_string())
}

#[test]
fn format_names() {
    assert_eq!(parse_format("csv"), Some(ImportFormat::Csv));
    assert_eq!(parse_format("json"), Some(ImportFormat::Json));
    assert_eq!(parse_format("txt"), Some(ImportFormat::Txt));
    assert_eq!(parse_format("CSV"), None);
    assert_eq!(parse_format("xml"), None);
    assert_eq!(parse_format(""), None);
}

#[test]
fn csv_readme_example_skips_header() {
    let mut s = WordStore::new();
    let n = s.import_words("word,meaning\napple,苹果\nbook,书\n", "csv").unwrap();
    assert_eq!(n, 2);
    assert_eq!(texts(&s), vec![pair("apple", "苹果"), pair("book", "书")]);
    assert_eq!(s.word_sequence(), 2);
}

#[test]
fn txt_readme_example_skips_header() {
    let mut s = WordStore::new();
    assert_eq!(s.import_words("word\tmeaning\napple\t苹果\nbook\t书", "txt"), Ok(2));
    assert_eq!(texts(&s), vec![pair("apple", "苹果"), pair("book", "书")]);
}

#[test]
fn header_is_recognised_after_cleaning() {
    let pairs = pairs_from_text(" \"word\" , meaning \r\na,b", ImportFormat::Csv);
    assert_eq!(pairs, vec![pair("a", "b")]);
    // a header in another case is an ordinary entry
    let pairs = pairs_from_text("Word,Meaning\na,b", ImportFormat::Csv);
    assert_eq!(pairs, vec![pair("Word", "Meaning"), pair("a", "b")]);
}

#[test]
fn header_only_on_the_first_line() {
    let pairs = pairs_from_text("a,b\nword,meaning", ImportFormat::Csv);
    assert_eq!(pairs, vec![pair("a", "b"), pair("word", "meaning")]);
    let pairs = pairs_from_text("\nword,meaning", ImportFormat::Csv);
    assert_eq!(pairs, vec![pair("word", "meaning")]);
    assert_eq!(pairs_from_text("word,meaning", ImportFormat::Csv), Vec::<(String, String)>::new());
}

#[test]
fn csv_trims_spaces_and_quotes() {
    let pairs = pairs_from_text(" \"apple\" , \"苹果\"\r\n\"\"x\"\",y,extra\n", ImportFormat::Csv);
    assert_eq!(pairs, vec![pair("apple", "苹果"), pair("x", "y")]);
}

#[test]
fn csv_skips_short_and_empty_lines() {
    let pairs = pairs_from_text("onlyone\n,meaning\nword,\n\"\",x\n\n  ,  \na,b", ImportFormat::Csv);
    assert_eq!(pairs, vec![pair("a", "b")]);
}

#[test]
fn csv_quotes_inside_whitespace_are_kept() {
    // quotes are stripped after trimming, so spaces inside quotes stay
    let pairs = pairs_from_text("\" a \",b", ImportFormat::Csv);
    assert_eq!(pairs, vec![pair(" a ", "b")]);
}

#[test]
fn txt_splits_at_tabs_and_trims() {
    let pairs = pairs_from_text("apple\t苹果\n  book \t 书 \t more\nno tab here\n", ImportFormat::Txt);
    assert_eq!(pairs, vec![pair("apple", "苹果"), pair("book", "书")]);
}

#[test]
fn txt_does_not_strip_quotes() {
    let pairs = pairs_from_text("\"a\"\t\"b\"", ImportFormat::Txt);
    assert_eq!(pairs, vec![pair("\"a\"", "\"b\"")]);
}

#[test]
fn unicode_white_space_is_trimmed() {
    let pairs = pairs_from_text("\u{3000}a\u{00A0},\u{2003}b\u{0085}", ImportFormat::Csv);
    assert_eq!(pairs, vec![pair("a", "b")]);
}

#[test]
fn lone_carriage_return_line_ending() {
    // only "\r\n" ends a line; a lone "\r" is part of the line and trimmed away
    let pairs = pairs_from_text("a,b\rc,d", ImportFormat::Csv);
    assert_eq!(pairs, vec![pair("a", "b\rc")]);
}

#[test]
fn json_readme_example() {
    let mut s = WordStore::new();
    let content = r#"[{"word": "apple", "meaning": "苹果"}, {"word": "book", "meaning": "书"}]"#;
    assert_eq!(s.import_words(content, "json"), Ok(2));
    assert_eq!(texts(&s), vec![pair("apple", "苹果"), pair("book", "书")]);
}

#[test]
fn json_skips_items_without_string_members() {
    let content = r#"[{"word": 1, "meaning": "x"}, {"word": "a"}, 5, {"word": "", "meaning": "y"}, {"meaning": "m", "word": "w", "extra": true}]"#;
    assert_eq!(pairs_from(content, ImportFormat::Json), vec![pair("w", "m")]);
}

#[test]
fn json_that_is_not_an_array_imports_nothing() {
    let mut s = WordStore::new();
    assert_eq!(s.import_words(r#"{"word": "a", "meaning": "b"}"#, "json"), Ok(0));
    assert_eq!(s.import_words("not json", "json"), Ok(0));
    assert_eq!(s.get_word_stats(), (0, 0));
}

#[test]
fn json_entries_import_directly() {
    let mut s = WordStore::new();
    let entries = vec![
        (Some("a".to_string()), Some("1".to_string())),
        (None, Some("2".to_string())),
        (Some("b".to_string()), Some(String::new())),
        (Some("a".to_string()), Some("3".to_string())),
    ];
    assert_eq!(pairs_from_entries(&entries), vec![pair("a", "1"), pair("a", "3")]);
    assert_eq!(s.import_json_entries(&entries), Ok(2));
    assert_eq!(texts(&s), vec![pair("a", "1")]);
}

#[test]
fn unsupported_format_is_refused() {
    let mut s = WordStore::new();
    let r = s.import_words("a,b", "xml");
    assert_eq!(r, Err(StoreError::UnsupportedFormat));
    assert_eq!(StoreError::UnsupportedFormat.message(), "Unsupported format");
    assert_eq!(s.get_word_stats(), (0, 0));
}

#[test]
fn duplicates_count_but_are_stored_once() {
    let mut s = WordStore::new();
    s.add_word("apple".to_string(), "old".to_string()).unwrap();
    let n = s.import_words("apple,new\napple,newer\npear,梨", "csv").unwrap();
    assert_eq!(n, 3);
    assert_eq!(texts(&s), vec![pair("apple", "old"), pair("pear", "梨")]);
}

#[test]
fn import_twice_changes_nothing_more() {
    let mut s = WordStore::new();
    let content = "a\tb\nc\td\n";
    assert_eq!(s.import_words(content, "txt"), Ok(2));
    let first = texts(&s);
    assert_eq!(s.import_words(content, "txt"), Ok(2));
    assert_eq!(texts(&s), first);
    assert_eq!(s.word_sequence(), 2);
}

#[test]
fn empty_content_imports_nothing() {
    let mut s = WordStore::new();
    assert_eq!(s.import_words("", "csv"), Ok(0));
    assert_eq!(s.import_words("", "txt"), Ok(0));
    assert_eq!(s.import_words("", "json"), Ok(0));
}
