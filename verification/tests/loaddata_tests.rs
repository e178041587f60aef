use dictsync::loaddata::{parse_main_text, parse_user_text, Dict, ParseError};
use dictsync::words::{Word, WordSet};

fn w(code: &str, word: &str) -> Word {
    Word { code: code.to_string(), word: word.to_string() }
}

fn assert_set(ws: &WordSet, entries: &[(&str, &str)]) {
    assert_eq!(ws.len(), entries.len());
    for (c, s) in entries {
        assert!(ws.contains(&w(c, s)));
    }
}

#[test]
fn parse_main_reads_data_section() {
    let text = "junk header\nmore junk\n[Data]\nabc word1\nk wo\n";
    let main = parse_main_text(text).unwrap();
    assert_set(&main, &[("abc", "word1"), ("k", "wo")]);
}

#[test]
fn parse_main_without_data_section_is_empty() {
    let text = "anything\ngoes here\n";
    let main = parse_main_text(text).unwrap();
    assert!(main.is_empty());
}

#[test]
fn parse_main_empty_text_is_empty() {
    let main = parse_main_text("").unwrap();
    assert!(main.is_empty());
}

#[test]
fn parse_main_word_may_hold_spaces() {
    let text = "[Data]\nab c d\n";
    let main = parse_main_text(text).unwrap();
    assert_set(&main, &[("ab", "c d")]);
}

#[test]
fn parse_main_without_trailing_newline() {
    let text = "[Data]\nab cd";
    let main = parse_main_text(text).unwrap();
    assert_set(&main, &[("ab", "cd")]);
}

#[test]
fn parse_main_malformed_entry_is_fatal() {
    let text = "[Data]\nnospace\n";
    match parse_main_text(text) {
        Err(e) => assert_eq!(e, ParseError::MalformedLine),
        Ok(_) => panic!("expected a decode failure"),
    }
}

#[test]
fn parse_main_duplicate_lines_collapse() {
    let text = "[Data]\nab cd\nab cd\n";
    let main = parse_main_text(text).unwrap();
    assert_set(&main, &[("ab", "cd")]);
}

#[test]
fn parse_user_sections() {
    let text = "a b\n[Auto]\nx y\n[Delete]\nq r\n";
    let (user_new, user_deleted) = parse_user_text(text).unwrap();
    assert_set(&user_new, &[("a", "b")]);
    assert_set(&user_deleted, &[("q", "r")]);
}

#[test]
fn parse_user_new_header_recognized() {
    let text = "foo bar\n[New]\nbaz qux\n";
    let (user_new, user_deleted) = parse_user_text(text).unwrap();
    assert_set(&user_new, &[("foo", "bar"), ("baz", "qux")]);
    assert!(user_deleted.is_empty());
}

#[test]
fn parse_user_malformed_auto_entry_is_fatal() {
    let text = "[Auto]\nnospace\n";
    match parse_user_text(text) {
        Err(e) => assert_eq!(e, ParseError::MalformedLine),
        Ok(_) => panic!("expected a decode failure"),
    }
}

#[test]
fn parse_user_empty_text() {
    let (user_new, user_deleted) = parse_user_text("").unwrap();
    assert!(user_new.is_empty());
    assert!(user_deleted.is_empty());
}

#[test]
fn load_dict_combines_both_streams() {
    let main_text = "[Data]\nabc word1\n";
    let user_text = "n w\n[Delete]\nd t\n";
    let d = Dict::load_dict(main_text, user_text).unwrap();
    assert_set(&d.main, &[("abc", "word1")]);
    assert_set(&d.user_new, &[("n", "w")]);
    assert_set(&d.user_deleted, &[("d", "t")]);
}

#[test]
fn load_dict_fails_on_malformed_user_stream() {
    let main_text = "[Data]\nabc word1\n";
    let user_text = "nospace\n";
    assert!(Dict::load_dict(main_text, user_text).is_err());
}
