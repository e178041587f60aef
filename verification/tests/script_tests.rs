use dictsync::loaddata::ParseError;
use dictsync::script::{emit_script, parse_script};
use dictsync::sync::SyncResult;
use dictsync::words::{Word, WordSet};

fn w(code: &str, word: &str) -> Word {
    Word { code: code.to_string(), word: word.to_string() }
}

fn set(entries: &[(&str, &str)]) -> WordSet {
    let mut r = WordSet::new();
    for (c, s) in entries {
        r = r.insert(w(c, s));
    }
    r
}

fn assert_set(ws: &WordSet, entries: &[(&str, &str)]) {
    assert_eq!(ws.len(), entries.len());
    for (c, s) in entries {
        assert!(ws.contains(&w(c, s)));
    }
}

#[test]
fn emit_single_insert() {
    let r = SyncResult { to_insert: set(&[("a", "b")]), to_delete: set(&[]) };
    assert_eq!(emit_script(&r), "insert a b\nsave\n");
}

#[test]
fn emit_single_delete() {
    let r = SyncResult { to_insert: set(&[]), to_delete: set(&[("a", "b")]) };
    assert_eq!(emit_script(&r), "delete a b\nsave\n");
}

#[test]
fn emit_insertions_before_deletions_then_save() {
    let r = SyncResult { to_insert: set(&[("i", "x")]), to_delete: set(&[("d", "y")]) };
    assert_eq!(emit_script(&r), "insert i x\ndelete d y\nsave\n");
}

#[test]
fn emit_empty_result_is_empty_script() {
    let r = SyncResult { to_insert: set(&[]), to_delete: set(&[]) };
    assert_eq!(emit_script(&r), "");
}

#[test]
fn emit_word_with_space() {
    let r = SyncResult { to_insert: set(&[("ab", "c d")]), to_delete: set(&[]) };
    assert_eq!(emit_script(&r), "insert ab c d\nsave\n");
}

#[test]
fn parse_script_reads_instructions() {
    let r = parse_script("insert a b\ndelete c d\nsave\n").unwrap();
    assert_set(&r.to_insert, &[("a", "b")]);
    assert_set(&r.to_delete, &[("c", "d")]);
}

#[test]
fn parse_script_of_save_alone_is_empty() {
    let r = parse_script("save\n").unwrap();
    assert!(r.to_insert.is_empty());
    assert!(r.to_delete.is_empty());
}

#[test]
fn parse_script_of_empty_text_is_empty() {
    let r = parse_script("").unwrap();
    assert!(r.to_insert.is_empty());
    assert!(r.to_delete.is_empty());
}

#[test]
fn parse_script_rejects_unknown_instruction() {
    match parse_script("bogus line\n") {
        Err(e) => assert_eq!(e, ParseError::MalformedLine),
        Ok(_) => panic!("expected a parse failure"),
    }
}

#[test]
fn parse_script_rejects_entry_without_word() {
    match parse_script("insert nospace\n") {
        Err(e) => assert_eq!(e, ParseError::MalformedLine),
        Ok(_) => panic!("expected a parse failure"),
    }
}

#[test]
fn round_trip_reproduces_the_sets() {
    let r = SyncResult {
        to_insert: set(&[("a", "x"), ("bb", "y y"), ("c", "z")]),
        to_delete: set(&[("d", "q"), ("e", "r")]),
    };
    let text = emit_script(&r);
    let back = parse_script(&text).unwrap();
    assert_set(&back.to_insert, &[("a", "x"), ("bb", "y y"), ("c", "z")]);
    assert_set(&back.to_delete, &[("d", "q"), ("e", "r")]);
}

#[test]
fn round_trip_of_empty_result_has_zero_lines() {
    let r = SyncResult { to_insert: set(&[]), to_delete: set(&[]) };
    let text = emit_script(&r);
    assert_eq!(text, "");
    assert_eq!(text.lines().count(), 0);
    let back = parse_script(&text).unwrap();
    assert!(back.to_insert.is_empty());
    assert!(back.to_delete.is_empty());
}
