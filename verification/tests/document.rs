use clj_pulse::document::{
    char_col_to_utf16, input_edit, position_to_char, utf16_col_to_char, ChangeError, ContentChange,
    DocumentStore, Point,
};
use clj_pulse::lsp::{Position, Range};
use clj_pulse::syntax::parse_source;

fn store_with(text: &str) -> (DocumentStore, String) {
    let mut store = DocumentStore::new();
    let uri = "file:///test.clj".to_string();
    store.open(uri.clone(), text.to_string());
    (store, uri)
}

/// LSP positions are UTF-16 code units: '😀' is two units but one char.
/// A single-char token makes any off-by-one shift miss the word.
#[test]
fn test_word_at_utf16_after_emoji() {
    let line = "(def s \"😀\") (f 1 2)";
    let (store, uri) = store_with(line);

    // Cursor on `f`, in UTF-16 units
    let prefix = "(def s \"😀\") (";
    let col = prefix.encode_utf16().count() as u32;
    let word = store.word_at(&uri, Position::new(0, col));
    assert_eq!(word.as_deref(), Some("f"));
}

#[test]
fn test_apply_changes_utf16_after_emoji() {
    let (mut store, uri) = store_with("(str \"😀\")");
    // Insert right before the closing paren, position in UTF-16 units
    let col = "(str \"😀\"".encode_utf16().count() as u32;
    store
        .apply_changes(&uri, &[ContentChange {
                range: Some(Range {
                    start: Position::new(0, col),
                    end: Position::new(0, col),
                }),
                text: " :x".to_string(),
            }],
        )
        .unwrap();
    assert_eq!(
        store.line_text(&uri, 0).unwrap().trim_end(),
        "(str \"😀\" :x)"
    );
}

/// The cursor position, in UTF-16 units, right after `needle` in `line`.
fn after(line: &str, needle: &str) -> Position {
    let idx = line.find(needle).expect("needle not in line") + needle.len();
    Position::new(0, line[..idx].encode_utf16().count() as u32)
}

#[test]
fn test_keyword_at_notations() {
    let line = "(f :id ::local :ns/x ::al/y)";
    let (store, uri) = store_with(line);

    let ctx = store.keyword_at(&uri, after(line, ":i")).unwrap();
    assert!(!ctx.auto_resolved);
    assert_eq!(ctx.text, "i");
    assert_eq!(ctx.start.character, 3);
    assert_eq!(ctx.end.character, 6, "end spans the whole `:id`");

    let ctx = store.keyword_at(&uri, after(line, "::loc")).unwrap();
    assert!(ctx.auto_resolved);
    assert_eq!(ctx.text, "loc");

    let ctx = store.keyword_at(&uri, after(line, ":ns/")).unwrap();
    assert!(!ctx.auto_resolved);
    assert_eq!(ctx.text, "ns/");

    let ctx = store.keyword_at(&uri, after(line, "::al/")).unwrap();
    assert!(ctx.auto_resolved);
    assert_eq!(ctx.text, "al/");
}

#[test]
fn test_keyword_at_bare_markers_have_empty_text() {
    let line = "(f : ::)";
    let (store, uri) = store_with(line);

    let ctx = store.keyword_at(&uri, after(line, "(f :")).unwrap();
    assert!(!ctx.auto_resolved);
    assert_eq!(ctx.text, "");
    assert_eq!(ctx.start.character, 3, "start is the colon");
    assert_eq!(ctx.end.character, 4, "the colon itself is replaced");

    let ctx = store.keyword_at(&uri, after(line, "::")).unwrap();
    assert!(ctx.auto_resolved);
    assert_eq!(ctx.text, "");
    assert_eq!(ctx.start.character, 5, "start is the first colon");
}

#[test]
fn test_keyword_at_mid_token_spans_whole_token() {
    // `:na|me`: only `na` is matched against, but the accepted item replaces
    // the whole `:name` — otherwise the buffer ends up with `:nameme`.
    let line = "(f :name)";
    let (store, uri) = store_with(line);

    let ctx = store.keyword_at(&uri, after(line, ":na")).unwrap();
    assert_eq!(ctx.text, "na");
    assert_eq!(ctx.start.character, 3);
    assert_eq!(ctx.end.character, 8);
}

#[test]
fn test_keyword_at_rejects_non_keywords() {
    let line = "(inc x)";
    let (store, uri) = store_with(line);
    assert!(store.keyword_at(&uri, after(line, "(in")).is_none());
    // A bare `(` with nothing before it must not walk off the line start.
    assert!(store.keyword_at(&uri, Position::new(0, 0)).is_none());
}

#[test]
fn test_keyword_at_utf16_after_emoji() {
    // LSP columns are UTF-16 units: the returned range has to be, too.
    let line = "(str \"😀\" :id)";
    let (store, uri) = store_with(line);

    let ctx = store.keyword_at(&uri, after(line, ":i")).unwrap();
    assert_eq!(ctx.text, "i");
    // `(str "😀" ` is ten UTF-16 units: six chars, the two-unit emoji, then
    // the quote and the space.
    assert_eq!(ctx.start.character, 10);
    assert_eq!(ctx.end.character, 13);
}

/// The tree that the store keeps must be the tree of its text, coordinates and all.
fn assert_snapshot_matches_fresh_parse(store: &DocumentStore, uri: &str, expected: &str) {
    let snap = store.snapshot(uri).expect("open document has a snapshot");
    assert_eq!(snap.text, expected, "snapshot text");
    let fresh = parse_source(expected).expect("the text can be parsed");
    assert_eq!(format!("{:?}", snap.tree), format!("{:?}", fresh), "tree");
}

fn change(start: (u32, u32), end: (u32, u32), text: &str) -> ContentChange {
    ContentChange {
        range: Some(Range {
            start: Position::new(start.0, start.1),
            end: Position::new(end.0, end.1),
        }),
        text: text.to_string(),
    }
}

const SNAPSHOT_SRC: &str = "(ns my.app\n  (:require [clojure.string :as str]))\n\n(defn greet [name]\n  (str/join \" \" [\"hi\" name]))\n";

#[test]
fn snapshot_tree_matches_after_single_line_insert() {
    let (mut store, uri) = store_with(SNAPSHOT_SRC);
    assert_snapshot_matches_fresh_parse(&store, &uri, SNAPSHOT_SRC);
    store
        .apply_changes(&uri, &[change((3, 17), (3, 17), " greeting")])
        .unwrap();
    let expected = SNAPSHOT_SRC.replace("[name]", "[name greeting]");
    assert_snapshot_matches_fresh_parse(&store, &uri, &expected);
}

#[test]
fn snapshot_tree_matches_after_delete_across_lines() {
    let (mut store, uri) = store_with(SNAPSHOT_SRC);
    // From the end of `(ns my.app` through the require clause: the ns form
    // loses its second line entirely.
    store
        .apply_changes(&uri, &[change((0, 10), (1, 37), "")])
        .unwrap();
    let expected = "(ns my.app)\n\n(defn greet [name]\n  (str/join \" \" [\"hi\" name]))\n";
    assert_snapshot_matches_fresh_parse(&store, &uri, expected);
}

#[test]
fn snapshot_tree_matches_after_insert_with_newlines() {
    let (mut store, uri) = store_with(SNAPSHOT_SRC);
    store
        .apply_changes(&uri, &[change((2, 0), (2, 0), "(def a 1)\n(def b\n  2)\n")],
        )
        .unwrap();
    let expected = SNAPSHOT_SRC.replacen("\n\n", "\n(def a 1)\n(def b\n  2)\n\n", 1);
    assert_snapshot_matches_fresh_parse(&store, &uri, &expected);
}

#[test]
fn snapshot_tree_matches_after_edit_past_emoji() {
    // LSP columns are UTF-16 units; the tree edit needs bytes. An emoji is
    // two units but four bytes, so a naive conversion lands mid-token.
    let src = "(def s \"😀\") (f 1 2)\n";
    let (mut store, uri) = store_with(src);
    let col = "(def s \"😀\") (f 1".encode_utf16().count() as u32;
    store
        .apply_changes(&uri, &[change((0, col), (0, col), "0")])
        .unwrap();
    assert_snapshot_matches_fresh_parse(&store, &uri, "(def s \"😀\") (f 10 2)\n");
}

#[test]
fn snapshot_tree_matches_after_full_text_replacement() {
    let (mut store, uri) = store_with(SNAPSHOT_SRC);
    let replacement = "(ns other)\n(def x 1)\n";
    store
        .apply_changes(&uri, &[ContentChange {
                range: None,
                text: replacement.to_string(),
            }],
        )
        .unwrap();
    assert_snapshot_matches_fresh_parse(&store, &uri, replacement);
}

#[test]
fn snapshot_tree_matches_after_edit_sequence() {
    // Type a form character by character, mistype, back up, then delete a
    // whole line: the way an editor actually drives didChange.
    let (mut store, uri) = store_with(SNAPSHOT_SRC);
    let mut text = SNAPSHOT_SRC.to_string();
    let mut col = 0;
    for ch in "(defn shout [s] (str/upper-case s)".chars() {
        let s = ch.to_string();
        store
            .apply_changes(&uri, &[change((5, col), (5, col), &s)])
            .unwrap();
        text.push_str(&s);
        col += 1;
    }
    // The buffer is temporarily unbalanced here; the tree must still track.
    assert_snapshot_matches_fresh_parse(&store, &uri, &text);
    store
        .apply_changes(&uri, &[change((5, col), (5, col), "))")])
        .unwrap();
    text.push_str("))");
    assert_snapshot_matches_fresh_parse(&store, &uri, &text);
    store
        .apply_changes(&uri, &[change((5, col + 1), (5, col + 2), "")])
        .unwrap();
    text.pop();
    assert_snapshot_matches_fresh_parse(&store, &uri, &text);
    // Two changes in one notification, applied in order.
    store
        .apply_changes(&uri, &[
                change((2, 0), (3, 0), ""),
                change((0, 4), (0, 10), "renamed.app"),
            ],
        )
        .unwrap();
    let expected = text
        .replacen("\n\n(defn greet", "\n(defn greet", 1)
        .replacen("my.app", "renamed.app", 1);
    assert_snapshot_matches_fresh_parse(&store, &uri, &expected);
}

#[test]
fn test_text_up_to_utf16() {
    let (store, uri) = store_with("(str \"😀\") tail");
    let col = "(str \"😀\")".encode_utf16().count() as u32;
    let text = store.text_up_to(&uri, Position::new(0, col)).unwrap();
    assert_eq!(text, "(str \"😀\")");
}

#[test]
fn a_change_of_a_closed_document_is_refused() {
    let (mut store, uri) = store_with("(a)");
    store.close(&uri);
    let all = ContentChange {
        range: None,
        text: "(b)".to_string(),
    };
    match store.apply_changes(&uri, &[all]) {
        Err(ChangeError::NotOpen(name)) => assert_eq!(name, uri),
        other => panic!("unexpected {other:?}"),
    }
    assert_eq!(store.text(&uri), None);
}

#[test]
fn a_change_past_the_last_line_is_refused() {
    let (mut store, uri) = store_with("(a)\n");
    match store.apply_changes(&uri, &[change((9, 0), (9, 0), "x")]) {
        Err(ChangeError::OutOfRange(pos)) => assert_eq!(pos, Position::new(9, 0)),
        other => panic!("unexpected {other:?}"),
    }
    assert_eq!(store.text(&uri).as_deref(), Some("(a)\n"));
}

#[test]
fn versions_and_epochs_follow_the_document() {
    let (mut store, uri) = store_with("(a)");
    assert_eq!(store.current_version(&uri), None);
    store.set_version(&uri, 7);
    assert_eq!(store.current_version(&uri), Some(7));
    assert_eq!(store.lint_epoch(&uri), 0);
    assert_eq!(store.bump_lint_epoch(&uri), 1);
    assert_eq!(store.bump_lint_epoch(&uri), 2);
    assert_eq!(store.lint_epoch(&uri), 2);
    assert_eq!(store.lint_epoch("file:///other.clj"), 0);
    assert_eq!(store.open_uris(), vec![uri.clone()]);
    store.close(&uri);
    assert!(store.open_uris().is_empty());
    assert_eq!(store.current_version(&uri), None);
}

#[test]
fn columns_past_the_end_of_a_line_stop_at_its_end() {
    let (mut store, uri) = store_with("ab\ncd\n");
    store
        .apply_changes(&uri, &[change((0, 99), (0, 99), "!")])
        .unwrap();
    assert_eq!(store.text(&uri).as_deref(), Some("ab!\ncd\n"));
    assert_eq!(store.line_text(&uri, 1).as_deref(), Some("cd\n"));
    assert_eq!(store.line_text(&uri, 5), None);
}

#[test]
fn units_and_characters_convert_both_ways() {
    let chars: Vec<char> = "a\u{1F600}b".chars().collect();
    assert_eq!(utf16_col_to_char(&chars, 3), 2);
    assert_eq!(char_col_to_utf16(&chars, 2), 3);
    assert_eq!(utf16_col_to_char(&chars, 9), 3);
}

#[test]
fn an_edit_counts_bytes_and_rows() {
    let rope = ropey::Rope::from_str("a\u{e9}\nbc\n");
    let edit = input_edit(&rope, 1, 4, "x\ny\u{e9}");
    assert_eq!(edit.start_byte, 1);
    assert_eq!(edit.old_end_byte, 5);
    assert_eq!(edit.new_end_byte, 6);
    assert_eq!(edit.start_position, Point { row: 0, column: 1 });
    assert_eq!(edit.old_end_position, Point { row: 1, column: 1 });
    assert_eq!(edit.new_end_position, Point { row: 1, column: 3 });
}

#[test]
fn is_keyword_at_looks_at_the_token() {
    let line = "(f :id x)";
    let (store, uri) = store_with(line);
    assert!(store.is_keyword_at(&uri, Position::new(0, 4)));
    assert!(!store.is_keyword_at(&uri, Position::new(0, 7)));
}

#[test]
fn a_position_past_a_line_lies_before_what_ends_it() {
    let at = |text: &str, line: u32, character: u32| {
        position_to_char(&ropey::Rope::from_str(text), Position::new(line, character))
    };
    assert_eq!(at("ab\ncd", 0, 99), Some(2));
    assert_eq!(at("ab\r\ncd", 0, 3), Some(2));
    assert_eq!(at("ab\rcd", 0, 99), Some(2));
    assert_eq!(at("ab\u{2028}cd", 0, 99), Some(2));
    assert_eq!(at("ab\ncd", 1, 99), Some(5));
    assert_eq!(at("ab\ncd", 1, 1), Some(4));
    assert_eq!(at("\n", 0, 9), Some(0));
    assert_eq!(at("ab\ncd", 2, 0), None);
}
