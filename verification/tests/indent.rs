use clj_pulse::document::DocumentStore;
use clj_pulse::handlers::indent::{indent_at, on_type_formatting, position_to_byte, reindent_line};
use clj_pulse::lsp::Position;

/// Indent for a cursor at the very end of `source` (the start of the new
/// line just created by Enter).
fn indent(source: &str) -> Option<u32> {
    let line = (source.split('\n').count() - 1) as u32;
    indent_at(source, Position::new(line, 0))
}

#[test]
fn vector_aligns_to_first_element() {
    assert_eq!(indent("(let [a 1\n"), Some(6));
    assert_eq!(indent("[a 1\n"), Some(1));
    assert_eq!(indent("{:a 1\n"), Some(1));
    assert_eq!(indent("#{a\n"), Some(2));
}

#[test]
fn symbol_headed_list_indents_two_spaces() {
    assert_eq!(indent("(when x\n"), Some(2));
    assert_eq!(indent("(foo bar\n"), Some(2));
    assert_eq!(indent("#(foo\n"), Some(3));
}

#[test]
fn non_symbol_head_aligns() {
    assert_eq!(indent("((f)\n"), Some(1));
    assert_eq!(indent("(:k v\n"), Some(1));
    assert_eq!(indent("(1 2\n"), Some(1));
    assert_eq!(indent("(-5 3\n"), Some(1));
    assert_eq!(indent("(\"s\" x\n"), Some(1));
}

#[test]
fn minus_symbol_head_is_a_symbol() {
    assert_eq!(indent("(- 5\n"), Some(2));
}

#[test]
fn nested_uses_innermost_open_form() {
    assert_eq!(indent("(a (b c\n"), Some(5));
}

#[test]
fn inside_string_or_regex_returns_none() {
    assert_eq!(indent("\"ab\n"), None);
    assert_eq!(indent("#\"ab\n"), None);
    assert_eq!(indent("(f \"ab\n"), None);
    // Trailing escape keeps the string open.
    assert_eq!(indent("\"ab\\\n"), None);
}

#[test]
fn top_level_is_zero() {
    assert_eq!(indent("(foo)\n"), Some(0));
    assert_eq!(indent("(foo)\nbar\n"), Some(0));
    assert_eq!(indent("\n"), Some(0));
}

#[test]
fn openers_in_skipped_constructs_do_not_count() {
    // ; comment
    assert_eq!(indent("; (a\n(foo x\n"), Some(2));
    // closed string containing a bracket
    assert_eq!(indent("\"(a\" x\n"), Some(0));
    // closed regex containing a bracket
    assert_eq!(indent("#\"(a\" (f\n"), Some(8));
    // char literal bracket
    assert_eq!(indent("(f \\( x\n"), Some(2));
    // char literal backslash followed by a real opener
    assert_eq!(indent("(f \\\\ (g\n"), Some(8));
}

#[test]
fn discard_is_transparent_for_balance() {
    assert_eq!(indent("(foo #_(bar) baz\n"), Some(2));
    assert_eq!(indent("(foo #_(bar\n"), Some(9));
}

#[test]
fn unmatched_closer_is_ignored() {
    assert_eq!(indent(")\n(foo x\n"), Some(2));
}

#[test]
fn mismatched_closer_does_not_pop_the_open_frame() {
    // `]` must not close `(foo` — mid-edit buffers are routinely broken.
    assert_eq!(indent("(foo ]\n"), Some(2));
    // `)` against an open `[` is ignored; the vector stays innermost.
    assert_eq!(indent("(a [b ) c\n"), Some(4));
}

#[test]
fn columns_are_utf16_units() {
    // 😀 is two UTF-16 units: ( f ␠ " 😀 😀 " ␠ ( g → opener ends at 9.
    assert_eq!(indent("(f \"😀\" (g\n"), Some(10));
}

#[test]
fn position_to_byte_handles_utf16() {
    // é: 2 bytes, 1 UTF-16 unit → col 5 is `(` at byte 6.
    assert_eq!(position_to_byte("café (x\n", Position::new(0, 5)), 6);
    // →: 3 bytes, 1 unit.
    assert_eq!(position_to_byte("a→b\n", Position::new(0, 2)), 4);
    // 😀: 4 bytes, 2 units.
    assert_eq!(position_to_byte("😀x", Position::new(0, 2)), 4);
}

#[test]
fn position_to_byte_clamps() {
    // Column past the line end clamps to the line end.
    assert_eq!(position_to_byte("ab\ncd", Position::new(0, 99)), 2);
    // Line past the document end clamps to the document end.
    assert_eq!(position_to_byte("ab\ncd", Position::new(9, 0)), 5);
    assert_eq!(position_to_byte("ab\ncd", Position::new(1, 1)), 4);
}

/// A store that holds `text` under the name that is given back.
fn store_with(text: &str) -> (DocumentStore, String) {
    let mut store = DocumentStore::new();
    let uri = "file:///test.clj".to_string();
    store.open(uri.clone(), text.to_string());
    (store, uri)
}

#[test]
fn a_new_line_is_indented_in_place() {
    let (store, uri) = store_with("(when x\n     y)");
    let edit = on_type_formatting(&store, &uri, Position::new(1, 0), "\n").expect("an edit");
    assert_eq!(edit.range.start, Position::new(1, 0));
    assert_eq!(edit.range.end, Position::new(1, 5));
    assert_eq!(edit.new_text, "  ");
    assert!(on_type_formatting(&store, &uri, Position::new(1, 0), "x").is_none());
    assert!(on_type_formatting(&store, "file:///other.clj", Position::new(1, 0), "\n").is_none());
}

#[test]
fn a_line_that_stands_right_is_left_alone() {
    assert!(reindent_line("(when x\n  y)", Position::new(1, 0)).is_none());
    assert!(reindent_line("\"a\n b\"", Position::new(1, 0)).is_none());
}
