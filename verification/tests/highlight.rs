use clj_pulse::document::DocumentStore;
use clj_pulse::handlers::highlight::{document_highlight, DocumentHighlightKind};
use clj_pulse::index::symbols::Index;
use clj_pulse::lsp::{Position, Range};

const URI: &str = "file:///test.clj";
const PATH: &str = "/test.clj";

/// A store holding one open `file:///test.clj`, plus an empty index: every
/// resolution these tests exercise runs off the buffer's own parse.
fn setup(text: &str) -> (Index, DocumentStore) {
    let mut store = DocumentStore::new();
    store.open(URI.to_string(), text.to_string());
    (Index::new(), store)
}

fn highlights_at(text: &str, line: u32, character: u32) -> Vec<(String, Range)> {
    let (index, store) = setup(text);
    document_highlight(&index, &store, URI, PATH, Position { line, character })
        .unwrap_or_default()
        .into_iter()
        .map(|h| {
            let kind = match h.kind {
                DocumentHighlightKind::Write => "write",
                DocumentHighlightKind::Read => "read",
                DocumentHighlightKind::Text => "text",
            };
            (kind.to_string(), h.range)
        })
        .collect()
}

/// The text `range` covers, so a test can assert the exact span.
fn slice(text: &str, range: Range) -> String {
    let line = text.lines().nth(range.start.line as usize).unwrap();
    line[range.start.character as usize..range.end.character as usize].to_string()
}

#[test]
fn local_binding_is_write_and_usages_are_read() {
    let text = "(ns app)\n(defn f [x]\n  (+ x x))";
    // Cursor on the second `x` usage.
    let got = highlights_at(text, 2, 7);
    let kinds: Vec<&str> = got.iter().map(|(k, _)| k.as_str()).collect();
    assert_eq!(kinds, vec!["write", "read", "read"], "{:?}", got);
    assert_eq!(
        got[0].1.start,
        Position::new(1, 9),
        "binding site: {:?}",
        got
    );
}

#[test]
fn var_defined_in_this_file_is_write_plus_reads() {
    let text = "(ns app)\n(defn add [a b] (+ a b))\n(defn g [] (add 1 2))";
    let got = highlights_at(text, 2, 12);
    let kinds: Vec<&str> = got.iter().map(|(k, _)| k.as_str()).collect();
    assert_eq!(kinds, vec!["write", "read"], "{:?}", got);
    assert_eq!(slice(text, got[0].1), "add");
    assert_eq!(slice(text, got[1].1), "add");
}

#[test]
fn var_defined_elsewhere_is_reads_only() {
    let text = "(ns app (:require [other :as o]))\n(defn g [] (o/add 1) (o/add 2))";
    let got = highlights_at(text, 1, 14);
    let kinds: Vec<&str> = got.iter().map(|(k, _)| k.as_str()).collect();
    assert_eq!(kinds, vec!["read", "read"], "{:?}", got);
    // Qualified usages highlight the name half, the same span rename edits.
    assert_eq!(slice(text, got[0].1), "add");
}

#[test]
fn keyword_occurrences_are_text_over_the_whole_token() {
    let text = "(ns app)\n(def m {::k 1})\n(defn g [] (::k m))";
    let got = highlights_at(text, 1, 10);
    let kinds: Vec<&str> = got.iter().map(|(k, _)| k.as_str()).collect();
    assert_eq!(kinds, vec!["text", "text"], "{:?}", got);
    assert_eq!(slice(text, got[0].1), "::k");
    assert_eq!(slice(text, got[1].1), "::k");
}

#[test]
fn nothing_under_the_cursor_returns_none() {
    let (index, store) = setup("(ns app)\n\n(defn f [] 1)");
    assert!(document_highlight(&index, &store, URI, PATH, Position::new(1, 0)).is_none());
}
