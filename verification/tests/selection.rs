use clj_pulse::document::DocumentStore;
use clj_pulse::handlers::selection::selection_ranges;
use clj_pulse::lsp::{Position, Range};

/// The chain at `pos` as the text each step selects, innermost first.
fn steps(text: &str, line: u32, character: u32) -> Vec<String> {
    let mut store = DocumentStore::new();
    let uri = "file:///test.clj";
    store.open(uri.to_string(), text.to_string());
    let result = selection_ranges(&store, uri, &vec![Position { line, character }]).unwrap();
    assert_eq!(result.len(), 1, "one chain per requested position");
    result[0].iter().map(|range| slice(text, *range)).collect()
}

/// The text `range` covers. ASCII-only, which every test snippet here is.
fn slice(text: &str, range: Range) -> String {
    let lines: Vec<&str> = text.split('\n').collect();
    if range.start.line == range.end.line {
        let line = lines[range.start.line as usize];
        return line[range.start.character as usize..range.end.character as usize].to_string();
    }
    let mut out =
        lines[range.start.line as usize][range.start.character as usize..].to_string();
    for line in &lines[range.start.line as usize + 1..range.end.line as usize] {
        out.push('\n');
        out.push_str(line);
    }
    out.push('\n');
    out.push_str(&lines[range.end.line as usize][..range.end.character as usize]);
    out
}

#[test]
fn qualified_symbol_expands_from_its_name_part() {
    let text = "(ns app)\n(str/join x)";
    // Cursor inside `join`.
    assert_eq!(steps(text, 1, 6), vec!["join", "str/join", "(str/join x)"]);
}

#[test]
fn cursor_on_the_qualifier_starts_at_the_whole_token() {
    let text = "(ns app)\n(str/join x)";
    // Cursor inside `str`: there is no namespace-only step.
    assert_eq!(steps(text, 1, 2), vec!["str/join", "(str/join x)"]);
}

#[test]
fn keyword_marker_starts_at_the_whole_token() {
    let text = "(ns app)\n(get m ::k)";
    // Cursor on the `::` marker, before the name part.
    assert_eq!(steps(text, 1, 8), vec!["::k", "(get m ::k)"]);
}

#[test]
fn nested_forms_expand_outward() {
    let text = "(defn f [x]\n  (let [y 1]\n    (+ x y)))";
    // Cursor on `y` in the body.
    let got = steps(text, 2, 9);
    assert_eq!(got[0], "y");
    assert_eq!(got[1], "(+ x y)");
    assert_eq!(got[2], "(let [y 1]\n    (+ x y))");
    assert_eq!(got[3], text);
    assert_eq!(got.len(), 4, "{:?}", got);
}

#[test]
fn cursor_after_a_closing_paren_starts_at_the_enclosing_form() {
    let text = "(defn f [x]\n  (+ x 1))";
    // Just past the inner `)`: the cursor is no longer inside the form it
    // closed, so the chain starts at the form that encloses the position.
    let got = steps(text, 1, 9);
    assert_eq!(got, vec![text], "{:?}", got);
}

#[test]
fn whitespace_between_forms_yields_one_empty_range() {
    let text = "(ns app)\n\n(defn f [] 1)";
    let got = steps(text, 1, 0);
    assert_eq!(got, vec![""], "{:?}", got);
}

#[test]
fn a_closed_document_has_no_selections() {
    let store = DocumentStore::new();
    assert!(selection_ranges(&store, "file:///test.clj", &vec![Position::new(0, 0)]).is_none());
}
