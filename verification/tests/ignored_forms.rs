use clj_pulse::handlers::ignored_forms::ignored_form_ranges;

/// Flattens ranges to `(start_line, start_char, end_line, end_char)` tuples.
fn ranges(src: &str) -> Vec<(u32, u32, u32, u32)> {
    ignored_form_ranges(src)
        .into_iter()
        .map(|r| (r.start.line, r.start.character, r.end.line, r.end.character))
        .collect()
}

#[test]
fn discard_single_line() {
    // `#_ x` -> one range over the whole discard form.
    assert_eq!(ranges("#_ x"), vec![(0, 0, 0, 4)]);
}

#[test]
fn discard_multiline_is_one_range() {
    // `#_ (a<nl>b)` -> a single range spanning both lines.
    assert_eq!(ranges("#_ (a\nb)"), vec![(0, 0, 1, 2)]);
}

#[test]
fn discard_swallows_inner_forms() {
    // Stacked `#_ #_ 1 2` discards two forms -> one range, nothing nested.
    assert_eq!(ranges("#_ #_ 1 2"), vec![(0, 0, 0, 9)]);
}

#[test]
fn comment_form_single_line() {
    // `(comment (+ 1 2))` -> one whole-list range.
    assert_eq!(ranges("(comment (+ 1 2))"), vec![(0, 0, 0, 17)]);
}

#[test]
fn comment_form_multiline_is_one_range() {
    // `(comment<nl>  :x)` -> a single range spanning both lines.
    assert_eq!(ranges("(comment\n  :x)"), vec![(0, 0, 1, 5)]);
}

#[test]
fn quoted_comment_forms_are_data() {
    // Reader-quote, syntax-quote, and the `(quote …)` special form all make
    // a `(comment …)` inert data -> no range.
    assert!(ranges("'(comment 1)").is_empty());
    assert!(ranges("`(comment 1)").is_empty());
    assert!(ranges("(quote (comment 1))").is_empty());
}

#[test]
fn negative_guards_are_not_comment_forms() {
    assert!(ranges("(commentary 1)").is_empty());
    assert!(ranges("(comment-foo 1)").is_empty());
}

#[test]
fn line_comments_and_literals_are_excluded() {
    // `;` line comments are the grammar's job; literals are never dimmed.
    assert!(ranges("; line comment").is_empty());
    assert!(ranges("42").is_empty());
}
