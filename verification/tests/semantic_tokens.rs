use clj_pulse::handlers::semantic_tokens::{
    compute_tokens, encode, legend, AbsToken, TYPE_COMMENT, TYPE_KEYWORD, TYPE_NUMBER, TYPE_REGEXP,
    TYPE_STRING,
};

/// Flattens `compute_tokens` to `(line, start_char, len, type_index)` tuples
/// for compact assertions.
fn tuples(src: &str) -> Vec<(u32, u32, u32, u32)> {
    compute_tokens(src)
        .into_iter()
        .map(|t| (t.line, t.start_char, t.len, t.type_index))
        .collect()
}

#[test]
fn line_comment_is_one_comment_token() {
    assert_eq!(tuples("; hello"), vec![(0, 0, 7, TYPE_COMMENT)]);
}

#[test]
fn string_literal() {
    assert_eq!(tuples(r#""hi""#), vec![(0, 0, 4, TYPE_STRING)]);
}

#[test]
fn char_literal_is_string_typed() {
    assert_eq!(tuples(r"\a"), vec![(0, 0, 2, TYPE_STRING)]);
}

#[test]
fn multiline_string_splits_per_line_utf16() {
    // `"a<nl>bc"` -> line0 `"a` (2 units), line1 `bc"` (3 units).
    assert_eq!(
        tuples("\"a\nbc\""),
        vec![(0, 0, 2, TYPE_STRING), (1, 0, 3, TYPE_STRING)]
    );
}

#[test]
fn regex_literal() {
    // `#"\d+"` is 6 UTF-16 units.
    assert_eq!(tuples(r##"#"\d+""##), vec![(0, 0, 6, TYPE_REGEXP)]);
}

#[test]
fn number_literals_int_float_ratio() {
    assert_eq!(tuples("42"), vec![(0, 0, 2, TYPE_NUMBER)]);
    assert_eq!(tuples("3.14"), vec![(0, 0, 4, TYPE_NUMBER)]);
    assert_eq!(tuples("1/2"), vec![(0, 0, 3, TYPE_NUMBER)]);
}

#[test]
fn keyword_plain_and_qualified_are_single_tokens() {
    assert_eq!(tuples(":foo"), vec![(0, 0, 4, TYPE_KEYWORD)]);
    // The whole `:ns/name` is one keyword token (never split into ns/name).
    assert_eq!(tuples(":ns/name"), vec![(0, 0, 8, TYPE_KEYWORD)]);
}

#[test]
fn discard_single_line_swallows_inner() {
    // `#_ 42` -> one comment span; the inner number is not tokenized.
    assert_eq!(tuples("#_ 42"), vec![(0, 0, 5, TYPE_COMMENT)]);
}

#[test]
fn discard_multiline_swallows_inner_and_splits() {
    // `#_ (1<nl>2)` -> grey split over two lines; inner numbers swallowed.
    let ts = tuples("#_ (1\n2)");
    assert_eq!(ts, vec![(0, 0, 5, TYPE_COMMENT), (1, 0, 2, TYPE_COMMENT)]);
    assert!(ts.iter().all(|t| t.3 == TYPE_COMMENT));
}

#[test]
fn stacked_discard_swallows_both_forms() {
    // `#_ #_ 1 2` discards two forms -> one comment span, no number tokens.
    let ts = tuples("#_ #_ 1 2");
    assert_eq!(ts, vec![(0, 0, 9, TYPE_COMMENT)]);
}

#[test]
fn string_inside_discard_not_separately_tokenized() {
    assert_eq!(tuples(r#"#_ "x""#), vec![(0, 0, 6, TYPE_COMMENT)]);
}

#[test]
fn non_ascii_lengths_are_utf16() {
    // `"café"` -> quotes + café = 6 UTF-16 units.
    assert_eq!(tuples("\"café\""), vec![(0, 0, 6, TYPE_STRING)]);
    // `; →` -> `;`, space, arrow = 3 UTF-16 units.
    assert_eq!(tuples("; →"), vec![(0, 0, 3, TYPE_COMMENT)]);
}

#[test]
fn legend_type_indices_match_constants() {
    let l = legend();
    assert_eq!(l[TYPE_COMMENT as usize], "comment");
    assert_eq!(l[TYPE_STRING as usize], "string");
    assert_eq!(l[TYPE_REGEXP as usize], "regexp");
    assert_eq!(l[TYPE_NUMBER as usize], "number");
    assert_eq!(l[TYPE_KEYWORD as usize], "keyword");
    assert_eq!(l.len(), 5);
}

#[test]
fn encode_delta_same_line_and_line_advance() {
    let abs = vec![
        AbsToken {
            line: 0,
            start_char: 0,
            len: 7,
            type_index: 0,
        },
        AbsToken {
            line: 0,
            start_char: 10,
            len: 4,
            type_index: 1,
        },
        AbsToken {
            line: 2,
            start_char: 3,
            len: 2,
            type_index: 3,
        },
    ];
    let flat: Vec<u32> = encode(&abs)
        .iter()
        .flat_map(|t| {
            [
                t.delta_line,
                t.delta_start,
                t.length,
                t.token_type,
                t.token_modifiers_bitset,
            ]
        })
        .collect();
    assert_eq!(
        flat,
        vec![
            0, 0, 7, 0, 0, // first token, absolute
            0, 10, 4, 1, 0, // same line: delta_start = 10 - 0
            2, 3, 2, 3, 0, // line +2: delta_start resets to absolute 3
        ]
    );
}

#[test]
fn encode_sorts_out_of_order_input() {
    let abs = vec![
        AbsToken {
            line: 1,
            start_char: 0,
            len: 2,
            type_index: 3,
        },
        AbsToken {
            line: 0,
            start_char: 5,
            len: 3,
            type_index: 4,
        },
    ];
    let enc = encode(&abs);
    assert_eq!((enc[0].delta_line, enc[0].delta_start), (0, 5));
    assert_eq!((enc[1].delta_line, enc[1].delta_start), (1, 0));
}

#[test]
fn encoded_tokens_can_be_decoded() {
    let abs = compute_tokens("1 2\n:a \"b\nc\"");
    let (mut line, mut start) = (0, 0);
    let mut decoded = vec![];
    for t in encode(&abs) {
        start = if t.delta_line == 0 { start + t.delta_start } else { t.delta_start };
        line += t.delta_line;
        decoded.push((line, start, t.length, t.token_type));
    }
    assert_eq!(decoded, tuples("1 2\n:a \"b\nc\""));
}
