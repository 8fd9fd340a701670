use clj_pulse::document::DocumentStore;
use clj_pulse::handlers::signature::{
    build_help, find_call_context, handle, pick_active, split_arity_list, split_params,
};
use clj_pulse::index::extractor::extract_full;
use clj_pulse::index::symbols::Index;
use clj_pulse::lsp::Position;

#[test]
fn test_call_context_first_arg() {
    assert_eq!(find_call_context("(map "), Some(("map".to_string(), 0)));
}

#[test]
fn test_call_context_second_arg() {
    assert_eq!(find_call_context("(map inc "), Some(("map".to_string(), 1)));
}

#[test]
fn test_call_context_typing_arg() {
    // Cursor inside the first argument still highlights param 0
    assert_eq!(find_call_context("(map in"), Some(("map".to_string(), 0)));
}

#[test]
fn test_call_context_typing_head() {
    assert_eq!(find_call_context("(ma"), None);
    assert_eq!(find_call_context("("), None);
}

#[test]
fn test_call_context_nested_form_is_one_arg() {
    assert_eq!(
        find_call_context("(map (fn [x] x) "),
        Some(("map".to_string(), 1))
    );
}

#[test]
fn test_call_context_inside_nested_call() {
    assert_eq!(
        find_call_context("(map (assoc m "),
        Some(("assoc".to_string(), 1))
    );
}

#[test]
fn test_call_context_ignores_parens_in_strings_and_comments() {
    assert_eq!(
        find_call_context("(str \"(((\" "),
        Some(("str".to_string(), 1))
    );
    assert_eq!(
        find_call_context("(map ; comment (((\n  inc "),
        Some(("map".to_string(), 1))
    );
}

#[test]
fn test_call_context_qualified_symbol() {
    assert_eq!(
        find_call_context("(core/add 1 "),
        Some(("core/add".to_string(), 1))
    );
}

#[test]
fn test_call_context_inside_vector_belongs_to_list_head() {
    assert_eq!(find_call_context("(let [x 1"), Some(("let".to_string(), 0)));
}

#[test]
fn test_split_params_rest_and_destructuring() {
    assert_eq!(split_params("[a b & more]"), vec!["a", "b", "& more"]);
    assert_eq!(
        split_params("[{:keys [x y]} z]"),
        vec!["{:keys [x y]}", "z"]
    );
    assert!(split_params("[]").is_empty());
}

#[test]
fn test_split_params_type_hints_and_metadata() {
    assert_eq!(split_params("[^String s]"), vec!["^String s"]);
    assert_eq!(
        split_params("[^String s ^long n]"),
        vec!["^String s", "^long n"]
    );
    // Stacked metadata stays with its parameter
    assert_eq!(
        split_params("[^:private ^String s]"),
        vec!["^:private ^String s"]
    );
    // Metadata map form
    assert_eq!(
        split_params("[^{:tag String} s x]"),
        vec!["^{:tag String} s", "x"]
    );
}

#[test]
fn test_split_arity_list() {
    assert_eq!(
        split_arity_list("([] [x] [x y & more])"),
        vec!["[]", "[x]", "[x y & more]"]
    );
}

#[test]
fn test_pick_active_multi_arity() {
    let arities = vec!["[x]".to_string(), "[x y]".to_string()];
    assert_eq!(pick_active(&arities, 0), (0, 0));
    assert_eq!(pick_active(&arities, 1), (1, 1));
    // Beyond all arities: clamp to last
    assert_eq!(pick_active(&arities, 5), (1, 1));
}

#[test]
fn test_pick_active_rest_param() {
    let arities = vec!["[x & more]".to_string()];
    assert_eq!(pick_active(&arities, 4), (0, 1));
}

#[test]
fn help_names_every_arity() {
    let arities = vec!["[x]".to_string(), "[x y]".to_string()];
    let help = build_help("f", &arities, &Some("Doc.".to_string()), 1).expect("help");
    let labels: Vec<&str> = help.signatures.iter().map(|s| s.label.as_str()).collect();
    assert_eq!(labels, vec!["(f x)", "(f x y)"]);
    assert_eq!(help.signatures[1].parameters, vec!["x", "y"]);
    assert_eq!(help.signatures[0].documentation.as_deref(), Some("Doc."));
    assert_eq!((help.active_signature, help.active_parameter), (1, 1));
    assert!(build_help("f", &vec![], &None, 0).is_none());
}

#[test]
fn the_call_round_the_cursor_is_described() {
    let source = "(ns app)\n(defn add [a b] a)\n(add 1 ";
    let mut store = DocumentStore::new();
    store.open("file:///app.clj".to_string(), source.to_string());
    let mut index = Index::new();
    let (meta, symbols, occurrences) = extract_full(source, "/app.clj").unwrap();
    index.insert_file(meta, symbols, occurrences);
    let help = handle(&index, &store, "file:///app.clj", "/app.clj", Position::new(2, 7)).expect("help");
    assert_eq!(help.signatures[0].parameters, vec!["a", "b"]);
    assert_eq!((help.active_signature, help.active_parameter), (0, 1));
}

#[test]
fn a_head_is_whole_once_a_blank_follows() {
    for head in ["map", "str/join", "->>", "a.b/c?", "\u{e9}t\u{e9}"] {
        assert_eq!(find_call_context(&format!("({head}")), None);
        assert_eq!(
            find_call_context(&format!("({head} ")),
            Some((head.to_string(), 0))
        );
    }
}

#[test]
fn a_head_may_stand_behind_commas_and_comments() {
    assert_eq!(find_call_context("(, f 1"), Some(("f".to_string(), 0)));
    assert_eq!(find_call_context("(; why\n f 1 "), Some(("f".to_string(), 1)));
}
