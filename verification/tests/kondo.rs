use clj_pulse::index::DefKind;
use clj_pulse::kondo::{defining_macros, parse_findings, parse_lint_as, position};
use clj_pulse::lsp::{Diagnostic, Position, Severity};

fn has(pairs: &[(String, String)], macro_fqn: &str, target: &str) -> bool {
    pairs.iter().any(|(m, t)| m == macro_fqn && t == target)
}

#[test]
fn parses_lint_as_pairs() {
    let edn = r#"{:linters {:foo {:level :off}}
                      :lint-as {defcomponent/defcomponent clojure.core/def
                                plumbing.core/for-map clojure.core/for}}"#;
    let pairs = parse_lint_as(edn);
    assert_eq!(pairs.len(), 2);
    assert!(has(&pairs, "defcomponent/defcomponent", "clojure.core/def"));
    assert!(has(&pairs, "plumbing.core/for-map", "clojure.core/for"));
}

#[test]
fn missing_lint_as_yields_empty() {
    assert!(parse_lint_as(r#"{:linters {:foo {:level :off}}}"#).is_empty());
}

#[test]
fn non_map_input_yields_empty() {
    assert!(parse_lint_as("123").is_empty());
    assert!(parse_lint_as("not edn (((").is_empty());
}

#[test]
fn lint_as_value_not_a_map_yields_empty() {
    assert!(parse_lint_as(r#"{:lint-as :nope}"#).is_empty());
}

#[test]
fn unqualified_symbols_are_kept_as_bare_names() {
    // Rare, but a bare symbol key/value should round-trip without a slash.
    let pairs = parse_lint_as(r#"{:lint-as {defthing def}}"#);
    assert!(has(&pairs, "defthing", "def"));
}

// --- JSON findings -> LSP diagnostics -------------------------------

fn finding_diags(json: &str) -> Vec<Diagnostic> {
    parse_findings(json).expect("well-formed kondo output should parse")
}

#[test]
fn parses_a_finding_into_a_diagnostic() {
    // The exact shape clj-kondo emits for an unresolved namespace:
    // `other/thing` starting at col 6, end-col 17 (1-based, exclusive).
    let json = r#"{"findings":[{"type":"unresolved-namespace","level":"warning",
                       "filename":"/p/src/a.clj","row":3,"col":6,"end-row":3,"end-col":17,
                       "langs":[],"message":"Unresolved namespace other."}],
                       "summary":{"error":0,"warning":1}}"#;
    let diags = finding_diags(json);
    assert_eq!(diags.len(), 1);
    let d = &diags[0];
    assert_eq!(d.range.start, Position::new(2, 5));
    assert_eq!(d.range.end, Position::new(2, 16));
    assert_eq!(d.severity, Some(Severity::Warning));
    assert_eq!(d.code.as_deref(), Some("unresolved-namespace"));
    assert_eq!(d.source.as_deref(), Some("clj-kondo"));
    assert_eq!(d.message, "Unresolved namespace other.");
    assert!(!d.unnecessary);
    assert!(!d.deprecated);
}

#[test]
fn maps_every_level_to_a_severity() {
    let json = r#"{"findings":[
            {"type":"a","level":"error","row":1,"col":1,"message":"e"},
            {"type":"b","level":"warning","row":1,"col":1,"message":"w"},
            {"type":"c","level":"info","row":1,"col":1,"message":"i"}]}"#;
    let sev: Vec<_> = finding_diags(json).iter().map(|d| d.severity).collect();
    assert_eq!(
        sev,
        vec![
            Some(Severity::Error),
            Some(Severity::Warning),
            Some(Severity::Information),
        ]
    );
}

#[test]
fn missing_end_position_yields_a_one_char_range() {
    // Bracket-mismatch `syntax` findings carry no end-row/end-col.
    let json = r#"{"findings":[{"type":"syntax","level":"error","row":11,"col":5,
                       "message":"Mismatched bracket"}]}"#;
    let diags = finding_diags(json);
    assert_eq!(diags[0].range.start, Position::new(10, 4));
    assert_eq!(diags[0].range.end, Position::new(10, 5));
}

#[test]
fn unused_types_are_tagged_unnecessary() {
    let json = r#"{"findings":[
            {"type":"unused-namespace","level":"warning","row":2,"col":3,"message":"u"},
            {"type":"unused-binding","level":"warning","row":4,"col":1,"message":"u"}]}"#;
    for d in finding_diags(json) {
        assert!(d.unnecessary && !d.deprecated, "{:?}", d.code);
    }
}

#[test]
fn deprecated_var_is_tagged_deprecated() {
    let json = r#"{"findings":[{"type":"deprecated-var","level":"warning","row":2,
                       "col":3,"message":"d"}]}"#;
    let d = &finding_diags(json)[0];
    assert!(d.deprecated && !d.unnecessary);
}

#[test]
fn empty_findings_parse_to_an_empty_diagnostic_set() {
    // A clean file is success with zero diagnostics — distinct from a
    // failed run, which must leave the native set alone.
    let found = parse_findings(r#"{"findings":[],"summary":{}}"#).expect("a clean run");
    assert!(found.is_empty());
}

#[test]
fn unparseable_output_yields_none() {
    assert!(parse_findings("").is_none());
    assert!(parse_findings("Exception in thread \"main\"").is_none());
    assert!(parse_findings("[1,2,3]").is_none());
    assert!(parse_findings(r#"{"summary":{}}"#).is_none());
}

#[test]
fn malformed_findings_are_skipped_not_fatal() {
    // One good finding among junk still reaches the editor.
    let json = r#"{"findings":[
            {"level":"error","row":1,"col":1,"message":"no type"},
            {"type":"ok","level":"error","row":7,"col":2,"message":"good"}]}"#;
    let diags = finding_diags(json);
    assert_eq!(diags.len(), 1);
    assert_eq!(diags[0].message, "good");
}

#[test]
fn rows_and_columns_are_counted_from_one() {
    assert_eq!(position(1, 1), Position::new(0, 0));
    assert_eq!(position(0, 0), Position::new(0, 0));
    assert_eq!(position(u64::MAX, 3), Position::new(u32::MAX, 2));
}

#[test]
fn a_macro_defines_what_it_is_linted_as() {
    let pairs = parse_lint_as(
        r#"{:lint-as {a/defthing clojure.core/defn b/check clojure.test/deftest
                      c/each clojure.core/for d/other my.ns/def}}"#,
    );
    let kinds = defining_macros(&pairs);
    assert_eq!(kinds.get("a/defthing"), Some(&DefKind::Defn));
    assert_eq!(kinds.get("b/check"), Some(&DefKind::Deftest));
    assert!(kinds.get("c/each").is_none());
    assert!(kinds.get("d/other").is_none());
}
