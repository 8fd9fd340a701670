use clj_pulse::clojuredocs::{ClojureDocs, RawRef, RawVar};
use clj_pulse::handlers::clojuredocs::{lookup, resolve_var};
use clj_pulse::index::core_library::core_symbols;
use clj_pulse::index::extractor::extract;
use clj_pulse::index::symbols::Index;

fn index_of(source: &str, file: &str) -> Index {
    let mut index = Index::new_with_core(core_symbols());
    let (meta, symbols) = extract(source, file).unwrap();
    index.insert_file(meta, symbols, vec![]);
    index
}

fn fixture_index() -> Index {
    index_of("(ns simple.core)\n(defn add [a b] (+ a b))\n", "src/simple/core.clj")
}

/// A core-only index plus one namespace with a `clojure.string` alias and
/// nothing indexed for `clojure.string` itself.
fn aliased_index() -> Index {
    index_of(
        "(ns demo (:require [clojure.string :as str]))\n(defn go [] (str/join \",\" [1]))\n",
        "demo.clj",
    )
}

#[test]
fn core_symbol_resolves_to_clojure_core() {
    let index = fixture_index();
    assert_eq!(
        resolve_var(&index, "map", "simple.core").as_deref(),
        Some("clojure.core/map")
    );
}

#[test]
fn project_symbol_resolves_to_its_fqn() {
    let index = fixture_index();
    assert_eq!(
        resolve_var(&index, "add", "simple.core").as_deref(),
        Some("simple.core/add")
    );
}

#[test]
fn special_form_resolves_to_clojure_core() {
    let index = fixture_index();
    assert_eq!(
        resolve_var(&index, "if", "simple.core").as_deref(),
        Some("clojure.core/if")
    );
}

#[test]
fn alias_expands_without_an_indexed_namespace() {
    let index = aliased_index();
    assert_eq!(
        resolve_var(&index, "str/join", "demo").as_deref(),
        Some("clojure.string/join")
    );
}

#[test]
fn unknown_qualifier_is_taken_literally() {
    let index = aliased_index();
    assert_eq!(
        resolve_var(&index, "clojure.set/union", "demo").as_deref(),
        Some("clojure.set/union")
    );
}

#[test]
fn var_quote_and_quote_are_stripped() {
    let index = fixture_index();
    assert_eq!(
        resolve_var(&index, "#'map", "simple.core").as_deref(),
        Some("clojure.core/map")
    );
    assert_eq!(
        resolve_var(&index, "'map", "simple.core").as_deref(),
        Some("clojure.core/map")
    );
}

#[test]
fn unknown_bare_word_falls_back_to_clojure_core() {
    let index = fixture_index();
    assert_eq!(
        resolve_var(&index, "frobnicate", "simple.core").as_deref(),
        Some("clojure.core/frobnicate")
    );
}

#[test]
fn division_and_malformed_words() {
    let index = fixture_index();
    assert_eq!(
        resolve_var(&index, "/", "simple.core").as_deref(),
        Some("clojure.core//")
    );
    assert_eq!(resolve_var(&index, "foo/", "simple.core"), None);
    assert_eq!(resolve_var(&index, "", "simple.core"), None);
    assert_eq!(resolve_var(&index, "#'", "simple.core"), None);
}

#[test]
fn lookup_says_what_was_meant_and_what_is_known() {
    let var = RawVar {
        ns: Some("clojure.core".to_string()),
        name: Some("map".to_string()),
        doc: None,
        arglists: vec!["f coll".to_string()],
        added: None,
        href: None,
        examples: vec![Some("(map inc [1])".to_string())],
        see_alsos: vec![Some(RawRef {
            ns: Some("clojure.core".to_string()),
            name: Some("mapv".to_string()),
        })],
    };
    let docs = ClojureDocs::from_vars(&vec![var]);
    let found = lookup(&docs, "clojure.core/map");
    assert_eq!(found.symbol.as_deref(), Some("clojure.core/map"));
    let entry = found.entry.expect("an entry");
    assert_eq!(entry.arglists, vec!["[f coll]"]);
    assert_eq!(entry.see_alsos, vec!["clojure.core/mapv"]);
    assert_eq!(entry.url, "https://clojuredocs.org/clojure.core/map");
    assert_eq!(entry.doc, None);
    let missing = lookup(&docs, "clojure.core/frob");
    assert_eq!(missing.symbol.as_deref(), Some("clojure.core/frob"));
    assert!(missing.entry.is_none());
}
