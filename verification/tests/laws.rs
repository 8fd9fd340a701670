use clj_pulse::document::{ContentChange, DocumentStore};
use clj_pulse::handlers::completion::complete_symbols;
use clj_pulse::handlers::hover::resolve_and_format;
use clj_pulse::handlers::matching::match_score;
use clj_pulse::handlers::{resolve_symbol, ResolvedSymbol};
use clj_pulse::index::extractor::{extract, extract_analysis_with, extract_full};
use clj_pulse::index::symbols::Index;
use clj_pulse::index::{CoreSymbol, ExtractConfig};
use clj_pulse::lsp::{Position, Range};
use clj_pulse::words::{split_by, trim};

fn core_sym(name: &str) -> CoreSymbol {
    CoreSymbol {
        name: name.to_string(),
        params: String::new(),
        doc: String::new(),
    }
}

fn take_project(index: &mut Index, source: &str, file: &str) {
    let (meta, symbols, occurrences) = extract_full(source, file).unwrap();
    index.insert_file(meta, symbols, occurrences);
}

fn take_library(index: &mut Index, source: &str, file: &str) {
    let (meta, symbols) = extract(source, file).unwrap();
    let source = clj_pulse::index::SymbolSource::Jar("/lib.jar".to_string());
    index.insert_lib_file(
        meta,
        clj_pulse::index::scanner::with_source(symbols, &source),
    );
}

#[test]
fn the_project_wins_whatever_comes_first() {
    let project = "(ns a)\n(defn f [x] x)\n";
    let library = "(ns a)\n(defn f [] 1)\n(defn g [] 2)\n";
    let mut one = Index::new();
    take_project(&mut one, project, "/p/a.clj");
    take_library(&mut one, library, "/lib.jar!/a.clj");
    let mut two = Index::new();
    take_library(&mut two, library, "/lib.jar!/a.clj");
    take_project(&mut two, project, "/p/a.clj");
    for index in [&one, &two] {
        assert_eq!(index.lookup("a/f").unwrap().file, "/p/a.clj");
        assert_eq!(index.ns_meta("a").unwrap().file, "/p/a.clj");
        assert!(index.owns("a"));
    }
}

#[test]
fn removing_a_file_undoes_taking_it_in() {
    let mut index = Index::new();
    take_project(&mut index, "(ns a)\n(defn f [] 1)\n", "/p/a.clj");
    take_project(&mut index, "(ns b)\n(defn g [] 1)\n", "/p/b.clj");
    index.remove_file("/p/b.clj");
    assert!(index.lookup("b/g").is_none());
    assert!(!index.has_namespace("b"));
    assert!(!index.is_project_path("/p/b.clj"));
    assert!(index.occurrences_in("/p/b.clj").is_none());
    assert!(index.lookup("a/f").is_some());
}

#[test]
fn clearing_libraries_keeps_the_project() {
    let mut index = Index::new();
    take_project(&mut index, "(ns a)\n(defn f [] 1)\n", "/p/a.clj");
    take_library(&mut index, "(ns l)\n(defn g [] 1)\n", "/lib.jar!/l.clj");
    assert!(index.is_library_namespace("l"));
    index.clear_libs();
    assert!(index.lookup("a/f").is_some());
    assert!(index.lookup("l/g").is_none());
    assert!(!index.has_namespace("l"));
}

#[test]
fn a_new_scan_forgets_stale_files() {
    let mut index = Index::new();
    take_project(&mut index, "(ns a)\n(defn f [] 1)\n", "/p/a.clj");
    take_project(&mut index, "(ns b)\n(defn g [] 1)\n", "/p/b.clj");
    let mut scan = Index::new();
    take_project(&mut scan, "(ns a)\n(defn h [] 1)\n", "/p/a.clj");
    index.merge_project_from(scan, &vec![]);
    assert!(index.lookup("a/h").is_some());
    assert_eq!(index.fqns_in_ns("a").unwrap(), vec!["a/h"]);
    assert!(index.lookup("b/g").is_none());
    assert!(!index.is_project_path("/p/b.clj"));
}

#[test]
fn an_own_var_shadows_a_builtin() {
    let mut index = Index::new_with_core(vec![core_sym("map")]);
    take_project(&mut index, "(ns a)\n(defn map [x] x)\n", "/p/a.clj");
    take_project(&mut index, "(ns b)\n", "/p/b.clj");
    assert!(matches!(
        resolve_symbol(&index, "map", "a"),
        Some(ResolvedSymbol::Project(s)) if s.ns == "a"
    ));
    assert!(matches!(resolve_symbol(&index, "map", "b"), Some(ResolvedSymbol::Core(_))));
    let own = resolve_and_format(&index, "map", "a").unwrap();
    assert!(!own.contains("clojure.core"), "{own}");
    let built_in = resolve_and_format(&index, "map", "b").unwrap();
    assert!(built_in.contains("clojure.core"), "{built_in}");
}

#[test]
fn let_go_never_falls_back_to_clojure() {
    let mut index = Index::new_with_core(vec![core_sym("zzz")]);
    take_project(&mut index, "(ns a)\n", "/p/a.lg");
    assert!(resolve_symbol(&index, "zzz", "a").is_some());
    index.mark_letgo_core();
    assert!(resolve_symbol(&index, "zzz", "a").is_none());
}

#[test]
fn longer_queries_match_no_more() {
    for name in ["reduce-kv", "map", "swap!"] {
        for query in ["m", "mp", "re", "rk", "swp"] {
            if match_score(name, query).is_some() {
                for cut in 0..query.len() {
                    assert!(match_score(name, &query[..cut]).is_some(), "{name} {query}");
                }
            }
        }
    }
}

#[test]
fn offers_rank_by_tier_and_pool() {
    let mut index = Index::new_with_core(vec![core_sym("add"), core_sym("address")]);
    take_project(&mut index, "(ns a)\n(defn add-all [] 1)\n", "/p/a.clj");
    let items = complete_symbols(&index, "add", "a");
    let mut sorted: Vec<(&str, &str)> = items
        .iter()
        .map(|i| (i.sort_text.as_str(), i.label.as_str()))
        .collect();
    sorted.sort();
    let labels: Vec<&str> = sorted.iter().map(|(_, label)| *label).collect();
    assert_eq!(labels, vec!["add", "add-all", "address"]);
    assert_eq!(sorted[0].0, "0-3-add");
}

#[test]
fn splitting_loses_only_the_separators() {
    let text = "a::b::::c";
    let parts = split_by(text, "::");
    assert_eq!(parts, vec!["a", "b", "", "c"]);
    assert_eq!(parts.join("::"), text);
    assert_eq!(trim(" \t a b\n"), "a b");
}

#[test]
fn changes_apply_in_the_order_they_come() {
    let change = |start: u32, end: u32, text: &str| ContentChange {
        range: Some(Range::new(Position::new(0, start), Position::new(0, end))),
        text: text.to_string(),
    };
    let (one, two) = (change(0, 1, "xy"), change(2, 2, "z"));
    let mut both = DocumentStore::new();
    both.open("u".to_string(), "abc".to_string());
    both.apply_changes("u", &[one.clone(), two.clone()]).unwrap();
    let mut each = DocumentStore::new();
    each.open("u".to_string(), "abc".to_string());
    each.apply_changes("u", &[one]).unwrap();
    each.apply_changes("u", &[two]).unwrap();
    assert_eq!(both.text("u").as_deref(), Some("xyzbc"));
    assert_eq!(both.text("u"), each.text("u"));
    both.apply_changes("u", &[change(3, 3, "")]).unwrap();
    assert_eq!(both.text("u"), each.text("u"));
}

#[test]
fn names_that_start_with_an_underscore_are_not_reported() {
    let found = extract_analysis_with(
        "(ns a)\n(defn f [x _y] (let [z 1 _w 2] 3))\n",
        "/a.clj",
        &ExtractConfig::default(),
    )
    .unwrap();
    let names: Vec<&str> = found.unused_bindings.iter().map(|b| b.name.as_str()).collect();
    assert_eq!(names, vec!["z", "x"]);
}

#[test]
fn keywords_never_share_a_name_with_vars() {
    let (_, symbols, occurrences) = extract_full(
        "(ns a (:require [b :as c]))\n(defn k [] [::k :x/k ::c/k :k])\n",
        "/a.clj",
    )
    .unwrap();
    let keywords: Vec<&str> = occurrences
        .iter()
        .map(|o| o.fqn.as_str())
        .filter(|fqn| fqn.starts_with(':'))
        .collect();
    assert_eq!(keywords, vec![":a/k", ":x/k", ":b/k"]);
    assert!(symbols.iter().all(|s| !s.fqn.starts_with(':')));
}
