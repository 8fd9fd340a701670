use clj_pulse::index::core_library::{core_names, core_symbols};
use clj_pulse::index::extractor::{extract_full, extract_full_with};
use clj_pulse::index::{CoreSymbol, DefKind, ExtractConfig};
use clj_pulse::index::symbols::Index;

#[test]
fn clear_libs_resets_letgo_core_marker() {
    // The marker is library-derived: clearing libs (e.g. on an lgx.edn
    // change that un-pins :lg-version) must drop it so the bare-word
    // resolver can fall back to the static clojure.core list again.
    let mut index = Index::new();
    index.mark_letgo_core();
    assert!(index.letgo_core());
    index.clear_libs();
    assert!(
        !index.letgo_core(),
        "clear_libs must reset the let-go core marker"
    );
}

/// The names that the usages of a text stand for.
fn used(source: &str, cfg: &ExtractConfig) -> Vec<String> {
    let (_, _, occurrences) = extract_full_with(source, "a.clj", cfg).unwrap();
    occurrences.into_iter().map(|o| o.fqn).collect()
}

#[test]
fn a_bare_core_name_is_a_usage_of_the_core_library() {
    let (_, _, occurrences) = extract_full("(ns a)\n(map inc x)\n", "a.clj").unwrap();
    let fqns: Vec<String> = occurrences.into_iter().map(|o| o.fqn).collect();
    assert_eq!(fqns, vec!["clojure.core/map", "clojure.core/inc", "a/x"]);
}

#[test]
fn an_own_definition_comes_before_the_core_library() {
    let cfg = ExtractConfig::default();
    let fqns = used("(ns a)\n(defn map [f] f)\n(map 1)\n", &cfg);
    assert_eq!(fqns.last().map(String::as_str), Some("a/map"));
}

#[test]
fn the_core_library_is_listed_once_and_without_blanks() {
    let names = core_names();
    assert_eq!(names.first().map(String::as_str), Some("*"));
    assert_eq!(names.last().map(String::as_str), Some("zipmap"));
    for name in ["defn", "let", "map", "->", "/", "not=", "swap!", "*out*"] {
        assert_eq!(names.iter().filter(|n| *n == name).count(), 1, "{}", name);
    }
    assert!(names.iter().all(|n| !n.is_empty() && !n.contains(char::is_whitespace)));
    let symbols = core_symbols();
    assert_eq!(symbols.len(), names.len());
    assert!(symbols.iter().zip(&names).all(|(s, n)| s.name == *n && s.params.is_empty()));
}

#[test]
fn a_core_symbol_of_the_index_is_a_core_name_of_its_configuration() {
    let index = Index::new_with_core(vec![CoreSymbol {
        name: "zzz".to_string(),
        params: String::new(),
        doc: String::new(),
    }]);
    let fqns = used("(ns a)\n(zzz map yyy)\n", index.extract_config());
    assert_eq!(fqns, vec!["clojure.core/zzz", "clojure.core/map", "a/yyy"]);
    let fqns = used("(ns a)\n(zzz map)\n", Index::new().extract_config());
    assert_eq!(fqns, vec!["a/zzz", "clojure.core/map"]);
}

#[test]
fn a_new_configuration_keeps_the_core_names() {
    let mut index = Index::new_with_core(vec![CoreSymbol {
        name: "zzz".to_string(),
        params: String::new(),
        doc: String::new(),
    }]);
    let mut cfg = ExtractConfig::default();
    cfg.lint_as.insert("my/defthing".to_string(), DefKind::Def);
    cfg.core_names = vec!["yyy".to_string()];
    index.set_extract_config(cfg);
    assert!(index.extract_config().lint_as.get("my/defthing").is_some());
    let fqns = used("(ns a)\n(zzz map yyy)\n", index.extract_config());
    assert_eq!(fqns, vec!["clojure.core/zzz", "clojure.core/map", "a/yyy"]);
}
