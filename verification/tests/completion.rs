use clj_pulse::document::DocumentStore;
use clj_pulse::handlers::completion::{complete_symbols, handle};
use clj_pulse::index::extractor::extract;
use clj_pulse::index::jdk::{JavaClassInfo, JavaMember, JdkIndex};
use clj_pulse::index::symbols::Index;
use clj_pulse::index::{CoreSymbol, DefKind, NsMeta, Symbol, SymbolSource};
use clj_pulse::lsp::{Position, Range};

fn nowhere() -> Range {
    Range::new(Position::new(0, 0), Position::new(0, 0))
}

fn class(fqn: &str, entry: &str, javadoc: Option<&str>, methods: Vec<JavaMember>) -> JavaClassInfo {
    JavaClassInfo {
        fqn: fqn.to_string(),
        entry: entry.to_string(),
        decl_name_range: nowhere(),
        extends: None,
        implements: vec![],
        javadoc: javadoc.map(str::to_string),
        methods,
        fields: vec![],
        ctors: vec![],
    }
}

fn method(name: &str, returns: &str, params: &[&str], javadoc: Option<&str>) -> JavaMember {
    JavaMember {
        name: name.to_string(),
        is_static: true,
        return_type: Some(returns.to_string()),
        params: params.iter().map(|p| p.to_string()).collect(),
        javadoc: javadoc.map(str::to_string),
        name_range: nowhere(),
    }
}

/// An index whose namespace `app.core` imports `demo.lib.Greeter`, beside
/// `java.lang.Sample`.
fn test_fixture() -> Index {
    let mut index = Index::new();
    index.set_jdk(JdkIndex {
        src_zip: "/jdk/src.zip".to_string(),
        classes: vec![
            class(
                "demo.lib.Greeter",
                "java.base/demo/lib/Greeter.java",
                Some("A greeter."),
                vec![method("greet", "String", &["String name"], Some("Greet by name."))],
            ),
            class(
                "java.lang.Sample",
                "java.base/java/lang/Sample.java",
                None,
                vec![method("of", "Sample", &["long n"], None)],
            ),
        ],
    });
    let (meta, syms) = extract("(ns app.core (:import [demo.lib Greeter]))", "app/core.clj").unwrap();
    index.insert_file(meta, syms, vec![]);
    index
}

fn core_sym(name: &str, params: &str) -> CoreSymbol {
    CoreSymbol {
        name: name.to_string(),
        params: params.to_string(),
        doc: String::new(),
    }
}

fn lib_sym(name: &str, ns: &str) -> Symbol {
    Symbol {
        name: name.to_string(),
        fqn: format!("{}/{}", ns, name),
        ns: ns.to_string(),
        kind: DefKind::Defn,
        params: vec![],
        doc: None,
        file: "core.lg".to_string(),
        source: SymbolSource::Dir("core".to_string()),
        range: nowhere(),
        name_range: nowhere(),
        private: false,
    }
}

fn meta(name: &str, file: &str) -> NsMeta {
    NsMeta {
        name: name.to_string(),
        ..NsMeta::empty(file)
    }
}

fn labels(index: &Index, prefix: &str) -> Vec<String> {
    complete_symbols(index, prefix, "app")
        .into_iter()
        .map(|i| i.label)
        .collect()
}

#[test]
fn completes_java_static_members_and_class_names() {
    let index = test_fixture();
    let java_labels = |prefix: &str| -> Vec<String> {
        complete_symbols(&index, prefix, "app.core")
            .into_iter()
            .map(|i| i.label)
            .collect()
    };
    // `Class/prefix` → static members, labelled `Class/member` so the editor
    // (which filters against the typed `Class/...`) keeps them.
    assert!(
        java_labels("Greeter/gr").contains(&"Greeter/greet".to_string()),
        "imported class statics: {:?}",
        java_labels("Greeter/gr")
    );
    // Same for an auto-`java.lang` class with no `:import`.
    assert!(
        java_labels("Sample/o").contains(&"Sample/of".to_string()),
        "auto-java.lang statics: {:?}",
        java_labels("Sample/o")
    );
    // PascalCase prefix → class names (imported, then auto-`java.lang`).
    assert!(java_labels("Gr").contains(&"Greeter".to_string()));
    assert!(java_labels("Sam").contains(&"Sample".to_string()));
}

fn letgo_index() -> Index {
    let mut index = Index::new_with_core(vec![
        core_sym("count", "([coll])"),    // a real let-go native
        core_sym("zzz-clojure-only", ""), // a clojure.core name let-go lacks
    ]);
    // Current (project) ns.
    index.insert_file(meta("app", "app.lg"), vec![], vec![]);
    // Live `.lg` core ns with `map`.
    index.insert_lib_file(meta("core", "core.lg"), vec![lib_sym("map", "core")]);
    index.mark_letgo_core();
    index
}

#[test]
fn letgo_completion_offers_builtins_not_static_core() {
    let index = letgo_index();
    assert!(
        labels(&index, "i").contains(&"if".to_string()),
        "special form if"
    );
    assert!(
        labels(&index, "cou").contains(&"count".to_string()),
        "native count"
    );
    assert!(
        labels(&index, "ma").contains(&"map".to_string()),
        "live .lg core map"
    );
    // The full clojure.core static pool is NOT dumped for let-go: a
    // clojure.core name that is not a let-go native must not be offered.
    assert!(!labels(&index, "zzz").contains(&"zzz-clojure-only".to_string()));
}

#[test]
fn letgo_native_completion_is_labelled() {
    let index = letgo_index();
    let item = complete_symbols(&index, "count", "app")
        .into_iter()
        .find(|i| i.label == "count")
        .expect("count offered");
    assert!(item.detail.unwrap().contains("native"));
}

#[test]
fn letgo_harvested_natives_offer_version_vars() {
    // A pinned let-go version whose lang.go was harvested: completion offers
    // the harvested names (e.g. the new `*command-line-args*` var) directly,
    // not just the static NATIVE_NAMES list.
    let mut index = Index::new_with_core(vec![core_sym("*command-line-args*", "")]);
    index.insert_file(meta("app", "app.lg"), vec![], vec![]);
    index.insert_lib_file(meta("core", "core.lg"), vec![lib_sym("map", "core")]);
    index.mark_letgo_core();
    index.set_letgo_native(vec![
        "*command-line-args*".to_string(),
        "count".to_string(), // harvested native with no clojure.core entry here
        "map".to_string(),   // also a live `.lg` core fn → must not double up
    ]);

    assert!(
        labels(&index, "*com").contains(&"*command-line-args*".to_string()),
        "harvested var offered: {:?}",
        labels(&index, "*com")
    );
    // A harvested native with no clojure.core doc entry is still offered.
    assert!(labels(&index, "cou").contains(&"count".to_string()));
    // `map` is served by the live `.lg` core; the harvested duplicate is
    // skipped so it appears exactly once.
    let maps = labels(&index, "map");
    assert_eq!(
        maps.iter().filter(|s| *s == "map").count(),
        1,
        "map offered once: {:?}",
        maps
    );
}

#[test]
fn clojure_project_uses_static_core_pool() {
    // Marker unset → the clojure.core static pool is used as before.
    let mut index = Index::new_with_core(vec![core_sym("zzz-clojure-only", "")]);
    index.insert_file(meta("app", "app.clj"), vec![], vec![]);
    assert!(labels(&index, "zzz").contains(&"zzz-clojure-only".to_string()));
}

#[test]
fn clojure_completion_offers_special_forms_and_core() {
    // Marker unset → Clojure path offers clojure.core fns AND special forms.
    let mut index = Index::new_with_core(vec![core_sym("inc", "([x])")]);
    index.insert_file(meta("app", "app.clj"), vec![], vec![]);
    let l = labels(&index, "i");
    assert!(l.contains(&"if".to_string()), "special form if");
    assert!(l.contains(&"inc".to_string()), "clojure.core inc");
}

#[test]
fn a_prefix_in_a_document_is_completed() {
    let source = "(ns app)\n(defn alpha [] 1)\n(al)\n";
    let mut store = DocumentStore::new();
    store.open("file:///app.clj".to_string(), source.to_string());
    let mut index = Index::new();
    let (meta, symbols) = extract(source, "/app.clj").unwrap();
    index.insert_file(meta, symbols, vec![]);
    let list = handle(&index, &store, "file:///app.clj", "/app.clj", Position::new(2, 3)).expect("a list");
    assert!(list.items.iter().any(|i| i.label == "alpha"), "{:?}", list);
}

#[test]
fn every_offer_carries_its_tier_and_its_pool() {
    let mut index = Index::new_with_core(vec![core_sym("map", "f coll"), core_sym("mapv", "f coll")]);
    let source = "(ns app.core (:require [m.lib :as map-lib :refer [mapper]]))\n(defn mapish [x] x)\n";
    let (found, syms) = extract(source, "app/core.clj").unwrap();
    index.insert_file(found, syms, vec![]);
    let mut offered = 0;
    for prefix in ["", "m", "map", "mp", "map-lib/x"] {
        for item in complete_symbols(&index, prefix, "app.core") {
            let key: Vec<char> = item.sort_text.chars().collect();
            assert!(('0'..='3').contains(&key[0]), "{}", item.sort_text);
            assert!(('1'..='5').contains(&key[2]), "{}", item.sort_text);
            assert_eq!(item.sort_text, format!("{}-{}-{}", key[0], key[2], item.label));
            offered += 1;
        }
    }
    assert!(offered > 6);
    let keys: Vec<String> = complete_symbols(&index, "map", "app.core")
        .into_iter()
        .map(|i| i.sort_text)
        .collect();
    for key in ["0-3-map", "1-1-mapish", "1-2-mapper", "1-3-mapv", "1-4-map-lib"] {
        assert!(keys.contains(&key.to_string()), "{key} of {keys:?}");
    }
}
