use clj_pulse::index::jar::{index_entries, index_jar, is_clojure_source};
use clj_pulse::index::scanner::SourceFile;
use clj_pulse::index::SymbolSource;
use std::io::{Cursor, Write};

const JAR: &str = "/m2/mylib.jar";

fn make_jar(entries: &[(&str, &[u8])]) -> Vec<u8> {
    let mut zip = zip::ZipWriter::new(Cursor::new(Vec::new()));
    let opts = zip::write::SimpleFileOptions::default();
    for (name, content) in entries {
        zip.start_file(*name, opts).unwrap();
        zip.write_all(content).unwrap();
    }
    zip.finish().unwrap().into_inner()
}

#[test]
fn test_index_jar_basic() {
    let results = index_jar(JAR, make_jar(&[(
            "mylib/core.clj",
            b"(ns mylib.core)\n\n(defn hello [] \"hello\")",
        )])).unwrap();
    assert_eq!(results.len(), 1);
    let (meta, symbols) = &results[0];
    assert_eq!(meta.name, "mylib.core");
    assert_eq!(symbols.len(), 1);
    assert_eq!(symbols[0].name, "hello");
    assert_eq!(symbols[0].source, SymbolSource::Jar(JAR.to_string()));
    assert_eq!(symbols[0].file, "/m2/mylib.jar!/mylib/core.clj");
}

#[test]
fn test_index_jar_skips_non_clojure() {
    let results = index_jar(JAR, make_jar(&[("Main.class", b"\xCA\xFE\xBA\xBE")])).unwrap();
    assert!(results.is_empty());
    assert!(!is_clojure_source("Main.class"));
}

#[test]
fn test_index_jar_keeps_private_symbols() {
    // Private (`defn-`) symbols are indexed so navigation into library
    // internals works; they are not surfaced by completion/workspace search.
    let results = index_jar(JAR, make_jar(&[(
            "mylib/core.clj",
            b"(ns mylib.core)\n(defn public-fn [] nil)\n(defn- private-fn [] nil)",
        )])).unwrap();
    assert_eq!(results.len(), 1);
    let (_, symbols) = &results[0];
    let names: Vec<&str> = symbols.iter().map(|s| s.name.as_str()).collect();
    assert!(names.contains(&"public-fn") && names.contains(&"private-fn"));
}

#[test]
fn test_index_jar_includes_impl_namespace() {
    // `.impl`/`.internal` namespaces are indexed so navigation into library
    // internals works; completion hides them separately.
    let results = index_jar(JAR, make_jar(&[("mylib/impl.clj", b"(ns mylib.impl)\n(defn helper [] nil)")])).unwrap();
    assert_eq!(results.len(), 1);
    assert_eq!(results[0].0.name, "mylib.impl");
    assert_eq!(results[0].1[0].name, "helper");
}

#[test]
fn test_index_jar_source_tagged() {
    let results = index_jar(JAR, make_jar(&[("mylib/util.clj", b"(ns mylib.util)\n(defn helper [] nil)")])).unwrap();
    assert_eq!(results.len(), 1);
    let (_, symbols) = &results[0];
    for sym in symbols {
        assert_eq!(sym.source, SymbolSource::Jar(JAR.to_string()));
    }
}

#[test]
fn files_that_are_no_text_are_passed_over() {
    let jar = make_jar(&[("a.clj", b"\xFF\xFE"), ("b.clj", b"(ns b)"), ("c.txt", b"(ns c)")]);
    let results = index_jar(JAR, jar).unwrap();
    let names: Vec<&str> = results.iter().map(|(meta, _)| meta.name.as_str()).collect();
    assert_eq!(names, vec!["b"]);
}

#[test]
fn bytes_that_are_no_archive_are_refused() {
    assert!(index_jar(JAR, b"no archive".to_vec()).is_err());
}

#[test]
fn sources_are_read_entry_by_entry() {
    let entries = vec![
        SourceFile {
            path: "a.cljc".to_string(),
            text: "(ns a)".to_string(),
        },
        SourceFile {
            path: "b.js".to_string(),
            text: "(ns b)".to_string(),
        },
    ];
    let found = index_entries(JAR, &entries);
    assert_eq!(found.len(), 1);
    assert_eq!(found[0].0.file, "/m2/mylib.jar!/a.cljc");
}
