use clj_pulse::document::DocumentStore;
use clj_pulse::handlers::builtins::special_form;
use clj_pulse::handlers::hover::{
    format_for_letgo_native, format_for_special_form, handle, resolve_and_format,
};
use clj_pulse::index::extractor::extract;
use clj_pulse::index::jdk::{JavaClassInfo, JavaMember, JdkIndex};
use clj_pulse::index::symbols::Index;
use clj_pulse::index::CoreSymbol;
use clj_pulse::lsp::{Position, Range};

fn nowhere() -> Range {
    Range::new(Position::new(0, 0), Position::new(0, 0))
}

fn class(fqn: &str, entry: &str, javadoc: Option<&str>, methods: Vec<JavaMember>) -> JavaClassInfo {
    JavaClassInfo {
        fqn: fqn.to_string(),
        entry: entry.to_string(),
        decl_name_range: nowhere(),
        extends: None,
        implements: vec![],
        javadoc: javadoc.map(str::to_string),
        methods,
        fields: vec![],
        ctors: vec![],
    }
}

fn method(name: &str, returns: &str, params: &[&str], javadoc: Option<&str>) -> JavaMember {
    JavaMember {
        name: name.to_string(),
        is_static: true,
        return_type: Some(returns.to_string()),
        params: params.iter().map(|p| p.to_string()).collect(),
        javadoc: javadoc.map(str::to_string),
        name_range: nowhere(),
    }
}

/// An index whose namespace `app.core` imports `demo.lib.Greeter`, beside
/// `java.lang.Sample`.
fn test_fixture() -> Index {
    let mut index = Index::new();
    index.set_jdk(JdkIndex {
        src_zip: "/jdk/src.zip".to_string(),
        classes: vec![
            class(
                "demo.lib.Greeter",
                "java.base/demo/lib/Greeter.java",
                Some("A greeter."),
                vec![method("greet", "String", &["String name"], Some("Greet by name."))],
            ),
            class(
                "java.lang.Sample",
                "java.base/java/lang/Sample.java",
                None,
                vec![method("of", "Sample", &["long n"], None)],
            ),
        ],
    });
    let (meta, syms) = extract("(ns app.core (:import [demo.lib Greeter]))", "app/core.clj").unwrap();
    index.insert_file(meta, syms, vec![]);
    index
}

#[test]
fn special_form_hover_is_labelled() {
    let sf = special_form("if", true).unwrap();
    let md = format_for_special_form(&sf);
    assert!(md.contains("*special form*"), "missing label: {}", md);
    assert!(md.contains("(if test then else?)"), "missing usage: {}", md);
}

#[test]
fn letgo_native_hover_is_labelled() {
    let core = CoreSymbol {
        name: "count".to_string(),
        params: "([coll])".to_string(),
        doc: "Returns the number of items in the collection.".to_string(),
    };
    let md = format_for_letgo_native(&core);
    assert!(
        md.contains("*let-go core (native)*"),
        "missing label: {}",
        md
    );
    assert!(md.contains("([coll])"), "missing arglists: {}", md);
}

#[test]
fn java_member_hover_has_signature_and_javadoc() {
    let index = test_fixture();
    let md = resolve_and_format(&index, "Greeter/greet", "app.core").unwrap();
    assert!(md.contains("static String greet(String name)"), "{}", md);
    assert!(md.contains("Greet by name"), "{}", md);
}

#[test]
fn java_class_hover_has_class_and_javadoc() {
    let index = test_fixture();
    let md = resolve_and_format(&index, "Greeter", "app.core").unwrap();
    assert!(md.contains("class demo.lib.Greeter"), "{}", md);
    assert!(md.contains("A greeter"), "{}", md);
}

#[test]
fn the_word_under_the_cursor_is_described() {
    let source = "(ns app.core)\n(defn add \"Adds.\" [a b] a)\n(add 1 2)\n";
    let mut store = DocumentStore::new();
    store.open("file:///app.clj".to_string(), source.to_string());
    let mut index = Index::new();
    let (meta, symbols) = extract(source, "/app.clj").unwrap();
    index.insert_file(meta, symbols, vec![]);
    let md = handle(&index, &store, "file:///app.clj", "/app.clj", Position::new(2, 2)).expect("a text");
    assert!(md.contains("add"), "{}", md);
    assert!(md.contains("Adds."), "{}", md);
    assert!(handle(&index, &store, "file:///other.clj", "/app.clj", Position::new(2, 2)).is_none());
}
