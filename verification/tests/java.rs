use clj_pulse::handlers::java::{resolve_java_word, JavaTargetKind};
use clj_pulse::index::extractor::extract;
use clj_pulse::index::jdk::{JavaClassInfo, JavaMember, JdkIndex};
use clj_pulse::index::symbols::Index;
use clj_pulse::lsp::{Position, Range};

fn nowhere() -> Range {
    Range::new(Position::new(0, 0), Position::new(0, 0))
}

fn class(fqn: &str, entry: &str, javadoc: Option<&str>, methods: Vec<JavaMember>) -> JavaClassInfo {
    JavaClassInfo {
        fqn: fqn.to_string(),
        entry: entry.to_string(),
        decl_name_range: nowhere(),
        extends: None,
        implements: vec![],
        javadoc: javadoc.map(str::to_string),
        methods,
        fields: vec![],
        ctors: vec![],
    }
}

fn method(name: &str, returns: &str, params: &[&str], javadoc: Option<&str>) -> JavaMember {
    JavaMember {
        name: name.to_string(),
        is_static: true,
        return_type: Some(returns.to_string()),
        params: params.iter().map(|p| p.to_string()).collect(),
        javadoc: javadoc.map(str::to_string),
        name_range: nowhere(),
    }
}

/// An index whose namespace `app.core` imports `demo.lib.Greeter`, beside
/// `java.lang.Sample`.
fn test_fixture() -> Index {
    let mut index = Index::new();
    index.set_jdk(JdkIndex {
        src_zip: "/jdk/src.zip".to_string(),
        classes: vec![
            class(
                "demo.lib.Greeter",
                "java.base/demo/lib/Greeter.java",
                Some("A greeter."),
                vec![method("greet", "String", &["String name"], Some("Greet by name."))],
            ),
            class(
                "java.lang.Sample",
                "java.base/java/lang/Sample.java",
                None,
                vec![method("of", "Sample", &["long n"], None)],
            ),
        ],
    });
    let (meta, syms) = extract("(ns app.core (:import [demo.lib Greeter]))", "app/core.clj").unwrap();
    index.insert_file(meta, syms, vec![]);
    index
}

#[test]
fn resolves_imported_class() {
    let index = test_fixture();
    let target = resolve_java_word(&index, "Greeter", "app.core").unwrap();
    assert_eq!(target.class_fqn, "demo.lib.Greeter");
    assert_eq!(target.member, None);
    assert_eq!(target.kind, JavaTargetKind::Class);
}

#[test]
fn resolves_static_member_and_ctor() {
    let index = test_fixture();
    let stat = resolve_java_word(&index, "Greeter/greet", "app.core").unwrap();
    assert_eq!(stat.class_fqn, "demo.lib.Greeter");
    assert_eq!(stat.member.as_deref(), Some("greet"));
    assert_eq!(stat.kind, JavaTargetKind::StaticMember);

    let ctor = resolve_java_word(&index, "Greeter.", "app.core").unwrap();
    assert_eq!(ctor.class_fqn, "demo.lib.Greeter");
    assert_eq!(ctor.kind, JavaTargetKind::Ctor);
}

#[test]
fn resolves_auto_java_lang_without_import() {
    let index = test_fixture();
    assert_eq!(
        resolve_java_word(&index, "Sample/of", "app.core").map(|t| t.class_fqn),
        Some("java.lang.Sample".to_string())
    );
}

#[test]
fn does_not_resolve_clojure_alias() {
    // Non-regression: `str/join` must not be mistaken for a Java class.
    let index = test_fixture();
    assert!(resolve_java_word(&index, "str/join", "app.core").is_none());
    assert!(resolve_java_word(&index, "Nope", "app.core").is_none());
}
