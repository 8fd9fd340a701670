use clj_pulse::handlers::letgo_builtins::{is_native, special_form};

#[test]
fn special_form_lookup() {
    assert!(special_form("if").is_some());
    assert!(special_form("try").is_some());
    assert!(special_form("catch").is_some());
    // `throw` is hand-authored here (native in let-go, but Clojure documents
    // it as a special form and it has no clojure.core doc to borrow).
    assert!(special_form("throw").is_some());
    assert!(special_form("nope").is_none());
}

#[test]
fn letgo_builtins_special_form_carries_usage_and_doc() {
    let sf = special_form("if").unwrap();
    assert!(sf.usage.contains("test"));
    assert!(!sf.doc.is_empty());
}

#[test]
fn letgo_builtins_is_native_uses_generated_list() {
    // Native (Go ns.Def) clojure.core fns.
    assert!(is_native("count"));
    assert!(is_native("subs"));
    // `.lg`-defined fns are served by the live index, not this list.
    assert!(!is_native("map"));
    assert!(!is_native("definitely-not-a-builtin"));
}
