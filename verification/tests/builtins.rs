use clj_pulse::handlers::builtins::{is_native, special_form, special_forms};

#[test]
fn common_forms_resolve_in_both_dialects() {
    for letgo in [true, false] {
        assert!(special_form("if", letgo).is_some());
        assert!(special_form("try", letgo).is_some());
        assert!(special_form("catch", letgo).is_some());
        // `throw` is a special form in Clojure; let-go implements it as a
        // native fn but we present it the same way (no source either way).
        assert!(special_form("throw", letgo).is_some());
    }
    assert!(special_form("nope", true).is_none());
    assert!(special_form("nope", false).is_none());
}

#[test]
fn dialect_extras_are_scoped() {
    // `trace` is let-go-only; the interop/locking forms are Clojure-only.
    assert!(special_form("trace", true).is_some());
    assert!(special_form("trace", false).is_none());
    assert!(special_form("new", false).is_some());
    assert!(special_form("new", true).is_none());

    let clojure: Vec<&str> = special_forms(false).iter().map(|f| f.name).collect();
    assert!(clojure.contains(&"new"));
    assert!(!clojure.contains(&"trace"));
}

#[test]
fn builtins_special_form_carries_usage_and_doc() {
    let sf = special_form("if", false).unwrap();
    assert!(sf.usage.contains("test"));
    assert!(!sf.doc.is_empty());
}

#[test]
fn builtins_is_native_uses_generated_list() {
    // Native (Go ns.Def) clojure.core fns.
    assert!(is_native("count"));
    assert!(is_native("subs"));
    // `.lg`-defined fns are served by the live index, not this list.
    assert!(!is_native("map"));
    assert!(!is_native("definitely-not-a-builtin"));
}

#[test]
fn what_is_answered_is_listed() {
    for letgo in [true, false] {
        for form in special_forms(letgo) {
            assert_eq!(special_form(form.name, letgo).expect("a form").name, form.name);
        }
        assert!(special_form("defn", letgo).is_none());
        assert_eq!(special_form("trace", letgo).is_some(), letgo);
        assert_eq!(special_form("new", letgo).is_some(), !letgo);
    }
}
