use clj_pulse::diagnostics::{compute, is_interop, is_kondo_owned, is_lintable_private_kind, merge};
use clj_pulse::index::{DefKind, ExtractConfig};
use clj_pulse::lsp::{Diagnostic, Position, Range, Severity};

fn diags(source: &str) -> Vec<Diagnostic> {
    compute(source, "test.clj", &ExtractConfig::default())
}

/// Every diagnostic carrying `code`.
fn of_code(source: &str, code: &str) -> Vec<Diagnostic> {
    diags(source)
        .into_iter()
        .filter(|d| d.code.as_deref() == Some(code))
        .collect()
}

fn codes(source: &str) -> Vec<String> {
    diags(source)
        .into_iter()
        .filter_map(|d| d.code)
        .collect()
}

#[test]
fn no_flag_on_edn_dependency_coordinates() {
    // Dependency coordinates (`my/loc`, `org.clojure/clojure`) are
    // namespaced symbols structurally identical to qualified usages, but
    // EDN config files are not source and must never be linted.
    let lgx = r#"{:deps {my/loc {:local/root "v"}
                             ext/lib {:git/url "u" :git/sha "s"}}}"#;
    assert!(compute(lgx, "lgx.edn", &ExtractConfig::default()).is_empty());

    let deps = r#"{:deps {org.clojure/clojure {:mvn/version "1.11.1"}}}"#;
    assert!(compute(deps, "deps.edn", &ExtractConfig::default()).is_empty());
}

#[test]
fn flags_unrequired_qualified_usage() {
    let d = diags("(ns my.app)\n(str/join \", \" [1 2])\n");
    assert_eq!(d.len(), 1);
    let d = &d[0];
    assert_eq!(d.severity, Some(Severity::Warning));
    assert_eq!(d.code.as_deref(), Some("unresolved-namespace"));
    assert_eq!(d.source.as_deref(), Some("clj-pulse"));
    assert!(d.message.contains("str"), "message: {}", d.message);
    // Whole-symbol range: `str/join` is 8 chars on line 1.
    assert_eq!(d.range.start.line, 1);
    assert_eq!(d.range.end.character - d.range.start.character, 8);
}

#[test]
fn no_flag_when_aliased() {
    assert!(
        diags("(ns my.app\n  (:require [clojure.string :as str]))\n(str/join \"\" [])\n")
            .is_empty()
    );
}

#[test]
fn no_flag_when_plainly_required() {
    assert!(
        diags("(ns my.app\n  (:require [clojure.set]))\n(clojure.set/union #{} #{})\n")
            .is_empty()
    );
}

#[test]
fn no_flag_for_current_namespace() {
    assert!(diags("(ns my.app)\n(my.app/foo 1)\n").is_empty());
}

#[test]
fn no_flag_for_clojure_core() {
    assert!(diags("(ns my.app)\n(clojure.core/map inc [1])\n").is_empty());
}

#[test]
fn no_flag_for_class_interop() {
    assert!(diags("(ns my.app)\n(Math/sqrt 4)\n").is_empty());
    assert!(diags("(ns my.app)\n(java.util.Date/from x)\n").is_empty());
    assert!(diags("(ns my.app)\n(clojure.lang.RT/iter x)\n").is_empty());
}

#[test]
fn no_flag_for_js_global() {
    assert!(diags("(ns my.app)\n(js/parseInt \"1\")\n").is_empty());
}

#[test]
fn flags_unknown_prefix_without_suggestion() {
    // No require, not interop, not in any index — still flagged.
    assert_eq!(
        codes("(ns my.app)\n(unknown/thing 1)\n"),
        vec!["unresolved-namespace"]
    );
}

#[test]
fn no_flag_for_empty_name() {
    // `str/` mid-type must not warn.
    assert!(diags("(ns my.app)\n(str/ )\n").is_empty());
}

#[test]
fn no_flag_for_reader_conditional_require() {
    // .cljc: alias required inside a reader conditional, used in another.
    let src = "(ns my.app\n  (:require\n   #?(:clj [clojure.string :as str]\n      :cljs [clojure.string :as str])))\n#?(:cljs (str/join \"\" []))\n";
    assert!(diags(src).is_empty(), "{:?}", diags(src));
}

#[test]
fn no_flag_for_splicing_reader_conditional_require() {
    let src = "(ns my.app\n  (:require\n   #?@(:clj [[clojure.string :as str]]\n       :cljs [[clojure.string :as str]])))\n(str/join \"\" [])\n";
    assert!(diags(src).is_empty(), "{:?}", diags(src));
}

#[test]
fn no_flag_for_namespaced_destructuring_keys() {
    // {:keys [foo/bar]} binds `bar` from key :foo/bar — not a usage.
    let src = "(ns my.app)\n(defn f [{:keys [foo/bar baz/qux]}] [bar qux])\n";
    assert!(diags(src).is_empty(), "{:?}", diags(src));
}

#[test]
fn flags_qualified_usage_in_map_value() {
    // A real qualified usage as a map value is still flagged.
    assert_eq!(
        codes("(ns my.app)\n{:x (str/join \"\" [])}\n"),
        vec!["unresolved-namespace"]
    );
}

#[test]
fn prefix_list_require_does_not_suppress() {
    // Legacy `(clojure set)` prefix-list is unsupported; `set/union` must
    // still be flagged (the real namespace is clojure.set, not `set`).
    let src = "(ns my.app\n  (:require (clojure set)))\n(set/union #{} #{})\n";
    assert_eq!(codes(src), vec!["unresolved-namespace"]);
}

#[test]
fn range_excludes_type_hint() {
    // `^String foo/bar` — squiggle covers `foo/bar` (7 chars), not the hint.
    let d = diags("(ns my.app)\n^String foo/bar\n");
    assert_eq!(d.len(), 1);
    assert_eq!(d[0].range.end.character - d[0].range.start.character, 7);
}

/// The `unused-namespace` diagnostics for `source`.
fn unused(source: &str) -> Vec<Diagnostic> {
    diags(source)
        .into_iter()
        .filter(|d| d.code.as_deref() == Some("unused-namespace"))
        .collect()
}

#[test]
fn flags_unused_alias_require() {
    let d = unused("(ns my.app\n  (:require [clojure.string :as str]))\n(def x 1)\n");
    assert_eq!(d.len(), 1);
    let d = &d[0];
    assert_eq!(d.severity, Some(Severity::Warning));
    assert_eq!(d.code.as_deref(), Some("unused-namespace"));
    assert_eq!(d.source.as_deref(), Some("clj-pulse"));
    assert!(
        d.message.contains("clojure.string"),
        "message: {}",
        d.message
    );
    // Tagged UNNECESSARY so editors fade the require.
    assert!(d.unnecessary);
    assert!(!d.deprecated);
    // Range spans the namespace symbol `clojure.string` (14 chars) on line 1.
    assert_eq!(d.range.start.line, 1);
    assert_eq!(d.range.end.character - d.range.start.character, 14);
}

#[test]
fn no_flag_when_alias_used() {
    assert!(
        unused("(ns my.app\n  (:require [clojure.string :as str]))\n(str/join \"\" [])\n")
            .is_empty()
    );
}

#[test]
fn no_flag_when_used_fully_qualified() {
    // Alias `s` is unused, but `clojure.set/union` uses the namespace — kept.
    assert!(unused(
        "(ns my.app\n  (:require [clojure.set :as s]))\n(clojure.set/union #{} #{})\n"
    )
    .is_empty());
}

#[test]
fn no_flag_for_plain_side_effecting_require() {
    // Plain `[some.ns]` / bare `some.ns` may load side effects — never flagged,
    // even when nothing references them.
    assert!(unused("(ns my.app\n  (:require [some.ns]))\n(def x 1)\n").is_empty());
    assert!(unused("(ns my.app\n  (:require some.side))\n(def x 1)\n").is_empty());
}

#[test]
fn flags_unused_refer_only() {
    let d = unused("(ns my.app\n  (:require [clojure.set :refer [union]]))\n(def x 1)\n");
    assert_eq!(d.len(), 1);
    assert!(
        d[0].message.contains("clojure.set"),
        "message: {}",
        d[0].message
    );
}

#[test]
fn no_flag_when_refer_used() {
    assert!(unused(
        "(ns my.app\n  (:require [clojure.set :refer [union]]))\n(union #{} #{})\n"
    )
    .is_empty());
}

#[test]
fn no_flag_when_alias_used_only_in_keyword() {
    // `s` appears only in the auto-resolved keyword `::s/problem`.
    assert!(unused(
        "(ns my.app\n  (:require [clojure.spec.alpha :as s]))\n(defn f [x] (::s/problem x))\n"
    )
    .is_empty());
}

#[test]
fn no_unused_flag_for_reader_conditional_require() {
    // Reader-conditional specs are handled conservatively (kept), so an
    // alias unused across visible branches is still not flagged.
    let src = "(ns my.app\n  (:require\n   #?(:clj [clojure.string :as str])))\n(def x 1)\n";
    assert!(unused(src).is_empty(), "{:?}", unused(src));
}

#[test]
fn no_flag_for_unmodeled_option() {
    // `:rename` introduces a usable name we don't track — keep the spec.
    let src =
        "(ns my.app\n  (:require [clojure.string :refer [join] :rename {join j}]))\n(j)\n";
    assert!(unused(src).is_empty(), "{:?}", unused(src));
}

#[test]
fn no_flag_without_require_clause() {
    assert!(unused("(ns my.app)\n(def x 1)\n").is_empty());
}

#[test]
fn no_flag_for_self_require() {
    // A require of the file's own namespace is never flagged, even when its
    // alias/refer is unused.
    assert!(unused("(ns my.app\n  (:require [my.app :as app]))\n(def x 1)\n").is_empty());
    assert!(
        unused("(ns my.app\n  (:require [my.app :refer [helper]]))\n(def x 1)\n").is_empty()
    );
    // Metadata-wrapped ns name must still be recognised as the self-namespace.
    assert!(
        unused("(ns ^{:doc \"d\"} my.app\n  (:require [my.app :as app]))\n(def x 1)\n")
            .is_empty()
    );
}

#[test]
fn flags_only_the_unused_among_several() {
    // One unused alias, one used alias: exactly the unused one is flagged.
    let src = "(ns my.app\n  (:require [a.b :as b]\n            [c.d :as d]))\n(d/run)\n";
    let d = unused(src);
    assert_eq!(d.len(), 1);
    assert!(d[0].message.contains("a.b"), "message: {}", d[0].message);
}

/// The `duplicate-require` diagnostics for `source`.
fn dups(source: &str) -> Vec<Diagnostic> {
    diags(source)
        .into_iter()
        .filter(|d| d.code.as_deref() == Some("duplicate-require"))
        .collect()
}

#[test]
fn flags_duplicate_require_with_different_alias() {
    // Same namespace, different `:as` alias — the second is a duplicate.
    let src = "(ns my.app\n  (:require [clojure.string :as str]\n            \
               [clojure.string :as s]))\n(str/join \"\" [])\n(s/trim \"\")\n";
    let d = dups(src);
    assert_eq!(d.len(), 1);
    let d = &d[0];
    assert_eq!(d.severity, Some(Severity::Warning));
    assert_eq!(d.code.as_deref(), Some("duplicate-require"));
    assert_eq!(d.source.as_deref(), Some("clj-pulse"));
    assert!(
        d.message.contains("clojure.string"),
        "message: {}",
        d.message
    );
    // Not tagged UNNECESSARY: both aliases are used, so the require is
    // redundant but not dead — fading it would mislead.
    assert!(!d.unnecessary);
    assert!(!d.deprecated);
    // The duplicate is the second occurrence, on line 2.
    assert_eq!(d.range.start.line, 2);
}

#[test]
fn no_duplicate_for_distinct_namespaces() {
    let src = "(ns my.app\n  (:require [a.b :as b]\n            [c.d :as d]))\n(b/x)\n(d/y)\n";
    assert!(dups(src).is_empty());
}

#[test]
fn flags_duplicate_across_require_clauses() {
    let src = "(ns my.app\n  (:require [c.d :as d])\n  (:require [c.d :as e]))\n(d/x)\n(e/y)\n";
    assert_eq!(dups(src).len(), 1);
}

#[test]
fn flags_third_occurrence_too() {
    // Three requires of the same ns flag the 2nd and 3rd.
    let src = "(ns my.app\n  (:require [c.d :as d]\n            [c.d :as e]\n            \
               [c.d :as f]))\n(d/x)\n(e/y)\n(f/z)\n";
    assert_eq!(dups(src).len(), 2);
}

#[test]
fn flags_duplicate_bare_and_vector_require() {
    // A bare `c.d` and a `[c.d :as d]` are the same namespace twice.
    let src = "(ns my.app\n  (:require c.d\n            [c.d :as d]))\n(d/x)\n";
    assert_eq!(dups(src).len(), 1);
}

#[test]
fn no_duplicate_across_reader_conditional_branches() {
    // Platform branches are mutually exclusive — not a duplicate.
    let src = "(ns my.app\n  (:require\n   #?(:clj [c.d :as d]\n      :cljs [c.d :as e])))\n#?(:clj (d/x) :cljs (e/y))\n";
    assert!(dups(src).is_empty(), "{:?}", dups(src));
}

#[test]
fn no_duplicate_for_single_require() {
    assert!(dups("(ns my.app\n  (:require [c.d :as d]))\n(d/x)\n").is_empty());
}

// --- native / clj-kondo ownership merge -------------------------------

fn diag(code: &str, source: &str) -> Diagnostic {
    Diagnostic {
        range: Range::new(Position::new(0, 0), Position::new(0, 0)),
        severity: None,
        code: Some(code.to_string()),
        source: Some(source.to_string()),
        message: format!("{source}: {code}"),
        unnecessary: false,
        deprecated: false,
    }
}

fn merged_codes(
    native: Vec<Diagnostic>,
    kondo: Result<Vec<Diagnostic>, String>,
) -> Vec<String> {
    merge(native, kondo)
        .into_iter()
        .map(|d| d.code.expect("every finding here has a code"))
        .collect()
}

#[test]
fn flags_unused_let_binding() {
    let d = of_code("(ns a)\n(defn f [x]\n  (let [y 1] x))\n", "unused-binding");
    assert_eq!(d.len(), 1, "diagnostics: {:?}", d);
    let d = &d[0];
    assert_eq!(d.severity, Some(Severity::Warning));
    assert_eq!(d.source.as_deref(), Some("clj-pulse"));
    assert!(d.unnecessary);
    assert!(!d.deprecated);
    assert!(d.message.contains('y'), "message: {}", d.message);
    assert_eq!(d.range.start.line, 2);
    assert_eq!(d.range.end.character - d.range.start.character, 1);
}

#[test]
fn no_flag_for_used_binding() {
    assert!(of_code("(ns a)\n(defn f []\n  (let [y 1] y))\n", "unused-binding").is_empty());
}

#[test]
fn no_flag_for_underscore_binding() {
    assert!(of_code("(ns a)\n(defn f [_x] 1)\n", "unused-binding").is_empty());
}

#[test]
fn lint_as_defn_params_are_linted() {
    // A `:lint-as` macro mapped to `defn` binds its params like `defn`, so
    // an unused one is reported the same way.
    let mut cfg = ExtractConfig::default();
    cfg.lint_as.insert("my/defthing".to_string(), DefKind::Defn);
    let src = "(ns x (:require [my :refer [defthing]]))\n(defthing foo [p] 1)\n";
    let found: Vec<_> = compute(src, "x.clj", &cfg)
        .into_iter()
        .filter(|d| d.code.as_deref() == Some("unused-binding"))
        .collect();
    assert_eq!(found.len(), 1, "diagnostics: {:?}", found);
    assert!(found[0].message.contains('p'), "{}", found[0].message);
}

#[test]
fn flags_unused_defn_private() {
    let d = of_code("(ns a)\n(defn- helper [] 1)\n", "unused-private-var");
    assert_eq!(d.len(), 1, "diagnostics: {:?}", d);
    let d = &d[0];
    assert_eq!(d.severity, Some(Severity::Warning));
    assert_eq!(d.source.as_deref(), Some("clj-pulse"));
    assert!(d.unnecessary);
    assert!(!d.deprecated);
    assert!(d.message.contains("helper"), "message: {}", d.message);
    // The name, not the whole form: `helper` on line 1.
    assert_eq!(d.range.start.line, 1);
    assert_eq!(d.range.start.character, "(defn- ".len() as u32);
    assert_eq!(d.range.end.character - d.range.start.character, 6);
}

#[test]
fn flags_unused_private_meta_def() {
    let d = of_code("(ns a)\n(def ^:private x 1)\n", "unused-private-var");
    assert_eq!(d.len(), 1, "diagnostics: {:?}", d);
    assert!(d[0].message.contains('x'), "message: {}", d[0].message);
}

#[test]
fn no_flag_when_private_var_is_called() {
    assert!(of_code(
        "(ns a)\n(defn- h [] 1)\n(defn g [] (h))\n",
        "unused-private-var"
    )
    .is_empty());
}

#[test]
fn no_flag_when_private_var_is_var_quoted() {
    assert!(of_code(
        "(ns a)\n(defn- h [] 1)\n(defn g [] #'h)\n",
        "unused-private-var"
    )
    .is_empty());
}

#[test]
fn recursion_only_is_still_unused() {
    // A self-call inside the var's own form is not a use of it.
    let d = of_code("(ns a)\n(defn- h [n] (h n))\n", "unused-private-var");
    assert_eq!(d.len(), 1, "diagnostics: {:?}", d);
}

#[test]
fn no_flag_for_public_var() {
    assert!(of_code("(ns a)\n(defn h [] 1)\n", "unused-private-var").is_empty());
}

#[test]
fn no_flag_for_private_deftest() {
    // Test runners call private tests by var, so `deftest-` is never dead.
    let src = "(ns a (:require [clojure.test :refer [deftest-]]))\n(deftest- t 1)\n";
    assert!(of_code(src, "unused-private-var").is_empty());
}

#[test]
fn successful_kondo_run_cedes_the_codes_it_owns() {
    // Every native code today is one clj-kondo also emits, so a successful
    // run publishes clj-kondo's findings alone — no doubled squiggles.
    let native = vec![
        diag("unresolved-namespace", "clj-pulse"),
        diag("unused-namespace", "clj-pulse"),
        diag("duplicate-require", "clj-pulse"),
        diag("unused-binding", "clj-pulse"),
        diag("unused-private-var", "clj-pulse"),
    ];
    let kondo = vec![diag("unresolved-namespace", "clj-kondo")];
    assert_eq!(
        merged_codes(native, Ok(kondo)),
        vec!["unresolved-namespace".to_string()]
    );
}

#[test]
fn native_codes_kondo_does_not_cover_survive_a_successful_run() {
    // The rule is per-code, so a future native-only lint keeps showing up.
    let native = vec![
        diag("unresolved-namespace", "clj-pulse"),
        diag("some-future-native-lint", "clj-pulse"),
    ];
    assert_eq!(
        merged_codes(native, Ok(vec![diag("invalid-arity", "clj-kondo")])),
        vec![
            "invalid-arity".to_string(),
            "some-future-native-lint".to_string()
        ]
    );
}

#[test]
fn a_clean_kondo_run_still_cedes_ownership() {
    // `Ok(vec![])` means clj-kondo looked and found nothing — the native
    // squiggle it disagrees with must go, or the user can never clear it.
    assert!(
        merged_codes(vec![diag("unresolved-namespace", "clj-pulse")], Ok(vec![])).is_empty()
    );
}

#[test]
fn a_failed_kondo_run_leaves_the_native_set_alone() {
    // Absent, disabled, timed out, crashed: all the same here. Losing
    // diagnostics because a subprocess failed would be worse than nothing.
    let native = vec![
        diag("unresolved-namespace", "clj-pulse"),
        diag("unused-namespace", "clj-pulse"),
    ];
    assert_eq!(
        merged_codes(native, Err("clj-kondo timed out".to_string())),
        vec![
            "unresolved-namespace".to_string(),
            "unused-namespace".to_string()
        ]
    );
}

#[test]
fn a_native_diagnostic_without_a_code_is_never_dropped() {
    let mut bare = diag("x", "clj-pulse");
    bare.code = None;
    assert_eq!(merge(vec![bare], Ok(vec![])).len(), 1);
}

#[test]
fn kondo_findings_come_first() {
    let native = vec![diag("own-lint", "clj-pulse")];
    let kondo = vec![diag("b", "clj-kondo"), diag("a", "clj-kondo")];
    assert_eq!(merged_codes(native, Ok(kondo)), vec!["b", "a", "own-lint"]);
}

#[test]
fn class_prefixes_are_interop() {
    assert!(is_interop("Math"));
    assert!(is_interop("java.util.Date"));
    assert!(is_interop("js"));
    assert!(!is_interop("str"));
    assert!(!is_interop(""));
}

#[test]
fn only_plain_vars_are_reported_as_unused() {
    assert!(is_lintable_private_kind(DefKind::Defn));
    assert!(!is_lintable_private_kind(DefKind::Defmethod));
}

#[test]
fn the_codes_of_the_linter_are_its_own() {
    assert!(is_kondo_owned(&diag("unused-binding", "clj-pulse")));
    assert!(!is_kondo_owned(&diag("own-lint", "clj-pulse")));
}
