use clj_pulse::document::DocumentStore;
use clj_pulse::handlers::clean_ns::clean_ns_edits;
use clj_pulse::handlers::code_action::{
    candidates, curated_alias, handle, kind_allowed, require_edit, Candidate,
};
use clj_pulse::index::symbols::Index;
use clj_pulse::index::{DefKind, NsMeta, Occurrence, Symbol, SymbolSource};
use clj_pulse::lsp::{Position, Range, TextEdit};

fn nowhere() -> Range {
    Range::new(Position::new(0, 0), Position::new(0, 0))
}

fn symbol(ns: &str, name: &str, file: &str, source: SymbolSource) -> Symbol {
    Symbol {
        name: name.to_string(),
        fqn: format!("{}/{}", ns, name),
        ns: ns.to_string(),
        kind: DefKind::Defn,
        params: vec![],
        doc: None,
        file: file.to_string(),
        source,
        range: nowhere(),
        name_range: nowhere(),
        private: false,
    }
}

fn meta(ns: &str, file: &str) -> NsMeta {
    NsMeta {
        name: ns.to_string(),
        ..NsMeta::empty(file)
    }
}

fn lib_symbol(ns: &str, name: &str) -> Symbol {
    symbol(ns, name, &format!("/lib/{}.clj", ns), SymbolSource::Dir("/lib".to_string()))
}

fn lib_meta(ns: &str) -> NsMeta {
    meta(ns, &format!("/lib/{}.clj", ns))
}

/// Index with library namespaces clojure.string/join, clojure.set/union,
/// and a project namespace simple.helpers/greet.
fn test_index() -> Index {
    let mut index = Index::new();
    index.insert_lib_file(
        lib_meta("clojure.string"),
        vec![lib_symbol("clojure.string", "join")],
    );
    index.insert_lib_file(
        lib_meta("clojure.set"),
        vec![lib_symbol("clojure.set", "union")],
    );

    let helpers_file = "/proj/src/simple/helpers.clj";
    let helpers_meta = meta("simple.helpers", helpers_file);
    let greet = symbol("simple.helpers", "greet", helpers_file, SymbolSource::Project);
    index.insert_file(helpers_meta, vec![greet], Vec::<Occurrence>::new());
    index
}

fn empty_meta() -> NsMeta {
    meta("simple.consumer", "/proj/src/simple/consumer.clj")
}

#[test]
fn curated_alias_hit() {
    let index = test_index();
    let got = candidates(&index, &empty_meta(), "str/join");
    assert_eq!(
        got,
        vec![Candidate {
            namespace: "clojure.string".to_string(),
            alias: Some("str".to_string())
        }]
    );
}

#[test]
fn last_segment_hit_for_project_ns() {
    let index = test_index();
    let got = candidates(&index, &empty_meta(), "helpers/greet");
    assert_eq!(
        got,
        vec![Candidate {
            namespace: "simple.helpers".to_string(),
            alias: Some("helpers".to_string())
        }]
    );
}

#[test]
fn fully_qualified_namespace_requires_plainly() {
    let index = test_index();
    let got = candidates(&index, &empty_meta(), "clojure.set/union");
    assert_eq!(
        got,
        vec![Candidate {
            namespace: "clojure.set".to_string(),
            alias: None
        }]
    );
}

#[test]
fn curated_and_last_segment_dedup_to_curated() {
    // `set` is both a curated alias (clojure.set) and the last segment of
    // clojure.set; the result must be a single curated candidate.
    let index = test_index();
    let got = candidates(&index, &empty_meta(), "set/union");
    assert_eq!(
        got,
        vec![Candidate {
            namespace: "clojure.set".to_string(),
            alias: Some("set".to_string())
        }]
    );
}

#[test]
fn no_candidate_when_symbol_absent_in_namespace() {
    let index = test_index();
    assert!(candidates(&index, &empty_meta(), "str/nope").is_empty());
}

#[test]
fn no_candidate_when_alias_already_required() {
    let index = test_index();
    let mut meta = empty_meta();
    meta.aliases
        .insert("str".to_string(), "clojure.string".to_string());
    assert!(candidates(&index, &meta, "str/join").is_empty());
}

#[test]
fn no_candidate_when_namespace_already_required_plainly() {
    let index = test_index();
    let mut meta = empty_meta();
    meta.requires.push("clojure.set".to_string());
    assert!(candidates(&index, &meta, "clojure.set/union").is_empty());
}

#[test]
fn no_candidate_for_clojure_core() {
    let index = test_index();
    assert!(candidates(&index, &empty_meta(), "clojure.core/map").is_empty());
}

#[test]
fn no_candidate_for_unqualified_token() {
    let index = test_index();
    assert!(candidates(&index, &empty_meta(), "join").is_empty());
}

#[test]
fn no_candidate_for_current_namespace() {
    // `simple.helpers/greet` used inside simple.helpers itself must not
    // suggest requiring its own namespace.
    let index = test_index();
    let mut meta = empty_meta();
    meta.name = "simple.helpers".to_string();
    assert!(candidates(&index, &meta, "simple.helpers/greet").is_empty());
}

#[test]
fn no_candidate_for_current_namespace_via_last_segment() {
    // `helpers/greet` inside simple.helpers resolves via last-segment back
    // to the current namespace; it must not suggest requiring itself.
    let index = test_index();
    let mut meta = empty_meta();
    meta.name = "simple.helpers".to_string();
    assert!(candidates(&index, &meta, "helpers/greet").is_empty());
}

/// Applies a single insertion `TextEdit` to `source` for assertions.
fn apply(source: &str, edit: &TextEdit) -> String {
    let start = offset_of(source, edit.range.start);
    let end = offset_of(source, edit.range.end);
    format!("{}{}{}", &source[..start], edit.new_text, &source[end..])
}

fn offset_of(source: &str, pos: Position) -> usize {
    let (mut line, mut col) = (0u32, 0u32);
    for (i, ch) in source.char_indices() {
        if line == pos.line && col == pos.character {
            return i;
        }
        if ch == '\n' {
            line += 1;
            col = 0;
        } else {
            col += ch.len_utf16() as u32;
        }
    }
    source.len()
}

#[test]
fn edit_appends_to_existing_require() {
    let source = "(ns my.app\n  (:require [a.b :as b]))\n\n(b/x)\n";
    let edit = require_edit(source, "[clojure.string :as str]").unwrap();
    assert_eq!(
        apply(source, &edit),
        "(ns my.app\n  (:require [a.b :as b]\n            [clojure.string :as str]))\n\n(b/x)\n"
    );
}

#[test]
fn edit_adds_require_after_docstring() {
    let source = "(ns my.app\n  \"Docs.\")\n\n(foo)\n";
    let edit = require_edit(source, "[clojure.string :as str]").unwrap();
    assert_eq!(
        apply(source, &edit),
        "(ns my.app\n  \"Docs.\"\n  (:require [clojure.string :as str]))\n\n(foo)\n"
    );
}

#[test]
fn edit_adds_require_with_metadata() {
    let source = "(ns ^{:author \"me\"} my.app)\n\n(foo)\n";
    let edit = require_edit(source, "[clojure.string :as str]").unwrap();
    assert_eq!(
        apply(source, &edit),
        "(ns ^{:author \"me\"} my.app\n  (:require [clojure.string :as str]))\n\n(foo)\n"
    );
}

#[test]
fn edit_none_without_ns_form() {
    assert!(require_edit("(defn foo [] 1)\n", "[x]").is_none());
}

/// Applies the clean-ns edits (highest position first, so earlier offsets
/// stay valid) and returns the result, or `None` when nothing would change.
fn clean(source: &str) -> Option<String> {
    let mut edits = clean_ns_edits(source)?;
    edits.sort_by_key(|e| std::cmp::Reverse((e.range.start.line, e.range.start.character)));
    let mut out = source.to_string();
    for edit in &edits {
        out = apply(&out, edit);
    }
    Some(out)
}

#[test]
fn clean_removes_unused_alias_require() {
    let source = "(ns app\n  (:require [a.b :as b]\n            [c.d :as d]))\n\n(d/run)\n";
    let out = clean(source).expect("expected a clean edit");
    assert!(!out.contains("a.b"), "unused require kept:\n{}", out);
    assert!(
        out.contains("[c.d :as d]"),
        "used require dropped:\n{}",
        out
    );
    assert!(out.contains("(d/run)"), "body changed:\n{}", out);
}

#[test]
fn clean_is_noop_when_alias_used() {
    // `b` is used, so there is nothing to clean → no action.
    let source = "(ns app\n  (:require [a.b :as b]))\n\n(b/run)\n";
    assert!(clean(source).is_none());
}

#[test]
fn clean_prunes_unused_refer_keeping_sibling() {
    let source = "(ns app\n  (:require [c.d :refer [used gone]]))\n\n(used)\n";
    assert_eq!(
        clean(source).as_deref(),
        Some("(ns app\n  (:require [c.d :refer [used]]))\n\n(used)\n")
    );
}

#[test]
fn clean_drops_empty_refer_but_keeps_used_alias() {
    let source = "(ns app\n  (:require [c.d :as d :refer [gone]]))\n\n(d/run)\n";
    assert_eq!(
        clean(source).as_deref(),
        Some("(ns app\n  (:require [c.d :as d]))\n\n(d/run)\n")
    );
}

#[test]
fn clean_removes_spec_whose_only_refer_is_unused() {
    let source =
        "(ns app\n  (:require [c.d :refer [gone]]\n            [e.f :as f]))\n\n(f/go)\n";
    let out = clean(source).expect("expected a clean edit");
    assert!(
        !out.contains("c.d"),
        "unused refer-only spec kept:\n{}",
        out
    );
    assert!(out.contains("[e.f :as f]"), "used spec dropped:\n{}", out);
}

#[test]
fn clean_drops_exact_duplicate_require() {
    let source = "(ns app\n  (:require [c.d :as d]\n            [c.d :as d]))\n\n(d/go)\n";
    assert_eq!(
        clean(source).as_deref(),
        Some("(ns app\n  (:require [c.d :as d]))\n\n(d/go)\n")
    );
}

#[test]
fn clean_keeps_plain_side_effecting_require() {
    // `[c.d]` and bare `some.side` have no alias/refer — possibly loaded for
    // side effects, so they are never removed (and nothing else changes).
    let source = "(ns app\n  (:require [c.d]\n            some.side))\n\n(println 1)\n";
    assert!(clean(source).is_none());
}

#[test]
fn clean_keeps_spec_used_fully_qualified() {
    // The alias `s` is unused, but `clojure.set/union` is — so the spec
    // stays (we don't strip an unused `:as` from an otherwise-used entry).
    let source = "(ns app\n  (:require [clojure.set :as s]))\n\n(clojure.set/union #{} #{})\n";
    assert!(clean(source).is_none());
}

#[test]
fn clean_leaves_reader_conditional_requires_untouched() {
    let source =
        "(ns app\n  (:require #?(:clj [a :as a])\n            [c.d :as d]))\n\n#?(:clj (a/x))\n";
    let out = clean(source).expect("expected a clean edit");
    assert!(
        out.contains("#?(:clj [a :as a])"),
        "reader-conditional require corrupted:\n{}",
        out
    );
    assert!(!out.contains("c.d"), "unused spec kept:\n{}", out);
}

#[test]
fn clean_keeps_alias_used_only_in_keyword() {
    // `s` appears only in the auto-resolved keyword `::s/problem`, which
    // `qualified_usages` (symbols only) never sees. The require must stay.
    let source =
        "(ns app\n  (:require [clojure.spec.alpha :as s]))\n\n(defn f [x] (::s/problem x))\n";
    assert!(clean(source).is_none());
}

#[test]
fn clean_keeps_alias_used_only_in_namespaced_map() {
    // `s` is used only via the namespaced map literal `#::s{…}`.
    let source = "(ns app\n  (:require [my.spec :as s]))\n\n(def x #::s{:a 1})\n";
    assert!(clean(source).is_none());
}

#[test]
fn clean_keeps_libspec_with_unmodeled_option() {
    // `:rename` introduces `j` as a usable name we don't track; the spec
    // must be left untouched rather than wrongly removed/pruned.
    let source =
        "(ns app\n  (:require [clojure.string :refer [join] :rename {join j}]))\n\n(j)\n";
    assert!(clean(source).is_none());
}

#[test]
fn clean_handles_multiple_require_clauses() {
    // First clause is already clean; the second has an unused alias. Both
    // clauses must be considered — the action is offered and only the stale
    // entry is dropped.
    let source = "(ns app\n  (:require [a.b :as b])\n  (:require [c.d :as d]))\n\n(b/x)\n";
    let out = clean(source).expect("expected a clean edit across clauses");
    assert!(
        out.contains("[a.b :as b]"),
        "used require dropped:\n{}",
        out
    );
    assert!(
        !out.contains("c.d"),
        "unused require in 2nd clause kept:\n{}",
        out
    );
}

#[test]
fn clean_dedupes_specs_made_identical_by_refer_pruning() {
    // After dropping the unused `gone`, both specs become `[c.d :refer
    // [used]]`; the duplicate must collapse in this single pass (idempotent).
    let source = "(ns app\n  (:require [c.d :refer [used gone]]\n            \
                  [c.d :refer [used]]))\n\n(used)\n";
    let out = clean(source).expect("expected a clean edit");
    assert_eq!(
        out.matches("c.d").count(),
        1,
        "duplicate after pruning not collapsed:\n{}",
        out
    );
    // And it is genuinely idempotent: a second pass changes nothing.
    assert!(clean(&out).is_none(), "second pass still edits:\n{}", out);
}

#[test]
fn clean_dedupes_across_require_clauses() {
    // The same spec in two clauses: the later one is a duplicate.
    let source = "(ns app\n  (:require [c.d :as d])\n  (:require [c.d :as d]))\n\n(d/go)\n";
    let out = clean(source).expect("expected a clean edit");
    assert_eq!(
        out.matches("[c.d :as d]").count(),
        1,
        "duplicate not dropped:\n{}",
        out
    );
}

#[test]
fn clean_drops_emptied_require_clause_keeping_ns() {
    // Every require is unused → the whole `(:require …)` clause goes, but the
    // `(ns app)` declaration itself is preserved.
    let source = "(ns app\n  (:require [c.d :as d]))\n\n(println 1)\n";
    assert_eq!(clean(source).as_deref(), Some("(ns app)\n\n(println 1)\n"));
}

/// A store that holds `text` under the name that is given back.
fn store_with(text: &str) -> (DocumentStore, String) {
    let mut store = DocumentStore::new();
    let uri = "file:///proj/src/simple/consumer.clj".to_string();
    store.open(uri.clone(), text.to_string());
    (store, uri)
}

const CONSUMER: &str = "/proj/src/simple/consumer.clj";

#[test]
fn an_unresolved_word_is_offered_its_require() {
    let source = "(ns simple.consumer)\n(str/join [])\n";
    let (store, uri) = store_with(source);
    let index = test_index();
    let actions = handle(&index, &store, &uri, CONSUMER, Position::new(1, 3), &None, &vec![])
        .expect("an action");
    assert_eq!(actions.len(), 1);
    assert_eq!(actions[0].title, "Add require `[clojure.string :as str]`");
    assert_eq!(actions[0].kind, "quickfix");
    assert_eq!(
        apply(source, &actions[0].edits[0]),
        "(ns simple.consumer\n  (:require [clojure.string :as str]))\n(str/join [])\n"
    );
    let other = Some(vec!["source.organizeImports".to_string()]);
    assert!(handle(&index, &store, &uri, CONSUMER, Position::new(1, 3), &other, &vec![]).is_none());
}

#[test]
fn a_stale_require_is_offered_cleaning() {
    let source = "(ns app\n  (:require [c.d :as d]))\n\n(println 1)\n";
    let (store, uri) = store_with(source);
    let actions = handle(&test_index(), &store, &uri, CONSUMER, Position::new(3, 0), &None, &vec![])
        .expect("an action");
    assert_eq!(actions.len(), 1);
    assert_eq!(actions[0].kind, "source.organizeImports");
    assert_eq!(apply(source, &actions[0].edits[0]), "(ns app)\n\n(println 1)\n");
}

#[test]
fn kinds_are_asked_for_by_their_head() {
    let only = Some(vec!["source".to_string()]);
    assert!(kind_allowed(&only, "source.organizeImports"));
    assert!(!kind_allowed(&only, "sources"));
    assert!(!kind_allowed(&only, "quickfix"));
    assert!(kind_allowed(&None, "quickfix"));
}

#[test]
fn a_candidate_is_written_as_a_libspec() {
    let named = Candidate {
        namespace: "a.b".to_string(),
        alias: Some("b".to_string()),
    };
    assert_eq!(named.spec(), "[a.b :as b]");
    let plain = Candidate {
        namespace: "a.b".to_string(),
        alias: None,
    };
    assert_eq!(plain.spec(), "[a.b]");
    assert_eq!(curated_alias("str"), Some("clojure.string"));
    assert_eq!(curated_alias("nothing"), None);
}

#[test]
fn one_pass_leaves_nothing_to_clean() {
    for source in [
        "(ns app\n  (:require [a.b :as b]\n            [c.d :as d]))\n\n(d/run)\n",
        "(ns app (:require [a.b :as b :refer [x y]] [c.d :refer [z]]) (:require c.d c.d))\n(x) b/k\n",
        "(ns app (:require [a.b :refer [x]]\n [a.b :refer [x w]] [e.f]))\n(x) (a.b/x)\n",
    ] {
        let once = clean(source).expect("something to clean");
        assert_eq!(clean(&once), None, "{once}");
    }
}
