use clj_pulse::collect::Dict;
use clj_pulse::index::extractor::{
    extract_analysis_with, extract_full, extract_full_with, keyword_fqn,
};
use clj_pulse::index::locals::{local_references_at, locals_in_scope_at};
use clj_pulse::index::{DefKind, ExtractConfig, NsMeta};
use clj_pulse::lsp::Position;
use clj_pulse::syntax::{parse_source, Form, Kind};

fn find_kwd(node: &Form) -> Option<&Form> {
    if node.kind == Kind::KwdLit {
        return Some(node);
    }
    for child in &node.children {
        if let Some(found) = find_kwd(child) {
            return Some(found);
        }
    }
    None
}

/// Resolves the first keyword in `source` against a namespace `ns` with the
/// given `:as` aliases.
fn resolve_kwd(source: &str, ns: &str, aliases: &[(&str, &str)]) -> Option<String> {
    let root = parse_source(source).unwrap();
    let kwd = find_kwd(&root).expect("no kwd_lit in source");
    let mut meta = NsMeta {
        name: ns.to_string(),
        file: String::new(),
        aliases: Dict::new(),
        refers: Dict::new(),
        requires: Vec::new(),
        imports: Dict::new(),
        refer_all: Vec::new(),
        core_excludes: Vec::new(),
    };
    for (alias, full) in aliases {
        meta.aliases.insert(alias.to_string(), full.to_string());
    }
    keyword_fqn(kwd, &meta)
}

#[test]
fn keyword_fqn_auto_resolves_bare_to_current_ns() {
    assert_eq!(
        resolve_kwd("::db", "readx.db", &[]),
        Some(":readx.db/db".to_string())
    );
}

#[test]
fn keyword_fqn_auto_resolves_alias() {
    assert_eq!(
        resolve_kwd("::db2/x", "readx.db", &[("db2", "other.db")]),
        Some(":other.db/x".to_string())
    );
}

#[test]
fn keyword_fqn_single_colon_namespace_is_literal() {
    // No alias resolution for `:lib/x`; the namespace is taken verbatim
    // even when an alias of the same name exists.
    assert_eq!(
        resolve_kwd(":lit.ns/x", "readx.db", &[("lit.ns", "should.not.win")]),
        Some(":lit.ns/x".to_string())
    );
}

#[test]
fn keyword_fqn_unqualified_is_none() {
    assert_eq!(resolve_kwd(":plain", "readx.db", &[]), None);
}

#[test]
fn keyword_fqn_auto_without_ns_or_current_ns_is_none() {
    assert_eq!(resolve_kwd("::x", "", &[]), None);
}

#[test]
fn lint_as_def_extracts_defined_name_and_keeps_head_usage() {
    let src = "(ns x (:require [my :refer [defthing]]))\n(defthing foo 1)\n(inc foo)";
    let mut cfg = ExtractConfig::default();
    cfg.lint_as.insert("my/defthing".to_string(), DefKind::Def);
    let (_, symbols, occs) =
        extract_full_with(src, "x.clj", &cfg).unwrap();

    // The macro's name argument is now a real definition.
    let foo = symbols
        .iter()
        .find(|s| s.name == "foo")
        .expect("foo should be defined");
    assert_eq!(foo.fqn, "x/foo");
    assert!(matches!(foo.kind, DefKind::Def));

    // The macro head still resolves to the macro (navigable when indexed).
    assert!(occs.iter().any(|o| o.fqn == "my/defthing"));
    // The later `(inc foo)` use points at the new def, and the def-site name
    // is not itself recorded as an occurrence (exactly one `x/foo`).
    assert_eq!(occs.iter().filter(|o| o.fqn == "x/foo").count(), 1);
}

#[test]
fn without_lint_as_macro_defines_nothing() {
    let src = "(ns x (:require [my :refer [defthing]]))\n(defthing foo 1)\n(inc foo)";
    let (_, symbols, _) = extract_full(src, "x.clj").unwrap();
    assert!(
        symbols.iter().all(|s| s.name != "foo"),
        "with no :lint-as, defthing must not define foo"
    );
}

// --- locals_in_scope_at -------------------------------------------------

/// Position at char offset `within` into the `nth` (0-based) occurrence of
/// `needle` in `source`. Columns are UTF-16 (ASCII in these tests).
fn pos_of(source: &str, needle: &str, nth: usize, within: usize) -> Position {
    let mut search = 0;
    let mut seen = 0;
    let byte = loop {
        let rel = source[search..].find(needle).expect("needle not found");
        let at = search + rel;
        if seen == nth {
            break at + within;
        }
        seen += 1;
        search = at + needle.len();
    };
    let mut line = 0u32;
    let mut col = 0u32;
    for (i, c) in source.char_indices() {
        if i >= byte {
            break;
        }
        if c == '\n' {
            line += 1;
            col = 0;
        } else {
            col += c.len_utf16() as u32;
        }
    }
    Position::new(line, col)
}

fn local_names(source: &str, pos: Position) -> Vec<String> {
    locals_in_scope_at(source, pos)
        .into_iter()
        .map(|b| b.name)
        .collect()
}

#[test]
fn locals_let_sequential_visibility() {
    // The reported bug: an earlier `let` binding must be visible in a later
    // binding's RHS and in the body, but not in its own RHS.
    let src = "(ns x)\n(defn f []\n  (let [a 1\n        b (+ a 1)]\n    (+ a b)))";

    // In the body `(+ a b)`, both `a` and `b` are in scope.
    let body = local_names(src, pos_of(src, "(+ a b)", 0, 3));
    assert!(body.contains(&"a".to_string()), "body sees a: {:?}", body);
    assert!(body.contains(&"b".to_string()), "body sees b: {:?}", body);

    // In `b`'s RHS `(+ a 1)`, `a` is visible but `b` is not yet.
    let rhs = local_names(src, pos_of(src, "(+ a 1)", 0, 3));
    assert!(rhs.contains(&"a".to_string()), "rhs sees a: {:?}", rhs);
    assert!(
        !rhs.contains(&"b".to_string()),
        "rhs must not see b: {:?}",
        rhs
    );
}

#[test]
fn locals_let_binding_range_points_at_binding_site() {
    let src = "(ns x)\n(defn f []\n  (let [a 1\n        b (+ a 1)]\n    (+ a b)))";
    let binding = locals_in_scope_at(src, pos_of(src, "(+ a b)", 0, 3))
        .into_iter()
        .find(|b| b.name == "a")
        .expect("a in scope");
    assert_eq!(binding.name_range.start, pos_of(src, "[a 1", 0, 1));
}

#[test]
fn locals_innermost_shadows() {
    // A nested `let` re-binding `a` shadows the param; the innermost binding
    // is last and its range is the inner binding site.
    let src = "(ns x)\n(defn f [a]\n  (let [a 2]\n    a))";
    let binds = locals_in_scope_at(src, pos_of(src, "    a))", 0, 4));
    let last_a = binds
        .iter()
        .rev()
        .find(|b| b.name == "a")
        .expect("a in scope");
    assert_eq!(last_a.name_range.start, pos_of(src, "[a 2", 0, 1));
}

#[test]
fn locals_defn_params_visible_in_body() {
    let src = "(ns x)\n(defn g [p q]\n  (+ p q))";
    let body = local_names(src, pos_of(src, "(+ p q)", 0, 3));
    assert!(body.contains(&"p".to_string()));
    assert!(body.contains(&"q".to_string()));
}

#[test]
fn locals_destructuring_binds_all_targets() {
    let src = "(ns x)\n(defn h [{:keys [p] :as m} [q & qs]]\n  (+ p q))";
    let body = local_names(src, pos_of(src, "(+ p q)", 0, 3));
    for name in ["p", "m", "q", "qs"] {
        assert!(
            body.contains(&name.to_string()),
            "{} bound: {:?}",
            name,
            body
        );
    }
    assert!(!body.contains(&"&".to_string()), "& is not a binding");
}

#[test]
fn locals_for_let_modifier() {
    let src = "(ns x)\n(defn i [xs]\n  (for [n xs :let [m (inc n)]]\n    (+ n m)))";
    let body = local_names(src, pos_of(src, "(+ n m)", 0, 3));
    assert!(body.contains(&"n".to_string()), "n bound: {:?}", body);
    assert!(body.contains(&"m".to_string()), "m bound: {:?}", body);
}

#[test]
fn catch_binding_visible_in_its_body() {
    let src = "(ns x)\n(defn f []\n  (try (g)\n       (catch Exception e\n         (log e))))";
    assert!(
        local_names(src, pos_of(src, "(log e)", 0, 2)).contains(&"e".to_string()),
        "catch binding must be visible in its body"
    );
    assert!(
        !local_names(src, pos_of(src, "(g)", 0, 1)).contains(&"e".to_string()),
        "catch binding must not leak into the try body"
    );
}

#[test]
fn catch_and_as_arrow_binding_sites_resolve_to_themselves() {
    // A cursor on the binding symbol itself must yield that binding, so
    // goto-definition/references/rename work from the declaration too.
    let src = "(ns x)\n(defn f []\n  (try (g)\n       (catch Exception e\n         (log e))))";
    assert!(local_names(src, pos_of(src, "Exception e", 0, 10)).contains(&"e".to_string()));

    let src = "(ns x)\n(defn f [y]\n  (as-> y v\n    (inc v)))";
    assert!(local_names(src, pos_of(src, "as-> y v", 0, 7)).contains(&"v".to_string()));
}

#[test]
fn as_arrow_name_visible_in_body() {
    let src = "(ns x)\n(defn f [y]\n  (as-> y v\n    (inc v)))";
    assert!(
        local_names(src, pos_of(src, "(inc v)", 0, 2)).contains(&"v".to_string()),
        "as-> name must be visible in its body"
    );
    assert!(
        !local_names(src, pos_of(src, "as-> y", 0, 5)).contains(&"v".to_string()),
        "as-> name must not be visible in the seed expression"
    );
}

#[test]
fn locals_letfn_names_visible() {
    let src =
        "(ns x)\n(defn j []\n  (letfn [(foo [] (bar))\n          (bar [] 1)]\n    (foo)))";
    let body = local_names(src, pos_of(src, "(foo)))", 0, 1));
    assert!(body.contains(&"foo".to_string()), "foo bound: {:?}", body);
    assert!(body.contains(&"bar".to_string()), "bar bound: {:?}", body);
}

#[test]
fn locals_or_default_does_not_duplicate_binding() {
    // `{:keys [p] :or {p 0}}`: `p` binds exactly once, at the `:keys` site —
    // the `:or` default must not add a second binding (which, shadowing,
    // would hijack goto-definition to the default's position).
    let src = "(ns x)\n(defn f [{:keys [p] :or {p 0}}]\n  p)";
    let binds = locals_in_scope_at(src, pos_of(src, "\n  p)", 0, 3));
    let ps: Vec<_> = binds.iter().filter(|b| b.name == "p").collect();
    assert_eq!(ps.len(), 1, "p bound once: {:?}", binds);
    assert_eq!(ps[0].name_range.start, pos_of(src, "[p]", 0, 1));
}

#[test]
fn locals_or_default_value_evaluated_in_outer_scope() {
    // `{:keys [a] :or {a a}}`: the default value `a` is evaluated in the
    // enclosing scope, so the sibling destructured `a` is NOT in scope there
    // (matching how the occurrence walker treats defaults as outer usages).
    let src = "(ns x)\n(defn f [{:keys [a] :or {a a}}]\n  a)";
    // Cursor on the default value (the second `a` in `{a a}`).
    let at_default = local_names(src, pos_of(src, "{a a}", 0, 3));
    assert!(
        !at_default.contains(&"a".to_string()),
        "default value uses outer scope: {:?}",
        at_default
    );
    // But in the body, the destructured `a` IS in scope.
    let at_body = local_names(src, pos_of(src, "\n  a)", 0, 3));
    assert!(
        at_body.contains(&"a".to_string()),
        "body sees a: {:?}",
        at_body
    );
}

#[test]
fn locals_qualified_clojure_core_let() {
    // A head explicitly qualified to clojure.core is still a binding form.
    let src = "(ns x)\n(defn f []\n  (clojure.core/let [a 1]\n    a))";
    let body = local_names(src, pos_of(src, "    a))", 0, 4));
    assert!(
        body.contains(&"a".to_string()),
        "qualified-core let: {:?}",
        body
    );
}

// --- unused bindings ----------------------------------------------------

/// `(name, start line)` of every binding the analysis reports unused.
fn unused(src: &str) -> Vec<(String, u32)> {
    extract_analysis_with(src, "t.clj", &ExtractConfig::default())
        .unwrap()
        .unused_bindings
        .into_iter()
        .map(|b| (b.name, b.name_range.start.line))
        .collect()
}

fn unused_names(src: &str) -> Vec<String> {
    unused(src).into_iter().map(|(n, _)| n).collect()
}

#[test]
fn unused_let_binding_reported() {
    assert_eq!(unused("(let [a 1 b 2] a)"), vec![("b".to_string(), 0)]);
}

#[test]
fn unused_defn_param_reported() {
    assert_eq!(unused_names("(defn f [x y] x)"), vec!["y"]);
}

#[test]
fn unused_underscore_prefixed_binding_is_opt_out() {
    assert!(unused_names("(defn f [_y] 1)").is_empty());
    assert!(unused_names("(defn f [_] 1)").is_empty());
}

#[test]
fn unused_rebinding_of_same_name_is_not_reported() {
    // The RHS marks the first `x`, the body the second.
    assert!(unused_names("(let [x 1 x (inc x)] x)").is_empty());
}

#[test]
fn unused_destructured_names_reported() {
    let names = unused_names("(defn f [{:keys [a b] :as m}] a)");
    assert_eq!(names, vec!["b", "m"], "got {:?}", names);
}

#[test]
fn unused_or_key_never_reports_on_its_own() {
    // The `:or` key is not a binding site; only the `{a :a}` pattern is.
    let found = unused("(let [{a :a :or {a 1}} m] 1)");
    assert_eq!(found.len(), 1, "one report for `a`: {:?}", found);
    let col = "(let [{".len() as u32;
    let reported = extract_analysis_with(
        "(let [{a :a :or {a 1}} m] 1)",
        "t.clj",
        &ExtractConfig::default(),
    )
    .unwrap()
    .unused_bindings;
    assert_eq!(reported[0].name_range.start.character, col);
}

#[test]
fn unused_fn_self_name_is_exempt() {
    assert!(unused_names("(fn me [x] x)").is_empty());
    assert_eq!(unused_names("(fn me [x] 1)"), vec!["x"]);
}

#[test]
fn unused_letfn_name_is_exempt_but_params_are_not() {
    assert_eq!(unused_names("(letfn [(g [p] 1)] (g 1))"), vec!["p"]);
    assert!(unused_names("(letfn [(g [p] p)] 1)").is_empty());
}

#[test]
fn unused_record_fields_and_method_params_are_exempt() {
    assert!(unused_names("(defrecord R [a b] P (m [this q] a))").is_empty());
}

#[test]
fn unused_catch_binding_reported() {
    assert_eq!(unused_names("(try (f) (catch Exception e nil))"), vec!["e"]);
}

#[test]
fn unused_loop_binding_used_by_recur() {
    assert!(unused_names("(loop [i 0] (when (< i 3) (recur (inc i))))").is_empty());
}

#[test]
fn unused_for_let_modifier_reported() {
    assert_eq!(unused_names("(for [x xs :let [y (inc x)]] x)"), vec!["y"]);
}

#[test]
fn unused_defmethod_param_reported() {
    assert_eq!(unused_names("(defmethod m :k [_ arg] 1)"), vec!["arg"]);
}

#[test]
fn unused_syntax_quote_gensym_is_matched_by_name() {
    assert!(unused_names("(defmacro w [x] `(let [v# ~x] v#))").is_empty());
}

#[test]
fn unused_as_arrow_name_reported() {
    assert_eq!(unused_names("(as-> 1 v)"), vec!["v"]);
    assert!(unused_names("(as-> 1 v (inc v))").is_empty());
}

#[test]
fn unused_reported_per_arity() {
    let names = unused_names("(defn f ([a] a) ([a b] a))");
    assert_eq!(names, vec!["b"], "got {:?}", names);
}

// --- local_references_at ------------------------------------------------

#[test]
fn local_refs_let_declaration_and_usages() {
    let src = "(ns x)\n(defn f []\n  (let [a 1]\n    (+ a a)))";
    let refs = local_references_at(src, pos_of(src, "[a 1", 0, 1), "a").expect("local");
    assert_eq!(refs.declaration.start, pos_of(src, "[a 1", 0, 1));
    assert_eq!(refs.usages.len(), 2, "two body usages: {:?}", refs.usages);
    // Resolving from a usage gives the same declaration.
    let from_use = local_references_at(src, pos_of(src, "(+ a a)", 0, 3), "a").expect("local");
    assert_eq!(from_use.declaration, refs.declaration);
    assert_eq!(from_use.usages.len(), 2);
}

#[test]
fn local_refs_flags_keys_destructured() {
    // `a` comes from `{:keys [a]}`: renaming it would change the key
    // looked up, so the caller must be able to refuse.
    let src = "(ns x)\n(defn f [{:keys [a]}] (inc a))";
    let refs = local_references_at(src, pos_of(src, "(inc a)", 0, 5), "a").expect("local");
    assert!(refs.destructured_key, "{{:keys [a]}} binding: {:?}", refs);
    assert_eq!(refs.usages.len(), 1, "one body usage: {:?}", refs.usages);
}

#[test]
fn local_refs_flags_strs_and_syms() {
    for kw in [":strs", ":syms"] {
        let src = format!("(ns x)\n(defn f [{{{} [a]}}] (inc a))", kw);
        let refs =
            local_references_at(&src, pos_of(&src, "(inc a)", 0, 5), "a").expect("local");
        assert!(refs.destructured_key, "{} binding: {:?}", kw, refs);
    }
}

#[test]
fn local_refs_flags_namespaced_keys_directive() {
    // `{:user/keys [a]}` and `{::keys [a]}` bind from `:user/a` / `::a`,
    // so the name is still the key.
    for directive in [":user/keys", "::keys", ":user/syms"] {
        let src = format!("(ns x)\n(defn f [{{{} [a]}}] (inc a))", directive);
        let refs =
            local_references_at(&src, pos_of(&src, "(inc a)", 0, 5), "a").expect("local");
        assert!(refs.destructured_key, "{} binding: {:?}", directive, refs);
    }
}

#[test]
fn local_refs_plain_map_key_is_not_destructured_key() {
    // `{a :a}` names the binding explicitly, so renaming `a` is safe.
    let src = "(ns x)\n(let [{a :a} m] a)";
    let refs = local_references_at(src, pos_of(src, "{a :a}", 0, 1), "a").expect("local");
    assert!(!refs.destructured_key, "{{a :a}} binding: {:?}", refs);
}

#[test]
fn local_refs_or_key_is_a_usage() {
    // The `:or` key resolves to the same declaration as the body usage.
    let src = "(ns x)\n(let [{a :a :or {a 1}} m] a)";
    let refs = local_references_at(src, pos_of(src, "] a)", 0, 2), "a").expect("local");
    assert!(!refs.destructured_key, "{:?}", refs);
    assert_eq!(refs.usages.len(), 2, ":or key + body: {:?}", refs.usages);
}

#[test]
fn local_refs_vector_binding_is_not_destructured_key() {
    let src = "(ns x)\n(let [[a b] v] (+ a b))";
    let refs = local_references_at(src, pos_of(src, "[[a b]", 0, 2), "a").expect("local");
    assert!(!refs.destructured_key, "vector binding: {:?}", refs);
}

#[test]
fn local_refs_exclude_shadowed_rebinding() {
    // Outer `a` has one usage (the trailing body `a`); the inner `let`'s
    // rebinding and its body must not be counted.
    let src = "(ns x)\n(defn f []\n  (let [a 1]\n    (let [a 2]\n      a)\n    a))";
    let refs = local_references_at(src, pos_of(src, "[a 1", 0, 1), "a").expect("local");
    assert_eq!(
        refs.usages.len(),
        1,
        "only the outer body use: {:?}",
        refs.usages
    );
    assert_eq!(refs.usages[0].start.line, 5);
}

#[test]
fn local_refs_from_fn_param() {
    let src = "(ns x)\n(defn f [a]\n  (+ a a))";
    let refs = local_references_at(src, pos_of(src, "[a]", 0, 1), "a").expect("local param");
    assert_eq!(refs.declaration.start, pos_of(src, "[a]", 0, 1));
    assert_eq!(refs.usages.len(), 2);
}

#[test]
fn local_refs_sequential_binding_rhs_counts() {
    // `a` is used in a later binding's RHS (`b a`) and in the body.
    let src = "(ns x)\n(defn f []\n  (let [a 1\n        b a]\n    (+ a b)))";
    let refs = local_references_at(src, pos_of(src, "[a 1", 0, 1), "a").expect("local");
    assert_eq!(refs.usages.len(), 2, "rhs + body: {:?}", refs.usages);
}

#[test]
fn local_refs_none_for_non_local() {
    // `undefined` is not bound anywhere → not a local.
    let src = "(ns x)\n(defn f []\n  (+ undefined 1))";
    assert!(local_references_at(src, pos_of(src, "undefined", 0, 2), "undefined").is_none());
}

#[test]
fn local_refs_none_on_quoted_symbol() {
    // A cursor on quoted data `'x` is not a real usage of the local `x`,
    // even though `x` is lexically in scope.
    let src = "(ns y)\n(defn f []\n  (let [x 1]\n    'x))";
    assert!(local_references_at(src, pos_of(src, "'x", 0, 1), "x").is_none());
}
