use clj_pulse::collect::Dict;
use clj_pulse::handlers::resolve::factory_target;
use clj_pulse::handlers::{resolve_symbol, ResolvedSymbol};
use clj_pulse::index::symbols::Index;
use clj_pulse::index::{CoreSymbol, DefKind, NsMeta, Symbol, SymbolSource};
use clj_pulse::lsp::{Position, Range};

fn nowhere() -> Range {
    Range::new(Position::new(0, 0), Position::new(0, 0))
}

fn meta(name: &str, file: &str, refers: Dict<String>) -> NsMeta {
    NsMeta {
        name: name.to_string(),
        file: file.to_string(),
        aliases: Dict::new(),
        refers,
        requires: vec![],
        imports: Dict::new(),
        refer_all: vec![],
        core_excludes: vec![],
    }
}

#[test]
fn factory_target_strips_prefixes_and_flags_map_ctor() {
    assert_eq!(factory_target("map->DB"), Some(("DB".to_string(), true)));
    assert_eq!(factory_target("->DB"), Some(("DB".to_string(), false)));
    assert_eq!(factory_target("plain"), None);
    assert_eq!(factory_target("->"), None);
    assert_eq!(factory_target("map->"), None);
}

fn sym(name: &str, ns: &str, kind: DefKind) -> Symbol {
    Symbol {
        name: name.to_string(),
        fqn: format!("{}/{}", ns, name),
        ns: ns.to_string(),
        kind,
        params: vec![],
        doc: None,
        file: "a.clj".to_string(),
        source: SymbolSource::Project,
        range: nowhere(),
        name_range: nowhere(),
        private: false,
    }
}

fn index_with(symbols: Vec<Symbol>) -> Index {
    index_with_core(symbols, vec![])
}

fn index_with_core(symbols: Vec<Symbol>, core: Vec<CoreSymbol>) -> Index {
    let mut index = Index::new_with_core(core);
    index.insert_file(
        meta("my.ns", "a.clj", Dict::new()),
        symbols,
        vec![],
    );
    index
}

#[test]
fn resolve_symbol_navigates_factory_to_record() {
    let index = index_with(vec![sym("DB", "my.ns", DefKind::Defrecord)]);
    for factory in ["map->DB", "->DB"] {
        match resolve_symbol(&index, factory, "my.ns") {
            Some(ResolvedSymbol::Project(s)) => assert_eq!(s.name, "DB"),
            other => panic!("{} did not resolve to DB: {:?}", factory, other),
        }
    }
}

#[test]
fn resolve_factory_ignores_non_record_targets() {
    // A plain fn named `foo` must not be reachable via `->foo`.
    let index = index_with(vec![sym("foo", "my.ns", DefKind::Defn)]);
    assert!(resolve_symbol(&index, "->foo", "my.ns").is_none());
}

#[test]
fn map_constructor_is_record_only() {
    // deftype generates `->T` but no `map->T`.
    let index = index_with(vec![sym("T", "my.ns", DefKind::Deftype)]);
    assert!(matches!(
        resolve_symbol(&index, "->T", "my.ns"),
        Some(ResolvedSymbol::Project(_))
    ));
    assert!(resolve_symbol(&index, "map->T", "my.ns").is_none());
}

#[test]
fn local_constructor_shadows_core() {
    // A local record generating a ctor that collides with clojure.core
    // (e.g. `->Eduction`) must resolve to the local record, not core.
    let core = vec![CoreSymbol {
        name: "->Foo".to_string(),
        params: String::new(),
        doc: String::new(),
    }];
    let index = index_with_core(vec![sym("Foo", "my.ns", DefKind::Defrecord)], core);
    match resolve_symbol(&index, "->Foo", "my.ns") {
        Some(ResolvedSymbol::Project(s)) => assert_eq!(s.name, "Foo"),
        other => panic!("local ctor did not shadow core: {:?}", other),
    }
}

#[test]
fn resolve_symbol_navigates_referred_factory() {
    let mut index = Index::new();
    // The record lives in `recs`.
    index.insert_file(
        meta("recs", "recs.clj", Dict::new()),
        vec![sym("DB", "recs", DefKind::Defrecord)],
        vec![],
    );
    // `app` refers the (un-indexed) constructors.
    let mut refers = Dict::new();
    refers.insert("->DB".to_string(), "recs/->DB".to_string());
    refers.insert("map->DB".to_string(), "recs/map->DB".to_string());
    index.insert_file(
        meta("app", "app.clj", refers),
        vec![],
        vec![],
    );

    for factory in ["->DB", "map->DB"] {
        match resolve_symbol(&index, factory, "app") {
            Some(ResolvedSymbol::Project(s)) => assert_eq!(s.name, "DB"),
            other => panic!("referred {} did not resolve: {:?}", factory, other),
        }
    }
}

fn core_entry(name: &str) -> CoreSymbol {
    CoreSymbol {
        name: name.to_string(),
        params: String::new(),
        doc: String::new(),
    }
}

#[test]
fn letgo_core_is_the_bare_word_builtin() {
    // let-go project: `core/map` indexed from .lg source, marker set. Bare
    // `map` must resolve to that, not the static clojure.core builtin even
    // when the static list also carries `map`.
    let mut index = index_with_core(vec![sym("map", "core", DefKind::Defn)], vec![core_entry("map")]);
    index.mark_letgo_core();

    match resolve_symbol(&index, "map", "app") {
        Some(ResolvedSymbol::Project(s)) => assert_eq!(s.fqn, "core/map"),
        other => panic!("bare map did not resolve to let-go core/map: {:?}", other),
    }
}

#[test]
fn without_letgo_marker_bare_word_uses_static_core() {
    // No marker → unchanged behavior: bare `map` falls through to the
    // static clojure.core list.
    let mut index = index_with_core(vec![], vec![core_entry("map")]);

    match resolve_symbol(&index, "map", "app") {
        Some(ResolvedSymbol::Core(c)) => assert_eq!(c.name, "map"),
        other => panic!("expected static Core(map): {:?}", other),
    }
}

#[test]
fn letgo_marker_skips_static_core_for_missing_builtin() {
    // Marker set but `core/map` not indexed (e.g. a go-only primitive):
    // resolution must NOT fall back to the static clojure.core list, which
    // would mis-navigate to an absent clojure JAR.
    let mut index = index_with_core(vec![], vec![core_entry("map")]);
    index.mark_letgo_core();

    assert!(resolve_symbol(&index, "map", "app").is_none());
}

#[test]
fn letgo_special_form_resolves_for_hover() {
    let mut index = index_with(vec![]);
    index.mark_letgo_core();
    match resolve_symbol(&index, "if", "app") {
        Some(ResolvedSymbol::SpecialForm(sf)) => assert_eq!(sf.name, "if"),
        other => panic!("expected SpecialForm(if): {:?}", other),
    }
}

#[test]
fn without_letgo_marker_special_form_is_not_resolved() {
    // No marker → `if` is neither a project nor a static-core symbol, so it
    // stays unresolved (behavior unchanged for Clojure projects).
    let index = index_with(vec![]);
    assert!(resolve_symbol(&index, "if", "app").is_none());
}

#[test]
fn letgo_native_resolves_with_borrowed_core_entry() {
    // `count` is a native (no `.lg` source); with the marker set it resolves
    // to LetgoNative carrying the clojure.core entry for hover text.
    let mut index = index_with_core(vec![], vec![core_entry("count")]);
    index.mark_letgo_core();
    match resolve_symbol(&index, "count", "app") {
        Some(ResolvedSymbol::LetgoNative(c)) => assert_eq!(c.name, "count"),
        other => panic!("expected LetgoNative(count): {:?}", other),
    }
}
