use clj_pulse::document::DocumentStore;
use clj_pulse::handlers::definition;
use clj_pulse::handlers::references::{occurrences_for, references, resolve_fqn_at, OpenDoc};
use clj_pulse::handlers::symbols::{document_symbols, workspace_symbols, SymbolKind};
use clj_pulse::index::extractor::extract_full;
use clj_pulse::index::symbols::Index;
use clj_pulse::lsp::Position;

const LIB: &str = "(ns app.lib)\n(defn add \"Adds.\" [a b] (+ a b))\n(def limit 3)\n";
const MAIN: &str = "(ns app.main (:require [app.lib :as lib]))\n(defn go [x]\n  (let [y (lib/add x 1)]\n    (lib/add y y)))\n";
const LIB_PATH: &str = "/p/src/app/lib.clj";
const MAIN_PATH: &str = "/p/src/app/main.clj";
const MAIN_URI: &str = "file:///p/src/app/main.clj";

fn setup() -> (Index, DocumentStore, Vec<OpenDoc>) {
    let mut index = Index::new();
    for (text, path) in [(LIB, LIB_PATH), (MAIN, MAIN_PATH)] {
        let (meta, symbols, occurrences) = extract_full(text, path).unwrap();
        index.insert_file(meta, symbols, occurrences);
    }
    let mut store = DocumentStore::new();
    store.open(MAIN_URI.to_string(), MAIN.to_string());
    let open = vec![OpenDoc {
        uri: MAIN_URI.to_string(),
        path: MAIN_PATH.to_string(),
    }];
    (index, store, open)
}

#[test]
fn a_usage_leads_to_its_definition() {
    let (index, store, _) = setup();
    // On `add` of the first `lib/add`.
    let found = definition::handle(&index, &store, MAIN_URI, MAIN_PATH, Position::new(2, 16))
        .expect("a definition");
    assert_eq!(found.file, LIB_PATH);
    assert_eq!(found.range.start, Position::new(1, 6));
    assert_eq!(
        resolve_fqn_at(&index, &store, MAIN_URI, MAIN_PATH, Position::new(2, 16)).as_deref(),
        Some("app.lib/add")
    );
}

#[test]
fn a_local_leads_to_its_binding() {
    let (index, store, _) = setup();
    let found = definition::handle(&index, &store, MAIN_URI, MAIN_PATH, Position::new(3, 13))
        .expect("a definition");
    assert_eq!(found.file, MAIN_PATH);
    assert_eq!(found.range.start, Position::new(2, 8));
}

#[test]
fn a_closed_document_leads_nowhere() {
    let (index, store, _) = setup();
    let other = "file:///p/src/app/lib.clj";
    assert!(definition::handle(&index, &store, other, LIB_PATH, Position::new(1, 7)).is_none());
}

#[test]
fn references_cover_every_usage() {
    let (index, store, open) = setup();
    let at = Position::new(2, 16);
    let all = references(&index, &store, &open, MAIN_URI, MAIN_PATH, at, true).expect("references");
    let mut places: Vec<(String, Position)> =
        all.iter().map(|l| (l.file.clone(), l.range.start)).collect();
    places.sort_by_key(|(file, start)| (file.clone(), start.line, start.character));
    assert_eq!(
        places,
        vec![
            (LIB_PATH.to_string(), Position::new(1, 6)),
            (MAIN_PATH.to_string(), Position::new(2, 15)),
            (MAIN_PATH.to_string(), Position::new(3, 9)),
        ]
    );
    let uses = references(&index, &store, &open, MAIN_URI, MAIN_PATH, at, false).expect("references");
    assert_eq!(uses.len(), 2);
}

#[test]
fn references_of_a_local_stay_in_its_document() {
    let (index, store, open) = setup();
    let at = Position::new(3, 13);
    let all = references(&index, &store, &open, MAIN_URI, MAIN_PATH, at, true).expect("references");
    assert_eq!(all.len(), 3);
    assert!(all.iter().all(|l| l.file == MAIN_PATH));
    let uses = references(&index, &store, &open, MAIN_URI, MAIN_PATH, at, false).expect("references");
    assert_eq!(uses.len(), 2);
}

#[test]
fn an_open_document_counts_as_it_stands() {
    let (index, mut store, open) = setup();
    // One usage is typed away; the index still has both.
    store.open(MAIN_URI.to_string(), MAIN.replace("(lib/add y y)", "y"));
    let files = occurrences_for(&index, &store, &open, "app.lib/add");
    let main: Vec<usize> = files
        .iter()
        .filter(|f| f.file == MAIN_PATH)
        .map(|f| f.occurrences.len())
        .collect();
    assert_eq!(main, vec![1]);
}

#[test]
fn an_outline_lists_the_definitions() {
    let (index, store, _) = setup();
    let outline =
        document_symbols(&index, &store, MAIN_URI, MAIN_PATH, true).expect("an outline");
    assert_eq!(outline.len(), 1);
    assert_eq!(outline[0].name, "go");
    assert_eq!(outline[0].kind, SymbolKind::Function);
    assert_eq!(outline[0].selection_range.start, Position::new(1, 6));
}

#[test]
fn a_search_finds_symbols_of_the_project() {
    let (index, _, _) = setup();
    let found = workspace_symbols(&index, "add");
    assert_eq!(found.len(), 1);
    assert_eq!(found[0].name, "add");
    assert_eq!(found[0].container_name, "app.lib");
    assert_eq!(found[0].location.file, LIB_PATH);
    assert_eq!(workspace_symbols(&index, "").len(), 3);
    assert!(workspace_symbols(&index, "zzz").is_empty());
}
