use clj_pulse::collect::Dict;
use clj_pulse::document::DocumentStore;
use clj_pulse::handlers::references::OpenDoc;
use clj_pulse::handlers::rename::{
    files_to_read, is_valid_symbol_name, prepare_rename, rename, strip_colons, FileEdit, RenameError,
};
use clj_pulse::index::extractor::extract_full;
use clj_pulse::index::symbols::Index;
use clj_pulse::lsp::{Position, Range};

const URI: &str = "file:///p/src/app.clj";
const PATH: &str = "/p/src/app.clj";
const OTHER: &str = "/p/src/other.clj";

/// A project of one open file, and of one on disk where `other` has its text.
struct Project {
    index: Index,
    store: DocumentStore,
    open: Vec<OpenDoc>,
    disk: Dict<String>,
}

fn project(text: &str, other: Option<&str>) -> Project {
    let mut index = Index::new();
    let (meta, symbols, occurrences) = extract_full(text, PATH).unwrap();
    index.insert_file(meta, symbols, occurrences);
    let mut disk = Dict::new();
    if let Some(source) = other {
        let (meta, symbols, occurrences) = extract_full(source, OTHER).unwrap();
        index.insert_file(meta, symbols, occurrences);
        disk.insert(OTHER.to_string(), source.to_string());
    }
    let mut store = DocumentStore::new();
    store.open(URI.to_string(), text.to_string());
    Project {
        index,
        store,
        open: vec![OpenDoc {
            uri: URI.to_string(),
            path: PATH.to_string(),
        }],
        disk,
    }
}

impl Project {
    fn renamed(&self, line: u32, character: u32, name: &str) -> Result<Vec<FileEdit>, RenameError> {
        let at = Position::new(line, character);
        rename(&self.index, &self.store, &self.open, &self.disk, URI, PATH, at, name)
    }

    fn prepared(&self, line: u32, character: u32) -> Result<Range, RenameError> {
        let at = Position::new(line, character);
        prepare_rename(&self.index, &self.store, &self.open, &self.disk, URI, PATH, at)
    }
}

fn places(edits: &[FileEdit]) -> Vec<(String, u32, u32)> {
    let mut out: Vec<(String, u32, u32)> = edits
        .iter()
        .map(|e| {
            let start = e.edit.range.start;
            (e.file.clone(), start.line, start.character)
        })
        .collect();
    out.sort();
    out
}

#[test]
fn a_definition_is_renamed_with_its_usages() {
    let p = project(
        "(ns app)\n(defn add [a] a)\n(add 1)\n",
        Some("(ns other (:require [app :as a]))\n(a/add 2)\n"),
    );
    let edits = p.renamed(1, 7, "plus").expect("edits");
    assert_eq!(
        places(&edits),
        vec![
            (PATH.to_string(), 1, 6),
            (PATH.to_string(), 2, 1),
            (OTHER.to_string(), 1, 3),
        ]
    );
    assert!(edits.iter().all(|e| e.edit.new_text == "plus"));
    assert_eq!(
        p.prepared(2, 2).expect("a range"),
        Range::new(Position::new(2, 1), Position::new(2, 4))
    );
}

#[test]
fn a_local_is_renamed_in_its_scope() {
    let p = project("(ns app)\n(defn f [x] (+ x x))\n(defn g [x] x)\n", None);
    let edits = p.renamed(1, 9, "y").expect("edits");
    assert_eq!(
        places(&edits),
        vec![
            (PATH.to_string(), 1, 9),
            (PATH.to_string(), 1, 15),
            (PATH.to_string(), 1, 17),
        ]
    );
}

#[test]
fn a_keyword_is_renamed_in_every_notation() {
    let p = project(
        "(ns app)\n(def m {::db 1})\n",
        Some("(ns other (:require [app :as a]))\n(::a/db m)\n(:app/db m)\n"),
    );
    let edits = p.renamed(1, 10, "store").expect("edits");
    assert_eq!(
        places(&edits),
        vec![
            (PATH.to_string(), 1, 10),
            (OTHER.to_string(), 1, 5),
            (OTHER.to_string(), 2, 6),
        ]
    );
}

#[test]
fn only_files_on_disk_are_asked_for() {
    let p = project(
        "(ns app)\n(def m {::db 1})\n",
        Some("(ns other)\n(:app/db m)\n"),
    );
    let wanted = files_to_read(&p.index, &p.store, &p.open, URI, PATH, Position::new(1, 10));
    assert_eq!(wanted, vec![OTHER.to_string()]);
}

#[test]
fn a_library_file_is_not_renamed_in() {
    let mut p = project("(ns app)\n(defn add [a] a)\n", None);
    p.index = Index::new();
    let (meta, symbols, _) = extract_full("(ns app)\n(defn add [a] a)\n", PATH).unwrap();
    p.index.insert_lib_file(meta, symbols);
    let err = p.renamed(1, 7, "plus").unwrap_err();
    assert!(matches!(err, RenameError::LibraryFile));
    assert_eq!(err.message(), "cannot rename from a library file");
}

#[test]
fn a_destructured_key_is_not_renamed() {
    let p = project("(ns app)\n(defn f [{:keys [id]}] id)\n", None);
    let err = p.renamed(1, 24, "key").unwrap_err();
    assert!(matches!(&err, RenameError::DestructuredKey(w) if w == "id"));
    assert_eq!(
        err.message(),
        "cannot rename a :keys/:strs/:syms destructured binding 'id': rewrite it as {new-name :id} first"
    );
}

#[test]
fn there_must_be_something_to_rename() {
    let p = project("(ns app)\n\n(def x 1)\n", None);
    assert!(matches!(p.renamed(1, 0, "y"), Err(RenameError::Nothing)));
    assert_eq!(p.prepared(1, 0).unwrap_err().message(), "nothing to rename here");
}

#[test]
fn what_the_project_does_not_define_is_not_renamed() {
    let p = project("(ns app (:require [other :as o]))\n(o/add 1)\n", None);
    let err = p.renamed(1, 4, "plus").unwrap_err();
    assert!(matches!(&err, RenameError::NoDefinition(fqn) if fqn == "other/add"));

    let mut q = project("(ns app (:require [lib :as l]))\n(l/add 1)\n", None);
    let (meta, symbols, _) = extract_full("(ns lib)\n(defn add [a] a)\n", "/lib/lib.clj").unwrap();
    q.index.insert_lib_file(meta, symbols);
    let err = q.renamed(1, 4, "plus").unwrap_err();
    assert!(matches!(&err, RenameError::NotProject(fqn) if fqn == "lib/add"));
    assert_eq!(err.message(), "cannot rename library or built-in symbol lib/add");
}

#[test]
fn some_keywords_are_not_renamed() {
    let p = project("(ns app)\n(def m {:id 1})\n", None);
    assert!(matches!(p.renamed(1, 10, "key"), Err(RenameError::UnqualifiedKeyword(k)) if k == ":id"));

    let mut q = project("(ns app)\n(def m {:lib/id 1})\n", None);
    let (meta, symbols, _) = extract_full("(ns lib)\n", "/lib/lib.clj").unwrap();
    q.index.insert_lib_file(meta, symbols);
    assert!(matches!(q.renamed(1, 13, "key"), Err(RenameError::LibraryKeyword(ns)) if ns == "lib"));
}

#[test]
fn a_file_that_cannot_be_read_stops_the_rename() {
    let mut p = project(
        "(ns app)\n(def m {::db 1})\n",
        Some("(ns other)\n(:app/db m)\n"),
    );
    p.disk = Dict::new();
    let err = p.renamed(1, 10, "store").unwrap_err();
    assert!(matches!(&err, RenameError::Unreadable { file, .. } if file == OTHER));
    assert_eq!(err.message(), "cannot rename :app/db: /p/src/other.clj is unreadable");
}

#[test]
fn a_usage_that_is_no_keyword_stops_the_rename() {
    let mut p = project(
        "(ns app)\n(def m {::db 1})\n",
        Some("(ns other)\n(:app/db m)\n"),
    );
    p.disk = Dict::new();
    p.disk.insert(OTHER.to_string(), "(ns other)\n(xapp/db m)\n".to_string());
    let err = p.renamed(1, 10, "store").unwrap_err();
    assert!(
        matches!(&err, RenameError::KeepsOldKey { token, line, .. } if token == "xapp/db" && *line == 1),
        "{err:?}"
    );
}

#[test]
fn a_file_that_changed_on_disk_stops_the_rename() {
    let mut p = project(
        "(ns app)\n(def m {::db 1})\n",
        Some("(ns other)\n(:app/db m)\n"),
    );
    p.disk = Dict::new();
    p.disk.insert(OTHER.to_string(), "(ns other)\n(:app/xx m)\n".to_string());
    let err = p.renamed(1, 10, "store").unwrap_err();
    assert!(
        matches!(&err, RenameError::NotTheKeyword { token, .. } if token == ":app/xx"),
        "{err:?}"
    );
}

#[test]
fn the_new_name_must_be_one() {
    let p = project("(ns app)\n(defn add [a] a)\n(def m {::db 1})\n", None);
    assert!(matches!(p.renamed(1, 7, "a b"), Err(RenameError::InvalidName(n)) if n == "a b"));
    assert!(matches!(p.renamed(2, 10, ":store"), Err(RenameError::Colon(n)) if n == "store"));
    assert!(is_valid_symbol_name("a-b?"));
    assert!(!is_valid_symbol_name(""));
    assert!(!is_valid_symbol_name("1a"));
    assert!(!is_valid_symbol_name("a/b"));
    assert_eq!(strip_colons("::db"), "db");
}

#[test]
fn a_local_is_not_renamed_to_a_bound_name() {
    let p = project("(ns app)\n(defn f [x y] (+ x y))\n", None);
    let err = p.renamed(1, 9, "y").unwrap_err();
    assert!(matches!(&err, RenameError::Captured { word, new_name } if word == "x" && new_name == "y"));
}

#[test]
fn the_offered_range_is_among_the_edits() {
    let p = project(
        "(ns app)\n(defn add [x] (+ x 1))\n(add 1)\n(def m {::db 1})\n",
        Some("(ns other (:require [app :as a]))\n(a/add 2)\n(::a/db {})\n"),
    );
    for (line, character) in [(1, 7), (2, 2), (1, 11), (1, 17), (3, 11)] {
        let range = p.prepared(line, character).expect("a range");
        let edits = p.renamed(line, character, "fresh").expect("edits");
        assert!(edits.iter().any(|e| e.file == PATH && e.edit.range == range));
        assert!(edits.iter().all(|e| e.edit.new_text == "fresh"));
    }
}

#[test]
fn the_order_of_the_files_does_not_change_the_edits() {
    let text = "(ns app)\n(defn add [a] a)\n(def m {::db (add 1)})\n";
    let sources: Vec<(String, String)> = (0..8)
        .map(|i| {
            (
                format!("/p/src/other{}.clj", i),
                format!("(ns other{} (:require [app :as a]))\n(a/add ::a/db)\n", i),
            )
        })
        .collect();
    let mut seen: Vec<(Vec<(String, u32, u32)>, Vec<(String, u32, u32)>)> = vec![];
    for turn in 0..4 {
        let mut p = project(text, None);
        let mut order: Vec<&(String, String)> = sources.iter().collect();
        order.rotate_left(turn * 2);
        for (file, source) in order {
            let (meta, symbols, occurrences) = extract_full(source, file).unwrap();
            p.index.insert_file(meta, symbols, occurrences);
            p.disk.insert(file.clone(), source.clone());
        }
        let vars = p.renamed(1, 7, "plus").expect("edits");
        let keywords = p.renamed(2, 10, "store").expect("edits");
        assert_eq!((vars.len(), keywords.len()), (10, 9));
        seen.push((places(&vars), places(&keywords)));
    }
    assert!(seen.iter().all(|s| *s == seen[0]));
}
