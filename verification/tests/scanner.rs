use clj_pulse::index::scanner::{
    build_index_scoped, collect_clojure_files, collect_edn_files, index_classpath_dir, index_dir_libs,
    keeps_entry, scan_roots, split_classpath, walk_from, ClasspathEntry, LibraryDir, ScanRoot,
    SourceFile,
};
use clj_pulse::index::symbols::Index;
use clj_pulse::index::{ExtractConfig, SymbolSource};
use clj_pulse::projects::path_of;

fn file(path: &str, text: &str) -> SourceFile {
    SourceFile {
        path: path.to_string(),
        text: text.to_string(),
    }
}

fn strings(list: &[&str]) -> Vec<String> {
    list.iter().map(|s| s.to_string()).collect()
}

fn root(project_dir: &str, path: &str) -> ScanRoot {
    ScanRoot {
        project_dir: project_dir.to_string(),
        path: path.to_string(),
    }
}

/// A parent-relative source root (`:paths ["../shared/src"]` joins to
/// `project/../shared/src`) must still be scanned.
#[test]
fn scoped_scan_handles_parent_relative_source_roots() {
    let shared = root("/ws/app", "/ws/app/../shared/src");
    let from = walk_from(&shared);
    assert_eq!(path_of(&from, from.len()), "/ws/shared/src");
    assert!(keeps_entry(&shared, "/ws/shared/src/lib.clj"));

    let found = collect_clojure_files(&strings(&["/ws/shared/src/lib.clj"]));
    assert_eq!(found.len(), 1);
    let index = build_index_scoped(
        &vec![file(&found[0], "(ns lib)\n")],
        &vec![],
        &ExtractConfig::default(),
    );
    assert!(index.has_namespace("lib"));
}

#[test]
fn a_walk_starts_at_the_project_and_keeps_to_the_root() {
    let src = root("/ws/app", "/ws/app/src");
    let from = walk_from(&src);
    assert_eq!(path_of(&from, from.len()), "/ws/app");
    assert!(keeps_entry(&src, "/ws/app"));
    assert!(keeps_entry(&src, "/ws/app/src/a.clj"));
    assert!(!keeps_entry(&src, "/ws/app/test/a.clj"));
}

#[test]
fn every_source_path_of_a_project_is_a_root() {
    let roots = scan_roots("/p", &strings(&["/p/src", "/p/test"]));
    assert_eq!(roots.len(), 2);
    assert_eq!((roots[1].project_dir.as_str(), roots[1].path.as_str()), ("/p", "/p/test"));
}

#[test]
fn sources_and_configuration_are_told_apart() {
    let files = strings(&["/p/a.clj", "/p/b.edn", "/p/c.txt", "/p/d.lg"]);
    assert_eq!(collect_clojure_files(&files), strings(&["/p/a.clj", "/p/d.lg"]));
    assert_eq!(collect_edn_files(&files), strings(&["/p/b.edn"]));
}

#[test]
fn configuration_is_indexed_beside_the_sources() {
    let index = build_index_scoped(
        &vec![file("/p/a.clj", "(ns a)\n(defn f [] 1)\n")],
        &vec![file("/p/config.edn", "{:app/db {:port 1}}")],
        &ExtractConfig::default(),
    );
    assert!(index.lookup("a/f").is_some());
    let occurrences = index.occurrences_in("/p/config.edn").expect("the file is indexed");
    assert!(occurrences.iter().any(|o| o.fqn == ":app/db"), "{:?}", occurrences);
}

#[test]
fn a_library_directory_marks_its_symbols() {
    let mut index = Index::new();
    index_classpath_dir("/lib", &vec![file("/lib/x.clj", "(ns x)\n(defn f [] 1)\n")], &mut index);
    let f = index.lookup("x/f").expect("indexed");
    assert_eq!(f.source, SymbolSource::Dir("/lib".to_string()));

    let mut both = Index::new();
    let dirs = vec![
        LibraryDir {
            dir: "/l1".to_string(),
            files: vec![file("/l1/a.clj", "(ns a)")],
        },
        LibraryDir {
            dir: "/l2".to_string(),
            files: vec![file("/l2/b.clj", "(ns b)")],
        },
    ];
    index_dir_libs(&dirs, &mut both);
    assert!(both.has_namespace("a") && both.has_namespace("b"));
    assert!(both.is_library_namespace("a"));
}

#[test]
fn a_classpath_is_split_into_archives_and_directories() {
    let entry = |path: &str, is_dir: bool| ClasspathEntry {
        path: path.to_string(),
        is_dir,
    };
    let (jars, dirs) = split_classpath(
        "/p",
        &vec![
            entry("/p/src", true),
            entry("/m2/a.jar", false),
            entry("/git/lib/src", true),
            entry("/m2/readme.txt", false),
        ],
    );
    assert_eq!(jars, strings(&["/m2/a.jar"]));
    assert_eq!(dirs, strings(&["/git/lib/src"]));
}
