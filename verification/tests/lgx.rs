use clj_pulse::collect::Dict;
use clj_pulse::config::ProjectKind;
use clj_pulse::index::extractor::extract_full;
use clj_pulse::index::scanner::SourceFile;
use clj_pulse::index::symbols::Index;
use clj_pulse::lgx::{
    core_source_dir, gitlib_dir, index_core_dir, index_letgo_core, lg_version, lgx_home, parse_deps,
    parse_native_defs, read_go_string, resolve_with_home, Coord, CoreSource, World,
};
use clj_pulse::path::normalize_lexically;
use clj_pulse::projects::path_of;

#[test]
fn parses_git_sha_coord() {
    let edn = r#"{:deps {nooga/let-go {:git/url "https://github.com/nooga/let-go"
                                           :git/sha "46ce159c"}}}"#;
    let deps = parse_deps(edn);
    assert_eq!(deps.len(), 1);
    assert_eq!(deps[0].0, "nooga/let-go");
    assert_eq!(
        deps[0].1.coord,
        Coord::Git {
            url: "https://github.com/nooga/let-go".to_string(),
            reff: "46ce159c".to_string(),
        }
    );
    assert_eq!(deps[0].1.deps_root, None);
}

#[test]
fn parses_git_tag_coord_encoding_slashes() {
    let edn = r#"{:deps {a/b {:git/url "https://x/a/b" :git/tag "rel/v1.0"}}}"#;
    let deps = parse_deps(edn);
    assert_eq!(
        deps[0].1.coord,
        Coord::Git {
            url: "https://x/a/b".to_string(),
            reff: "rel_v1.0".to_string(),
        }
    );
}

#[test]
fn parses_local_root_coord() {
    let edn = r#"{:deps {my/lib {:local/root "../my-lib"}}}"#;
    let deps = parse_deps(edn);
    assert_eq!(
        deps[0].1.coord,
        Coord::Local {
            root: "../my-lib".to_string(),
        }
    );
}

#[test]
fn parses_deps_root() {
    let edn = r#"{:deps {org.clojure/tools.cli
                             {:git/url "https://github.com/clojure/tools.cli"
                              :git/sha "abc" :deps/root "src/main/clojure"}}}"#;
    let deps = parse_deps(edn);
    assert_eq!(deps[0].0, "org.clojure/tools.cli");
    assert_eq!(deps[0].1.deps_root.as_deref(), Some("src/main/clojure"));
}

#[test]
fn empty_or_absent_deps_yields_empty() {
    assert!(parse_deps("{:paths [\"src\"]}").is_empty());
    assert!(parse_deps("{:deps {}}").is_empty());
    assert!(parse_deps("not edn (((").is_empty());
}

#[test]
fn lg_version_reads_top_level_pinned_version() {
    assert_eq!(
        lg_version(r#"{:lg-version "1.10.0" :paths ["src"]}"#),
        Some("1.10.0".to_string())
    );
}

#[test]
fn lg_version_absent_or_non_string_is_none() {
    // Absent entirely.
    assert_eq!(lg_version(r#"{:paths ["src"]}"#), None);
    // Present but blank.
    assert_eq!(lg_version(r#"{:lg-version ""}"#), None);
    // Present but not a string (a number).
    assert_eq!(lg_version("{:lg-version 1.10}"), None);
    // Malformed EDN.
    assert_eq!(lg_version("not edn ((("), None);
}

fn file(path: &str, text: &str) -> SourceFile {
    SourceFile {
        path: path.to_string(),
        text: text.to_string(),
    }
}

const CORE_DIR: &str = "/lg/pkg/rt/core";

fn core_files() -> Vec<SourceFile> {
    vec![file("/lg/pkg/rt/core/core.lg", "(ns core)\n(defn map [f c] c)\n")]
}

#[test]
fn index_core_dir_aliases_clojure_namespaces_and_sets_marker() {
    let mut files = core_files();
    files.push(file(
        "/lg/pkg/rt/core/string.lg",
        "(ns string)\n(defn join [sep c] sep)\n",
    ));

    let mut index = Index::new();
    assert!(!index.letgo_core(), "marker starts unset");
    assert_eq!(index_core_dir(CORE_DIR, &files, &None, &mut index), 2);

    // The let-go ns and its clojure.* alias resolve to the same .lg source.
    let lg = index
        .lookup_in_ns("string", "join")
        .expect("string/join indexed");
    let cl = index
        .lookup_in_ns("clojure.string", "join")
        .expect("clojure.string/join alias registered");
    assert_eq!(lg.file, cl.file);
    assert!(lg.file.ends_with("string.lg"), "got {}", lg.file);

    // clojure.core is registered as a copy of the let-go `core` ns.
    assert!(index.ns_meta("clojure.core").is_some());
    assert!(index.lookup_in_ns("clojure.core", "map").is_some());

    // The marker flips on so the bare-word resolver prefers let-go core.
    assert!(index.letgo_core());
}

#[test]
fn index_core_dir_does_not_alias_unrelated_namespaces() {
    let mut index = Index::new();
    // A pre-existing project namespace that happens to share a bare let-go
    // stdlib name (`data`), living outside the core dir.
    let (meta, symbols, occ) =
        extract_full("(ns data)\n(defn parse [s] s)\n", "/proj/src/data.lg").unwrap();
    index.insert_file(meta, symbols, occ);

    index_core_dir(CORE_DIR, &core_files(), &None, &mut index);

    // clojure.core is aliased from the real let-go core source...
    assert!(index.ns_meta("clojure.core").is_some());
    // ...but the unrelated project `data` ns must NOT become `clojure.data`.
    assert!(
        index.ns_meta("clojure.data").is_none(),
        "unrelated project ns wrongly aliased as clojure.data"
    );
    // The project's own `data` ns stays intact.
    assert!(index.lookup_in_ns("data", "parse").is_some());
}

#[test]
fn index_core_dir_harvests_native_names_from_lang_go() {
    // A minimal `lang.go` covering every shape we must handle: a native fn, a
    // plain var, the assignment form, a commented def (skipped), and a computed
    // def with no string literal (skipped).
    let lang_go = "func registerCore(ns *vm.Namespace) {\n\
        \tns.Def(\"count\", count)\n\
        \tns.Def(\"*command-line-args*\", vm.NIL)\n\
        \tCurrentNS = ns.Def(\"*ns*\", ns)\n\
        \t// ns.Def(\"and\", and)\n\
        \tns.Def(name, vm.Symbol(name))\n\
        }\n";
    let mut index = Index::new();
    index_core_dir(CORE_DIR, &core_files(), &Some(lang_go.to_string()), &mut index);

    assert_eq!(index.letgo_native_contains("count"), Some(true));
    assert_eq!(
        index.letgo_native_contains("*command-line-args*"),
        Some(true),
        "the new var is harvested from lang.go"
    );
    assert_eq!(index.letgo_native_contains("*ns*"), Some(true));
    // Commented-out and computed (non-literal) defs are not harvested.
    assert_eq!(index.letgo_native_contains("and"), Some(false));
    assert_eq!(index.letgo_native_contains("name"), Some(false));
}

#[test]
fn index_core_dir_without_lang_go_falls_back_to_static() {
    // No `lang.go` sibling → nothing harvested → callers use the static
    // list (signalled by `None`).
    let mut index = Index::new();
    index_core_dir(CORE_DIR, &core_files(), &None, &mut index);
    assert_eq!(index.letgo_native_contains("count"), None);
    assert!(index.letgo_native_names().is_none());
}

#[test]
fn index_letgo_core_is_a_no_op_for_clojure_projects() {
    // Isolation: a Clojure project (deps.edn, no lgx.edn) must be entirely
    // untouched by the let-go core machinery — no marker, no clojure.*
    // alias injection, so resolve_symbol keeps using the static core list.
    let home = Some("/home/u/.lgx".to_string());
    let mut index = Index::new();
    assert_eq!(
        index_letgo_core(ProjectKind::Clojure, &None, &home, &None, &mut index),
        0
    );
    assert!(
        !index.letgo_core(),
        "a Clojure project must never set the let-go-core marker"
    );
    assert!(index.ns_meta("clojure.core").is_none());
    assert!(index.ns_meta("clojure.string").is_none());
}

#[test]
fn index_letgo_core_is_a_no_op_when_unpinned() {
    // A let-go project that does not pin :lg-version gets no core indexing
    // (lgx only fetches the source when pinned), so the marker stays unset.
    let home = Some("/home/u/.lgx".to_string());
    let edn = Some(r#"{:paths ["src"]}"#.to_string());
    let found = Some(CoreSource {
        files: core_files(),
        lang_go: None,
    });
    let mut index = Index::new();
    assert_eq!(
        index_letgo_core(ProjectKind::LetGo, &edn, &home, &found, &mut index),
        0
    );
    assert!(!index.letgo_core());
}

#[test]
fn a_pinned_version_takes_in_its_core() {
    let home = Some("/home/u/.lgx".to_string());
    let edn = Some(r#"{:lg-version "1.10.0"}"#.to_string());
    let dir = core_source_dir(ProjectKind::LetGo, &edn, &home).expect("a directory");
    let found = Some(CoreSource {
        files: vec![file(&format!("{dir}/core.lg"), "(ns core)\n(defn map [f c] c)\n")],
        lang_go: None,
    });
    let mut index = Index::new();
    assert_eq!(
        index_letgo_core(ProjectKind::LetGo, &edn, &home, &found, &mut index),
        1
    );
    assert!(index.letgo_core());
    assert!(index.lookup_in_ns("clojure.core", "map").is_some());
}

/// A disk: its directories, and the manifests under the directories that hold them.
struct Disk {
    dirs: Vec<&'static str>,
    manifests: Vec<(&'static str, &'static str)>,
}

const HOME: &str = "/lgxhome";
const PROJECT: &str = "/t/proj";

/// Resolves the project's libraries, looking at the disk wherever it is asked for.
fn resolved(disk: &Disk) -> Vec<String> {
    let mut world = World {
        looked: vec![],
        dirs: vec![],
        manifests: Dict::new(),
    };
    for (dir, edn) in &disk.manifests {
        if *dir == PROJECT {
            world.manifests.insert(PROJECT.to_string(), edn.to_string());
        }
    }
    let mut rounds = 0;
    loop {
        let answer = resolve_with_home(PROJECT, &Some(HOME.to_string()), &world);
        if answer.unknown.is_empty() {
            return answer.dirs;
        }
        for path in answer.unknown {
            let lexical = path_of(&normalize_lexically(&path), normalize_lexically(&path).len());
            if disk.dirs.contains(&lexical.as_str()) {
                world.dirs.push(path.clone());
            }
            if let Some((_, edn)) = disk.manifests.iter().find(|(dir, _)| *dir == lexical) {
                world.manifests.insert(path.clone(), edn.to_string());
            }
            world.looked.push(path);
        }
        rounds += 1;
        assert!(rounds < 20, "the disk is finite");
    }
}

#[test]
fn resolves_git_and_local_source_dirs() {
    let dirs = resolved(&Disk {
        dirs: vec![
            PROJECT,
            "/lgxhome/gitlibs/github.com/x/lib/SHA1",
            "/lgxhome/gitlibs/github.com/x/lib/SHA1/src",
            // Local dep sibling of the project.
            "/t/local-dep",
            "/t/local-dep/src",
        ],
        manifests: vec![(
            PROJECT,
            r#"{:paths ["src"]
                :deps {x/lib {:git/url "https://github.com/x/lib" :git/sha "SHA1"}
                       my/loc {:local/root "../local-dep"}}}"#,
        )],
    });
    assert_eq!(dirs.len(), 2, "{:?}", dirs);
    assert!(dirs.contains(&"/lgxhome/gitlibs/github.com/x/lib/SHA1/src".to_string()));
    assert!(dirs.contains(&"/t/proj/../local-dep/src".to_string()));
}

#[test]
fn resolves_transitive_deps() {
    let dirs = resolved(&Disk {
        dirs: vec![
            PROJECT,
            "/lgxhome/gitlibs/h/a/ASHA",
            "/lgxhome/gitlibs/h/a/ASHA/src",
            "/lgxhome/gitlibs/h/b/BSHA",
            "/lgxhome/gitlibs/h/b/BSHA/src",
        ],
        manifests: vec![
            // Direct dep `a`, which itself depends on `b`.
            (PROJECT, r#"{:deps {h/a {:git/url "https://h/a" :git/sha "ASHA"}}}"#),
            (
                "/lgxhome/gitlibs/h/a/ASHA",
                r#"{:deps {h/b {:git/url "https://h/b" :git/sha "BSHA"}}}"#,
            ),
        ],
    });
    assert_eq!(
        dirs,
        vec!["/lgxhome/gitlibs/h/a/ASHA/src", "/lgxhome/gitlibs/h/b/BSHA/src"]
    );
}

#[test]
fn first_wins_on_conflict() {
    // Project pins lib at ASHA; transitive dep pins same lib at BSHA.
    let dirs = resolved(&Disk {
        dirs: vec![
            PROJECT,
            "/lgxhome/gitlibs/h/lib/ASHA",
            "/lgxhome/gitlibs/h/lib/ASHA/src",
            "/lgxhome/gitlibs/h/lib/BSHA",
            "/lgxhome/gitlibs/h/lib/BSHA/src",
            "/lgxhome/gitlibs/h/mid/MSHA",
            "/lgxhome/gitlibs/h/mid/MSHA/src",
        ],
        manifests: vec![
            (
                PROJECT,
                r#"{:deps {h/lib {:git/url "https://h/lib" :git/sha "ASHA"}
                      h/mid {:git/url "https://h/mid" :git/sha "MSHA"}}}"#,
            ),
            (
                "/lgxhome/gitlibs/h/mid/MSHA",
                r#"{:deps {h/lib {:git/url "https://h/lib" :git/sha "BSHA"}}}"#,
            ),
        ],
    });
    assert!(dirs.contains(&"/lgxhome/gitlibs/h/lib/ASHA/src".to_string()));
    assert!(!dirs.contains(&"/lgxhome/gitlibs/h/lib/BSHA/src".to_string()));
}

#[test]
fn deps_root_defaults_to_repo_root_without_src() {
    // No src/ dir: file sits at the repo root.
    let dirs = resolved(&Disk {
        dirs: vec![PROJECT, "/lgxhome/gitlibs/h/flat/SHA"],
        manifests: vec![(
            PROJECT,
            r#"{:deps {h/flat {:git/url "https://h/flat" :git/sha "SHA"}}}"#,
        )],
    });
    assert_eq!(dirs, vec!["/lgxhome/gitlibs/h/flat/SHA"]);
}

#[test]
fn explicit_deps_root_is_used() {
    let dirs = resolved(&Disk {
        dirs: vec![
            PROJECT,
            "/lgxhome/gitlibs/h/sub/SHA",
            "/lgxhome/gitlibs/h/sub/SHA/src",
            "/lgxhome/gitlibs/h/sub/SHA/src/main/clojure",
        ],
        manifests: vec![(
            PROJECT,
            r#"{:deps {h/sub {:git/url "https://h/sub" :git/sha "SHA"
                              :deps/root "src/main/clojure"}}}"#,
        )],
    });
    assert_eq!(dirs, vec!["/lgxhome/gitlibs/h/sub/SHA/src/main/clojure"]);
}

#[test]
fn a_checkout_lies_under_its_address() {
    assert_eq!(
        gitlib_dir(HOME, "https://github.com/x/lib.git", "SHA"),
        "/lgxhome/gitlibs/github.com/x/lib/SHA"
    );
}

#[test]
fn the_home_of_checkouts_can_be_set() {
    let user = Some("/home/u".to_string());
    assert_eq!(lgx_home(&Some("/lgx".to_string()), &user).as_deref(), Some("/lgx"));
    assert_eq!(lgx_home(&None, &user).as_deref(), Some("/home/u/.lgx"));
    assert_eq!(lgx_home(&None, &None), None);
}

#[test]
fn go_strings_are_read_up_to_their_quote() {
    assert_eq!(read_go_string("a\\\"b\" c"), Some("a\"b".to_string()));
    assert_eq!(read_go_string("open"), None);
    assert_eq!(read_go_string("open\\"), None);
    assert_eq!(parse_native_defs("ns.Def(\"a\", b)\nx // ns.Def(\"c\", d)"), vec!["a"]);
}

#[test]
fn a_checkout_lies_under_the_address_without_its_scheme() {
    let at = |url: &str| gitlib_dir("/h", url, "S1");
    assert_eq!(at("ssh://git.example/x/lib.git"), "/h/gitlibs/git.example/x/lib/S1");
    assert_eq!(at("git+ssh://git.example/x/lib"), "/h/gitlibs/git.example/x/lib/S1");
    assert_eq!(at("http://git.example/x/lib"), "/h/gitlibs/git.example/x/lib/S1");
    assert_eq!(at("git@git.example:x/lib.git"), "/h/gitlibs/git@git.example:x/lib/S1");
    assert_eq!(at("git.example/x://y"), "/h/gitlibs/git.example/x://y/S1");
}

#[test]
fn an_escaped_body_is_read_back() {
    let body = "a\\b\"c";
    let source: String = body
        .chars()
        .flat_map(|c| {
            if c == '\\' || c == '"' {
                vec!['\\', c]
            } else {
                vec![c]
            }
        })
        .collect();
    assert_eq!(read_go_string(&format!("{source}\" rest\"")), Some(body.to_string()));
    assert_eq!(read_go_string(&source), None);
}

#[test]
fn every_native_definition_of_a_line_counts() {
    let defs = |line: &str| parse_native_defs(line);
    assert_eq!(defs("ns.Def(\"a\", x); ns.Def(\"b\", y) // ns.Def(\"c\", z)"), vec!["a", "b"]);
    assert_eq!(defs("log(\"http://x\"); ns.Def(\"a\", x)"), vec!["a"]);
    assert_eq!(defs("is('\"'); ns.Def(\"a\", x)"), vec!["a"]);
    assert!(defs("// ns.Def(\"a\", x)").is_empty());
    assert!(defs("ns.Def(name, x)").is_empty());
    assert!(defs("ns.Def(\"open, x)").is_empty());
}
