use clj_pulse::config::{
    find_project_root, is_clojure_source, parse_paths_from_deps_edn, project_kind, source_paths,
    Manifests, ProjectKind,
};

#[test]
fn test_parse_top_level_paths() {
    let edn = r#"{:paths ["src" "resources"]
                      :deps {org.clojure/clojure {:mvn/version "1.11.1"}}}"#;
    assert_eq!(
        parse_paths_from_deps_edn(edn),
        Some(vec!["src".to_string(), "resources".to_string()])
    );
}

#[test]
fn test_alias_paths_are_ignored() {
    // tools.build convention: :paths inside the :build alias must not be
    // mistaken for the project's source paths.
    let edn = r#"{:deps {org.clojure/clojure {:mvn/version "1.11.1"}}
                      :aliases {:build {:paths ["build"]
                                        :deps {io.github.clojure/tools.build {:mvn/version "0.9.6"}}}}}"#;
    assert_eq!(parse_paths_from_deps_edn(edn), None);
}

#[test]
fn test_top_level_paths_after_aliases() {
    let edn = r#"{:aliases {:build {:paths ["build"]}}
                      :paths ["src" "lib"]}"#;
    assert_eq!(
        parse_paths_from_deps_edn(edn),
        Some(vec!["src".to_string(), "lib".to_string()])
    );
}

#[test]
fn test_paths_in_comment_ignored() {
    let edn = ";; :paths [\"nope\"]\n{:paths [\"src\"]}";
    assert_eq!(
        parse_paths_from_deps_edn(edn),
        Some(vec!["src".to_string()])
    );
}

#[test]
fn test_paths_in_string_ignored() {
    let edn = r#"{:description ":paths [\"nope\"]"
                      :paths ["src"]}"#;
    assert_eq!(
        parse_paths_from_deps_edn(edn),
        Some(vec!["src".to_string()])
    );
}

#[test]
fn test_no_paths_returns_none() {
    let edn = r#"{:deps {org.clojure/clojure {:mvn/version "1.11.1"}}}"#;
    assert_eq!(parse_paths_from_deps_edn(edn), None);
}

#[test]
fn test_extra_paths_not_matched() {
    // Top-level :extra-paths is not a real deps.edn key; only :paths and
    // alias :extra-paths count.
    let edn = r#"{:extra-paths ["dev"]}"#;
    assert_eq!(parse_paths_from_deps_edn(edn), None);
}

#[test]
fn test_alias_extra_paths_included() {
    let edn = r#"{:paths ["src"]
                      :aliases {:test {:extra-paths ["test"]}}}"#;
    assert_eq!(
        parse_paths_from_deps_edn(edn),
        Some(vec!["src".to_string(), "test".to_string()])
    );
}

#[test]
fn test_multiple_alias_extra_paths_unioned() {
    let edn = r#"{:paths ["src"]
                      :aliases {:test {:extra-paths ["test"]}
                                :dev {:extra-paths ["dev" "env/dev"]}}}"#;
    let paths = parse_paths_from_deps_edn(edn).unwrap();
    for p in ["src", "test", "dev", "env/dev"] {
        assert!(
            paths.contains(&p.to_string()),
            "missing {} in {:?}",
            p,
            paths
        );
    }
}


#[test]
fn test_is_clojure_source() {
    for ext in ["clj", "cljs", "cljc", "lg"] {
        let p = format!("foo.{}", ext);
        assert!(is_clojure_source(&p), "{} should be source", p);
    }
    assert!(!is_clojure_source("deps.edn"));
    assert!(!is_clojure_source("lgx.edn"));
    assert!(!is_clojure_source("foo.edn"));
    assert!(!is_clojure_source("Makefile"));
    // project.clj is a Leiningen build manifest, not a namespace.
    assert!(!is_clojure_source("project.clj"));
    assert!(!is_clojure_source("/a/b/project.clj"));
    // build.clj (tools.build) is real source and must stay linted.
    assert!(is_clojure_source("build.clj"));
}

fn manifests(lgx: Option<&str>, deps: Option<&str>, project: Option<&str>) -> Manifests {
    Manifests {
        lgx_edn: lgx.map(str::to_string),
        deps_edn: deps.map(str::to_string),
        project_clj: project.map(str::to_string),
    }
}

#[test]
fn test_source_paths_always_includes_src_and_test() {
    let m = manifests(
        None,
        Some(r#"{:paths ["src"] :deps {org.clojure/clojure {:mvn/version "1.11.1"}}}"#),
        None,
    );
    let paths = source_paths("/root", ProjectKind::Clojure, &m);
    assert!(paths.contains(&"/root/src".to_string()), "missing src: {:?}", paths);
    assert!(paths.contains(&"/root/test".to_string()), "missing test: {:?}", paths);
    // No duplicate `src`.
    assert_eq!(
        paths.iter().filter(|p| *p == "/root/src").count(),
        1,
        "duplicate src: {:?}",
        paths
    );
}

#[test]
fn test_project_kind_detects_letgo_and_clojure() {
    assert_eq!(project_kind(true), ProjectKind::LetGo);
    assert_eq!(project_kind(false), ProjectKind::Clojure);
}

#[test]
fn test_find_project_root_stops_at_lgx_edn() {
    let holding = vec!["/ws/app".to_string()];
    assert_eq!(
        find_project_root("/ws/app/src/app", false, &holding).as_deref(),
        Some("/ws/app")
    );
}

#[test]
fn a_file_starts_the_search_in_its_directory() {
    let holding = vec!["/ws".to_string(), "/ws/app/a.clj".to_string()];
    assert_eq!(find_project_root("/ws/app/a.clj", true, &holding).as_deref(), Some("/ws"));
    assert_eq!(find_project_root("/other/x", false, &holding), None);
    assert_eq!(find_project_root("/", true, &holding), None);
    assert_eq!(find_project_root("a/b", false, &vec!["".to_string()]).as_deref(), Some(""));
}

#[test]
fn test_source_paths_from_lgx_edn() {
    let m = manifests(Some(r#"{:paths ["src" "test"] :deps {}}"#), None, None);
    assert_eq!(
        source_paths("/root", ProjectKind::LetGo, &m),
        vec!["/root/src", "/root/test"]
    );
}

#[test]
fn test_source_paths_from_project_clj() {
    let m = manifests(
        None,
        None,
        Some(r#"(defproject app "0.1.0" :source-paths ["src/main/clojure"])"#),
    );
    let paths = source_paths("/root", ProjectKind::Clojure, &m);
    assert!(
        paths.contains(&"/root/src/main/clojure".to_string()),
        "missing project.clj source-path: {:?}",
        paths
    );
    // src/test defaults still unioned in.
    assert!(paths.contains(&"/root/src".to_string()));
    assert!(paths.contains(&"/root/test".to_string()));
}

#[test]
fn test_source_paths_standard_project_clj_defaults() {
    let m = manifests(None, None, Some(r#"(defproject app "0.1.0")"#));
    let paths = source_paths("/root", ProjectKind::Clojure, &m);
    assert_eq!(paths, vec!["/root/src", "/root/test"]);
}

#[test]
fn test_deps_edn_paths_win_over_project_clj() {
    // A project carrying both files: deps.edn :paths is authoritative; the
    // project.clj :source-paths must be ignored.
    let m = manifests(
        None,
        Some(r#"{:paths ["xyz"]}"#),
        Some(r#"(defproject app "0.1.0" :source-paths ["abc"])"#),
    );
    let paths = source_paths("/root", ProjectKind::Clojure, &m);
    assert!(paths.contains(&"/root/xyz".to_string()), "missing deps.edn path");
    assert!(
        !paths.contains(&"/root/abc".to_string()),
        "project.clj path leaked despite deps.edn: {:?}",
        paths
    );
}

#[test]
fn test_source_paths_letgo_defaults_without_paths() {
    let m = manifests(Some("{:deps {}}"), None, None);
    assert_eq!(
        source_paths("/root", ProjectKind::LetGo, &m),
        vec!["/root/src", "/root/test"]
    );
}
