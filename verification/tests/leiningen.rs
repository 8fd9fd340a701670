use clj_pulse::leiningen::{
    can_read_deps, can_read_paths, discard_ranges, form_end, jar_path, m2_repo, parse_deps, prepare, resolve, resolve_with_repo,
    source_paths, wanted, Coord,
};

/// Modeled on `../tickets/project.clj`: metadata (`^{…}`, `^:replace`),
/// a regex literal (`#"user"`), profile-level `:dependencies`, a
/// `:dependencies` token hiding in a string and in a comment.
const SAMPLE: &str = r#"(defproject tickets "0.1.0-SNAPSHOT"
  :description "mentions :dependencies [\"nope\"] inside a string"
  :dependencies [[org.clojure/clojure "1.10.3"]
                 [org.clojure/clojurescript "1.10.879" :scope "provided"]
                 [ring "1.7.1"]
                 [no-version-dep]]
  :source-paths ["src/clj" "src/cljs"]
  :test-paths ["test/clj"]
  :clean-targets ^{:protect false} [:target-path "dev-target"]
  :local-repo "m2"
  :profiles {:dev {:dependencies [[etaoin "0.4.6"]]
                   :source-paths ["dev"]}
             :uberjar {:source-paths ^:replace ["src/clj"]}
             :coverage {:cloverage {:ns-exclude-regex [#"user"]}}})
;; :dependencies [[commented-out "9.9.9"]]
"#;

fn coord(deps: &[Coord], artifact: &str) -> Option<Coord> {
    deps.iter().find(|c| c.artifact == artifact).cloned()
}

#[test]
fn parses_top_level_and_profile_deps_through_reader_macros() {
    let deps = parse_deps(SAMPLE);
    // Survives ^{…}, ^:replace and #"user" elsewhere in the file.
    assert!(!deps.is_empty(), "expected deps, got none");

    let clj = coord(&deps, "clojure").expect("clojure dep");
    assert_eq!(clj.group, "org.clojure");
    assert_eq!(clj.version, "1.10.3");

    // No namespace => group == artifact.
    let ring = coord(&deps, "ring").expect("ring dep");
    assert_eq!(ring.group, "ring");
    assert_eq!(ring.version, "1.7.1");

    // Profile (:dev) deps are unioned in.
    assert!(coord(&deps, "etaoin").is_some(), "expected :dev etaoin dep");
}

#[test]
fn ignores_extra_options_and_bad_entries() {
    let deps = parse_deps(SAMPLE);
    // Trailing :scope option ignored, version still read.
    let cljs = coord(&deps, "clojurescript").expect("clojurescript dep");
    assert_eq!(cljs.version, "1.10.879");
    // Entry without a string version is skipped.
    assert!(coord(&deps, "no-version-dep").is_none());
}

#[test]
fn masking_skips_strings_and_comments() {
    let deps = parse_deps(SAMPLE);
    // The :dependencies inside :description's string must not be parsed.
    assert!(coord(&deps, "nope").is_none(), "picked up string content");
    // The commented-out :dependencies line must not be parsed.
    assert!(
        coord(&deps, "commented-out").is_none(),
        "picked up commented content"
    );
}

#[test]
fn source_paths_union_includes_profiles() {
    let mut paths = source_paths(SAMPLE);
    paths.sort();
    let mut want = vec!["dev", "src/clj", "src/cljs", "test/clj"];
    want.sort();
    assert_eq!(paths, want);
}

#[test]
fn skips_reader_discarded_forms() {
    // `#_` discards the next form. Cases: a discarded entry inside the
    // vector (also handled by edn), a discarded vector right after the key,
    // and a discarded key + vector.
    let edn = r#"(defproject x "1"
          :dependencies [[active "1.0"] #_[disabled "9.9"]]
          :source-paths #_["discarded"] ["src"]
          #_:test-paths #_["nope"])"#;
    let deps = parse_deps(edn);
    assert!(coord(&deps, "active").is_some(), "active dep dropped");
    assert!(coord(&deps, "disabled").is_none(), "discarded dep parsed");

    let paths = source_paths(edn);
    // The real ["src"] wins; the discarded ["discarded"] and the
    // discarded :test-paths key are ignored.
    assert_eq!(paths, vec!["src".to_string()]);
}

#[test]
fn empty_or_trivial_input_yields_nothing() {
    assert!(parse_deps("(defproject x \"1\")").is_empty());
    assert!(source_paths("(defproject x \"1\")").is_empty());
    assert!(parse_deps("not clojure (((").is_empty());
}

#[test]
fn maps_coord_to_maven_jar_path() {
    let repo = "/repo";
    let c = Coord {
        group: "org.clojure".to_string(),
        artifact: "clojure".to_string(),
        version: "1.11.1".to_string(),
    };
    assert_eq!(
        jar_path(repo, &c),
        "/repo/org/clojure/clojure/1.11.1/clojure-1.11.1.jar"
    );
}




#[test]
fn m2_repo_honors_relative_and_absolute_local_repo() {
    let root = "/proj";
    assert_eq!(
        m2_repo(root, r#"(defproject a "1" :local-repo "m2")"#, &None),
        Some("/proj/m2".to_string())
    );
    assert_eq!(
        m2_repo(root, r#"(defproject a "1" :local-repo "/abs/repo")"#, &None),
        Some("/abs/repo".to_string())
    );
}

#[test]
fn resolve_with_repo_returns_existing_jars_only() {
    let clojure = "/repo/org/clojure/clojure/1.11.1/clojure-1.11.1.jar".to_string();
    let hiccup = "/repo/hiccup/hiccup/1.0.5/hiccup-1.0.5.jar".to_string();
    // `ring` is declared but never laid down on disk, so it must be omitted.
    let edn = r#"(defproject app "0.1.0"
                 :dependencies [[org.clojure/clojure "1.11.1"]
                                [hiccup "1.0.5"]
                                [ring "1.7.1"]])"#;

    let jars = resolve_with_repo(edn, "/repo", &vec![clojure.clone(), hiccup.clone()]);
    assert!(jars.contains(&clojure));
    assert!(jars.contains(&hiccup));
    assert_eq!(jars.len(), 2, "absent ring jar leaked in: {:?}", jars);
}

#[test]
fn the_users_repository_is_the_last_resort() {
    let home = Some("/home/u".to_string());
    let edn = r#"(defproject a "1" :dependencies [[hiccup "1.0.5"]])"#;
    assert_eq!(m2_repo("/p", edn, &home).as_deref(), Some("/home/u/.m2/repository"));
    let jar = "/home/u/.m2/repository/hiccup/hiccup/1.0.5/hiccup-1.0.5.jar".to_string();
    assert_eq!(wanted("/p", edn, &home), vec![jar.clone()]);
    assert_eq!(resolve("/p", &Some(edn.to_string()), &home, &vec![jar.clone()]), vec![jar.clone()]);
    assert!(resolve("/p", &Some(edn.to_string()), &None, &vec![jar.clone()]).is_empty());
    assert!(resolve("/p", &None, &home, &vec![jar]).is_empty());
}

#[test]
fn only_code_is_left_to_find_keywords_in() {
    let (found, kept) = prepare("(a \"b;\" \\( ; c\n #_[d] e)");
    let found: String = found.into_iter().collect();
    let kept: String = kept.into_iter().collect();
    assert_eq!(found, "(a \"  \"       \n       e)");
    assert_eq!(kept, "(a \"b;\" \\(    \n       e)");
}

#[test]
fn forms_end_where_they_close() {
    let chars: Vec<char> = " (a [b]) c \"d\" e]".chars().collect();
    assert_eq!(form_end(&chars, 0), 8);
    assert_eq!(form_end(&chars, 8), 10);
    assert_eq!(form_end(&chars, 10), 14);
    assert_eq!(form_end(&chars, 14), 16);
}

#[test]
fn what_stands_before_a_form_belongs_to_it() {
    let end = |s: &str| form_end(&s.chars().collect::<Vec<char>>(), 0);
    assert_eq!(end("#{a b} c"), 6);
    assert_eq!(end("#\"   \" c"), 6);
    assert_eq!(end("'(a b) c"), 6);
    assert_eq!(end("#inst \"    \" c"), 12);
    assert_eq!(end("^:m [a b] c"), 9);
    assert_eq!(end("^{:a 1} b c"), 9);
    assert_eq!(end("#?(:clj a) c"), 10);
    assert_eq!(end("a[b] c"), 1);
    assert_eq!(end("#"), 1);
    assert_eq!(end("^"), 1);
    let edn = "(defproject a \"1\" :dependencies [#_#{x y} [z \"1\"] #_ ^:m [w \"2\"]])";
    assert_eq!(parse_deps(edn).len(), 1);
}

#[test]
fn a_dependency_that_is_named_twice_is_declared_once() {
    let edn = r#"(defproject a "1" :dependencies [[x "1"] [x "1"]]
                 :profiles {:dev {:dependencies [[x "1"] [x "2"]]}})"#;
    assert_eq!(parse_deps(edn).len(), 2);
}

#[test]
fn a_text_that_splits_a_character_cannot_be_read() {
    assert!(can_read_deps("(defproject a :dependencies [\\u0041])"));
    assert!(!can_read_deps("(defproject a :dependencies [\\ua\u{e9}\u{e9}])"));
}

#[test]
fn stacked_discards_discard_as_many_forms() {
    let chars = |s: &str| -> Vec<char> { s.chars().collect() };
    assert_eq!(discard_ranges(&chars("#_ #_ 1 2")), vec![(0, 9)]);
    assert_eq!(discard_ranges(&chars("#_ 1 2")), vec![(0, 4)]);
    assert_eq!(discard_ranges(&chars("#_#_(a b) [c] d")), vec![(0, 13)]);
    assert_eq!(discard_ranges(&chars("#_ #_ 1")), vec![(0, 7)]);
    assert_eq!(discard_ranges(&chars("#_ 1 #_ 2")), vec![(0, 4), (5, 9)]);
    assert!(discard_ranges(&chars("(a b)")).is_empty());
    let edn = "(defproject a \"1\" #_ #_ :dependencies [[x \"1\"]])";
    assert!(parse_deps(edn).is_empty());
}

#[test]
fn only_what_is_parsed_has_to_be_readable() {
    let edn = "(defproject a \\ua\u{e9}\u{e9} :dependencies [[x \"1\"]] 1e-9223372036854775808M)";
    assert!(can_read_deps(edn) && can_read_paths(edn));
    assert_eq!(parse_deps(edn).len(), 1);
    assert!(source_paths(edn).is_empty());
    let deps = "(defproject a :dependencies [[x \"1\" 1e-9223372036854775808M]] :source-paths [\"s\"])";
    assert!(!can_read_deps(deps));
    assert!(can_read_paths(deps));
    assert_eq!(source_paths(deps), vec!["s".to_string()]);
    assert!(!can_read_paths("(defproject a :test-paths [\\ua\u{e9}\u{e9}])"));
}
