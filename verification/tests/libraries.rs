use clj_pulse::leiningen::{jar_path, Coord};
use clj_pulse::libraries::{
    classify, from_entries, owned_by_project, parse_lgx_gitlib, parse_maven_jar, short_ref, Library,
    LibraryKind,
};

fn strings(list: &[&str]) -> Vec<String> {
    list.iter().map(|s| s.to_string()).collect()
}

/// The libraries among `entries`, where `manifests` are the directories that
/// hold a manifest.
fn list(own: &[&str], projects: &[&str], manifests: &[&str], entries: &[&str]) -> Vec<Library> {
    from_entries(
        &strings(own),
        &strings(projects),
        &strings(manifests),
        &strings(entries),
    )
}

fn lib(name: &str, version: Option<&str>, path: &str, kind: LibraryKind) -> Library {
    Library {
        name: name.to_string(),
        version: version.map(|v| v.to_string()),
        path: path.to_string(),
        kind,
    }
}

// A realistic 40-char git sha; its short form is the first 7 chars.
const SHA: &str = "a1b2c3d4e5f60718293a4b5c6d7e8f9012345678";
const SHORT: &str = "a1b2c3d";


#[test]
fn own_alias_dirs_under_the_root_project_are_excluded() {
    // Alias :extra-paths (dev, src/cljc) leak into resolved classpaths;
    // their nearest manifest ancestor is the root project → excluded.
    let out = list(&[], &["/ws"], &["/ws"], &["/ws/dev", "/ws/src/cljc"]);
    assert!(out.is_empty(), "own dirs must be excluded: {out:?}");
}

#[test]
fn detected_subproject_dirs_are_excluded() {
    // A subproject's source dir on the root's classpath: nearest manifest
    // ancestor is libs/x, a known project → excluded (it has its own node).
    let out = list(
        &[],
        &["/ws", "/ws/libs/x"],
        &["/ws", "/ws/libs/x"],
        &["/ws/libs/x/src"],
    );
    assert!(out.is_empty(), "subproject dirs must be excluded: {out:?}");
}

#[test]
fn vendored_non_project_checkout_is_kept() {
    // A gitignored in-workspace :local/root checkout: vendor/y has a
    // manifest but is NOT a resolved project → its dir stays listed (the
    // panel is the only way to browse it).
    let out = list(&[], &["/ws"], &["/ws", "/ws/vendor/y"], &["/ws/vendor/y/src"]);
    assert_eq!(out.len(), 1, "vendored checkout must be kept: {out:?}");
    assert_eq!(out[0].path, "/ws/vendor/y/src");
}

#[test]
fn parent_relative_sibling_project_entry_is_excluded() {
    // lgx keeps `:local/root "../common"` verbatim: the entry arrives as
    // `<ws>/app/../common/src` and must still resolve to the sibling
    // project `common` (a resolved project → excluded).
    let out = list(
        &[],
        &["/ws/app", "/ws/common"],
        &["/ws/app", "/ws/common"],
        &["/ws/app/../common/src"],
    );
    assert!(
        out.is_empty(),
        "parent-relative sibling project entry must be excluded: {out:?}"
    );
}

#[test]
fn jar_inside_a_project_dir_is_kept() {
    // A jar built into target/ is a real dependency artifact; jars are
    // never ownership-filtered.
    let out = list(&[], &["/ws"], &["/ws"], &["/ws/target/lib.jar"]);
    assert_eq!(out.len(), 1, "in-project jars must be kept: {out:?}");
}

#[test]
fn dir_outside_every_project_dir_is_kept() {
    let out = list(&[], &["/ws"], &["/ws"], &["/home/u/.gitlibs/libs/g/a/abc"]);
    assert_eq!(out.len(), 1, "out-of-workspace dirs must be kept: {out:?}");
}

#[test]
fn manifest_less_root_still_owns_its_bare_dirs() {
    // The root project exists even with no manifest at the root; its bare
    // source dirs (no manifest ancestor at all) are still its own.
    let out = list(&[], &["/ws"], &[], &["/ws/src"]);
    assert!(out.is_empty(), "manifest-less root owns its dirs: {out:?}");
}

#[test]
fn maven_jar_parses_group_artifact_version() {
    let p = "/home/u/.m2/repository/babashka/fs/0.5.30/fs-0.5.30.jar";
    let out = list(&[], &[], &[], &[p]);
    assert_eq!(
        out,
        vec![lib("babashka/fs", Some("0.5.30"), p, LibraryKind::Jar)]
    );
}

#[test]
fn maven_jar_collapses_group_equal_artifact() {
    let p = "/home/u/.m2/repository/aero/aero/1.1.6/aero-1.1.6.jar";
    let out = list(&[], &[], &[], &[p]);
    assert_eq!(out, vec![lib("aero", Some("1.1.6"), p, LibraryKind::Jar)]);
}

#[test]
fn maven_jar_joins_multi_segment_group_with_dots() {
    let p = "/home/u/.m2/repository/org/clojure/clojure/1.11.1/clojure-1.11.1.jar";
    let out = list(&[], &[], &[], &[p]);
    assert_eq!(
        out,
        vec![lib(
            "org.clojure/clojure",
            Some("1.11.1"),
            p,
            LibraryKind::Jar
        )]
    );
}

#[test]
fn non_maven_jar_falls_back_to_file_stem() {
    let p = "/opt/vendored/some-lib.jar";
    let out = list(&[], &[], &[], &[p]);
    assert_eq!(out, vec![lib("some-lib", None, p, LibraryKind::Jar)]);
}

#[test]
fn maven_jar_with_artifact_named_repository_does_not_panic() {
    // The artifact dir is literally `repository`; anchoring on the m2 root
    // (not the artifact) must avoid a slice-out-of-order panic.
    let p = "/home/u/.m2/repository/com/acme/repository/1.0.0/repository-1.0.0.jar";
    let out = list(&[], &[], &[], &[p]);
    assert_eq!(
        out,
        vec![lib(
            "com.acme/repository",
            Some("1.0.0"),
            p,
            LibraryKind::Jar
        )]
    );
}

#[test]
fn deps_gitlib_dir_yields_group_artifact_and_short_sha() {
    let p = format!("/home/u/.gitlibs/libs/io.github.foo/bar/{SHA}");
    let out = list(&[], &[], &[], &[&p]);
    assert_eq!(
        out,
        vec![lib("io.github.foo/bar", Some(SHORT), &p, LibraryKind::Dir)]
    );
}

#[test]
fn lgx_gitlib_dir_yields_repo_and_short_ref_ignoring_src_subdir() {
    let p = format!("/home/u/.lgx/gitlibs/github.com/some/cool-lib/{SHA}/src");
    let out = list(&[], &[], &[], &[&p]);
    assert_eq!(
        out,
        vec![lib("cool-lib", Some(SHORT), &p, LibraryKind::Dir)]
    );
}

#[test]
fn unrecognized_dir_yields_basename_no_version() {
    let p = "/home/u/checkouts/my-local-lib";
    let out = list(&[], &[], &[], &[p]);
    assert_eq!(out, vec![lib("my-local-lib", None, p, LibraryKind::Dir)]);
}

#[test]
fn incidental_gitlibs_dir_falls_back_to_basename() {
    // An ordinary local dir that merely contains a `gitlibs` component (no
    // `.lgx` parent, no host-like segment) must not be parsed as a checkout.
    let p = "/repo/vendor/gitlibs/foo/bar";
    let out = list(&[], &[], &[], &[p]);
    assert_eq!(out, vec![lib("bar", None, p, LibraryKind::Dir)]);
}

#[test]
fn lgx_gitlib_under_custom_home_uses_host_like_segment() {
    // A custom `$LGX_HOME` (no `.lgx` parent) is still recognized because
    // the first segment after `gitlibs` is a git host.
    let p = format!("/opt/cache/gitlibs/github.com/some/cool-lib/{SHA}/src");
    let out = list(&[], &[], &[], &[&p]);
    assert_eq!(
        out,
        vec![lib("cool-lib", Some(SHORT), &p, LibraryKind::Dir)]
    );
}

#[test]
fn project_own_source_paths_are_excluded_but_in_workspace_local_dep_is_kept() {
    // The project's own source roots — not an in-workspace `:local/root`
    // dependency, which lives outside them.
    let own_paths = vec![
        "/home/u/project/src",
        "/home/u/project/resources",
    ];
    let entries = vec![
        "/home/u/project/src",
        "/home/u/project/resources",
        "/home/u/project/vendored-lib", // in-workspace local dep
        "/home/u/.m2/repository/aero/aero/1.1.6/aero-1.1.6.jar",
    ];
    let out = list(&own_paths, &[], &[], &entries);
    let names: Vec<&str> = out.iter().map(|l| l.name.as_str()).collect();
    // `src`/`resources` dropped; the local dep under the workspace is kept.
    assert_eq!(names, vec!["aero", "vendored-lib"]);
}

#[test]
fn local_dep_nested_under_a_source_path_is_kept() {
    // `source_paths` always unions in `root/test`; a `:local/root` dep whose
    // classpath entry sits *under* `test/` must not be excluded by prefix.
    let own_paths = vec![
        "/home/u/project/src",
        "/home/u/project/test",
    ];
    let entries = vec![
        "/home/u/project/test", // own test root → excluded
        "/home/u/project/test/fixtures/my-lib/src", // local dep → kept
    ];
    let out = list(&own_paths, &[], &[], &entries);
    assert_eq!(out.len(), 1);
    assert_eq!(out[0].name, "src"); // basename fallback for a bare local dir
}

#[test]
fn duplicate_paths_collapse_to_one_library() {
    let p = "/home/u/.m2/repository/aero/aero/1.1.6/aero-1.1.6.jar";
    let out = list(&[], &[], &[], &[p, p]);
    assert_eq!(out.len(), 1);
}

#[test]
fn sorted_by_name_then_version() {
    let a = "/home/u/.m2/repository/aero/aero/1.1.6/aero-1.1.6.jar";
    let b = "/home/u/.m2/repository/babashka/fs/0.5.30/fs-0.5.30.jar";
    let c1 = "/home/u/.m2/repository/org/clojure/clojure/1.10.0/clojure-1.10.0.jar";
    let c2 = "/home/u/.m2/repository/org/clojure/clojure/1.11.1/clojure-1.11.1.jar";
    let out = list(
        &[],
        &[],
        &[],
        &[
            c2,
            b,
            c1,
            a,
        ],
    );
    let names: Vec<(&str, Option<&str>)> = out
        .iter()
        .map(|l| (l.name.as_str(), l.version.as_deref()))
        .collect();
    assert_eq!(
        names,
        vec![
            ("aero", Some("1.1.6")),
            ("babashka/fs", Some("0.5.30")),
            ("org.clojure/clojure", Some("1.10.0")),
            ("org.clojure/clojure", Some("1.11.1")),
        ]
    );
}

#[test]
fn list_is_ordered_by_name_version_and_path() {
    let out = list(&[], &[], &[], &["/b/lib", "/a/lib", "/a/abc"]);
    let paths: Vec<&str> = out.iter().map(|l| l.path.as_str()).collect();
    assert_eq!(paths, vec!["/a/abc", "/a/lib", "/b/lib"]);
    // An unknown version goes before a known one.
    let known = format!("/x/.gitlibs/libs/lib/lib/{SHA}");
    let out = list(&[], &[], &[], &[&known, "/b/lib"]);
    let versions: Vec<Option<&str>> = out.iter().map(|l| l.version.as_deref()).collect();
    assert_eq!(versions, vec![None, Some(SHORT)]);
}

#[test]
fn paths_that_differ_in_spelling_only_are_one() {
    let out = list(&["/p/src"], &[], &[], &["/p//src", "/l/a", "/l//a/"]);
    assert_eq!(out.len(), 1);
    assert_eq!(out[0].path, "/l/a");
}

#[test]
fn references_are_shortened_only_where_they_are_commits() {
    assert_eq!(short_ref(SHA), SHORT);
    assert_eq!(short_ref("v1.0.0"), "v1.0.0");
    assert_eq!(short_ref("a1b2c3d"), "a1b2c3d");
}

#[test]
fn an_unknown_shape_gives_its_own_name() {
    assert_eq!(classify("/").name, "unknown");
    assert_eq!(classify("/x/repository/1.0/repository-1.0.jar").version, None);
}

#[test]
fn nothing_outside_every_project_is_owned() {
    assert!(!owned_by_project("/elsewhere/src", &strings(&["/ws"]), &strings(&["/elsewhere"])));
    assert!(owned_by_project("/ws/src", &strings(&["/ws"]), &strings(&[])));
}

#[test]
fn only_a_commit_in_full_is_shortened() {
    let long = format!("{SHA}9");
    assert_eq!(short_ref(&long), long);
    let other = format!("{}g", &SHA[..39]);
    assert_eq!(short_ref(&other), other);
    assert_eq!(short_ref(&short_ref(SHA)), SHORT);
}

#[test]
fn a_repository_path_reads_back_its_coordinate() {
    let coord = Coord {
        group: "org.clojure".to_string(),
        artifact: "data.json".to_string(),
        version: "2.4.0".to_string(),
    };
    let jar = jar_path("/home/u/.m2/repository", &coord);
    assert_eq!(
        parse_maven_jar(&jar),
        Some(("org.clojure/data.json".to_string(), Some("2.4.0".to_string())))
    );
    assert_eq!(parse_maven_jar("/x/a.jar"), None);
}

#[test]
fn a_source_directory_is_not_taken_for_the_reference() {
    let dir = format!("/h/.lgx/gitlibs/github.com/x/lib/{SHA}");
    let found = Some(("lib".to_string(), Some(SHORT.to_string())));
    assert_eq!(parse_lgx_gitlib(&dir), found);
    assert_eq!(parse_lgx_gitlib(&format!("{dir}/src")), found);
}

#[test]
fn order_and_repetition_of_entries_do_not_matter() {
    let entries = ["/b/two.jar", "/a/one.jar", "/c/lib"];
    let want = list(&[], &[], &[], &entries);
    assert_eq!(want.len(), 3);
    assert_eq!(list(&[], &[], &[], &["/c/lib", "/a/one.jar", "/b/two.jar"]), want);
    let twice: Vec<&str> = entries.iter().chain(entries.iter()).copied().collect();
    assert_eq!(list(&[], &[], &[], &twice), want);
}
