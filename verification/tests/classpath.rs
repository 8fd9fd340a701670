use clj_pulse::classpath::{
    alias_arg, classpath_line, cp_files_newest_first, discover, parse_entries, read_run,
    resolve_entries, resolve_with, CacheFile, Run,
};

fn strings(list: &[&str]) -> Vec<String> {
    list.iter().map(|s| s.to_string()).collect()
}

fn cached(path: &str, mtime: u128, entries: &[&str]) -> CacheFile {
    CacheFile {
        path: path.to_string(),
        mtime,
        entries: strings(entries),
    }
}

#[test]
fn alias_arg_joins_aliases() {
    assert_eq!(
        alias_arg(&["dev".to_string(), "test".to_string()]),
        Some("-A:dev:test".to_string())
    );
    assert_eq!(
        alias_arg(&["ci/int".to_string()]),
        Some("-A:ci/int".to_string())
    );
    assert_eq!(alias_arg(&[]), None);
}

#[test]
fn resolve_with_parses_last_line_and_resolves_relative_entries() {
    // Progress noise above the classpath line must be ignored.
    let run = Run::Done {
        stdout: "Downloading: org/foo/foo.pom\nsrc:/lib\n".to_string(),
    };
    let line = read_run("clojure", &run).expect("the run should succeed");
    assert_eq!(line, "src:/lib");

    let raw = strings(&["src", "/lib"]);
    let entries = resolve_with("clojure", "/root", &raw, &strings(&["/root/src", "/lib"]))
        .expect("the entries are there");
    assert_eq!(entries, strings(&["/root/src", "/lib"]));
}

#[test]
fn resolve_with_reports_stderr_on_failure() {
    let run = Run::Failed {
        status: "exit status: 1".to_string(),
        stderr: "boom: bad alias\n".to_string(),
    };
    let err = read_run("clojure", &run).expect_err("non-zero exit must be an error");
    assert!(err.contains("boom: bad alias"), "err: {err}");
    assert_eq!(err, "`clojure -Spath` failed (exit status: 1): boom: bad alias");
}

#[test]
fn resolve_with_errors_on_empty_output() {
    let run = Run::Done {
        stdout: String::new(),
    };
    let err = read_run("clojure", &run).expect_err("empty output must be an error");
    assert!(err.contains("no output"), "err: {err}");
}

#[test]
fn resolve_with_kills_child_on_timeout() {
    let run = Run::TimedOut {
        after: "200ms".to_string(),
    };
    let err = read_run("clojure", &run).expect_err("timeout must be an error");
    assert!(err.contains("timed out"), "err: {err}");
    assert_eq!(err, "`clojure -Spath` timed out after 200ms");
}

#[test]
fn a_program_that_cannot_be_run_says_so() {
    let run = Run::NotRun {
        error: "not found".to_string(),
    };
    assert_eq!(read_run("clojure", &run).unwrap_err(), "failed to run `clojure`: not found");
}

#[test]
fn a_long_error_is_cut() {
    let run = Run::Failed {
        status: "1".to_string(),
        stderr: "x".repeat(600),
    };
    let expected = format!("`clojure -Spath` failed (1): {}", "x".repeat(500));
    assert_eq!(read_run("clojure", &run).unwrap_err(), expected);
}

#[test]
fn a_classpath_with_nothing_on_disk_is_an_error() {
    let err = resolve_with("clojure", "/root", &strings(&["src"]), &[].to_vec()).unwrap_err();
    assert_eq!(err, "`clojure -Spath` classpath has no existing entries");
}

#[test]
fn blank_lines_behind_the_classpath_are_passed_over() {
    assert_eq!(classpath_line("a:b\r\n\n  \n").as_deref(), Some("a:b"));
    assert_eq!(classpath_line(" \n\t\n"), None);
}

#[test]
fn test_discover_no_cpcache() {
    let result = discover("/root", &[].to_vec(), &[].to_vec());
    assert!(result.is_empty());
}

#[test]
fn test_discover_returns_existing_paths_filters_missing() {
    let files = vec![cached("/root/.cpcache/abc123.cp", 1, &["/root/lib", "/nonexistent/path.jar"])];
    let result = discover("/root", &files, &strings(&["/root/lib"]));
    assert_eq!(result.len(), 1);
    assert_eq!(result[0], "/root/lib");
}

#[test]
fn test_discover_picks_most_recent_cp() {
    let files = vec![
        cached("/root/.cpcache/old.cp", 1, &["/root/lib1", "/root/lib2"]),
        cached("/root/.cpcache/new.cp", 2, &["/root/lib2"]),
    ];
    let result = discover("/root", &files, &strings(&["/root/lib1", "/root/lib2"]));
    assert_eq!(result.len(), 1);
    assert_eq!(result[0], "/root/lib2");
}

#[test]
fn test_discover_falls_back_when_newest_cp_is_stale() {
    let files = vec![
        cached("/root/.cpcache/old.cp", 1, &["src", "/root/lib"]),
        cached("/root/.cpcache/new.cp", 2, &["src", "/machine/gone/lib.jar"]),
    ];
    let result = discover("/root", &files, &strings(&["/root/lib"]));
    assert_eq!(result.len(), 1);
    assert_eq!(result[0], "/root/lib");
}

#[test]
fn newest_files_are_tried_first() {
    let files = vec![
        cached("a.cp", 5, &[]),
        cached("b.txt", 9, &[]),
        cached("c.cp", 7, &[]),
        cached("d.cp", 5, &[]),
    ];
    let names: Vec<String> = cp_files_newest_first(&files).into_iter().map(|f| f.path).collect();
    assert_eq!(names, strings(&["c.cp", "a.cp", "d.cp"]));
}

#[test]
fn relative_entries_prove_no_library() {
    let raw = strings(&["src", "/lib/a.jar"]);
    assert_eq!(resolve_entries("/p", &raw), strings(&["/p/src", "/lib/a.jar"]));
    let (entries, library) = parse_entries("/p", &raw, &strings(&["/p/src"]));
    assert_eq!(entries, strings(&["/p/src"]));
    assert!(!library);
    let (_, library) = parse_entries("/p", &raw, &strings(&["/p/src", "/lib/a.jar"]));
    assert!(library);
}
