use clj_pulse::projects::{detect, holds_manifest, manifests, path_of};
use clj_pulse::path::components;

const ROOT: &str = "/ws";

fn detected(dirs: &[&str]) -> Vec<String> {
    let dirs: Vec<String> = dirs.iter().map(|d| format!("{ROOT}/{d}")).collect();
    detect(ROOT, &dirs)
        .iter()
        .map(|p| path_of(&p.path, p.path.len()))
        .collect()
}

#[test]
fn detect_finds_subprojects_for_each_manifest_kind() {
    assert_eq!(manifests(), vec!["deps.edn", "project.clj", "lgx.edn"]);
    assert_eq!(
        detected(&["apps/p2", "", "apps/p0", "apps/p1"]),
        vec!["apps/p0", "apps/p1", "apps/p2"]
    );
}

#[test]
fn detect_excludes_the_root_itself() {
    assert!(detected(&[""]).is_empty());
    assert!(detect(ROOT, &vec![ROOT.to_string()]).is_empty());
}

#[test]
fn detect_finds_nested_subproject_at_depth_three() {
    assert_eq!(detected(&["libs/group/common"]), vec!["libs/group/common"]);
}

#[test]
fn detect_skips_dirs_past_depth_four() {
    // Manifest at depth 5 — the project dir is past the depth-4 cap.
    // Depth 4 is still within the cap.
    assert_eq!(detected(&["a/b/c/d/e", "a/b/c/d"]), vec!["a/b/c/d"]);
}

#[test]
fn detect_empty_repo_yields_empty() {
    assert!(detected(&[]).is_empty());
}

#[test]
fn directories_elsewhere_are_no_subprojects() {
    assert!(detect(ROOT, &vec!["/other/p".to_string(), "/wsx".to_string()]).is_empty());
}

#[test]
fn paths_are_ordered_by_component() {
    // `a/b` comes before `a-b`, though `-` sorts before `/`.
    assert_eq!(detected(&["a-b", "a/b"]), vec!["a/b", "a-b"]);
}

#[test]
fn a_directory_with_a_manifest_is_known_by_its_path() {
    let dir = components("/ws/app/src");
    let holding = vec!["/ws//app/".to_string()];
    assert!(holds_manifest(&holding, &dir, 3));
    assert!(!holds_manifest(&holding, &dir, 4));
}
