use g3::cli::resolve_repo_path;
use std::path::{Path, PathBuf};

fn args(rest: &[&str]) -> Vec<String> {
    std::iter::once("g3".to_string())
        .chain(rest.iter().map(|s| s.to_string()))
        .collect()
}

fn resolve(rest: &[&str], cwd: &Path) -> PathBuf {
    PathBuf::from(resolve_repo_path(&args(rest), cwd.to_str().unwrap()))
}

#[test]
fn no_args_uses_cwd() {
    let cwd = Path::new("/work/my-repo");
    assert_eq!(resolve(&[], cwd), PathBuf::from("/work/my-repo"));
}

#[test]
fn positional_path_is_used() {
    let cwd = Path::new("/work");
    assert_eq!(resolve(&["/tmp/conflicted"], cwd), PathBuf::from("/tmp/conflicted"));
}

#[test]
fn relative_positional_is_joined_to_cwd() {
    let cwd = Path::new("/work");
    assert_eq!(resolve(&["../other"], cwd), cwd.join("../other"));
}

#[test]
fn repo_flag_is_used() {
    let cwd = Path::new("/work");
    assert_eq!(resolve(&["--repo", "/tmp/conflicted"], cwd), PathBuf::from("/tmp/conflicted"));
}

#[test]
fn relative_repo_flag_is_joined_to_cwd() {
    let cwd = Path::new("/work");
    assert_eq!(resolve(&["--repo", "nested"], cwd), cwd.join("nested"));
}

#[test]
fn repo_flag_wins_over_an_earlier_positional() {
    assert_eq!(resolve_repo_path(&args(&["first", "--repo", "second"]), "/work"), "/work/second");
}

#[test]
fn repo_flag_without_value_falls_back_to_positional() {
    assert_eq!(resolve_repo_path(&args(&["first", "--repo"]), "/work"), "/work/first");
}

#[test]
fn other_flags_are_skipped() {
    assert_eq!(resolve_repo_path(&args(&["-v", "--x", "repo"]), "/work"), "/work/repo");
    assert_eq!(resolve_repo_path(&args(&["-v"]), "/work"), "/work");
}

#[test]
fn cwd_with_trailing_separator_gets_no_second_one() {
    assert_eq!(resolve_repo_path(&args(&["repo"]), "/work/"), "/work/repo");
    assert_eq!(resolve_repo_path(&args(&["repo"]), ""), "repo");
}

#[test]
fn empty_argument_list_uses_cwd() {
    assert_eq!(resolve_repo_path(&[], "/work"), "/work");
}

#[test]
fn join_matches_std_path_join() {
    for (cwd, p) in [("/a", "b"), ("/a/", "b"), ("/a", "/b"), ("a", "../b"), ("/", "x")] {
        let ours = resolve_repo_path(&args(&[p]), cwd);
        assert_eq!(PathBuf::from(ours), Path::new(cwd).join(p));
    }
}
