use g3::git::{
    branch_labels, ensure_safe_relative_path, is_binary_content, list_conflicts, read_stages,
    side_status, BranchTip, IndexConflict, PathError, StageEntry,
};
use g3::model::SideStatus;
use std::path::{Component, Path};

fn entry(path: &str, content: &[u8]) -> Option<StageEntry> {
    Some(StageEntry { path: path.as_bytes().to_vec(), content: Some(content.to_vec()) })
}

fn modify_modify() -> IndexConflict {
    IndexConflict {
        ancestor: entry("file.txt", b"line1\nline2\nline3\n"),
        our: entry("file.txt", b"line1\nMAIN\nline3\n"),
        their: entry("file.txt", b"line1\nFEATURE\nline3\n"),
    }
}

#[test]
fn lists_the_conflicted_file() {
    let conflicts = list_conflicts(&[modify_modify()]);
    assert_eq!(conflicts.len(), 1);
    assert_eq!(conflicts[0].path, "file.txt");
    assert_eq!(conflicts[0].ours_status, SideStatus::Modified);
    assert_eq!(conflicts[0].theirs_status, SideStatus::Modified);
    assert!(!conflicts[0].is_binary);
}

#[test]
fn reads_all_three_stages() {
    let stages = read_stages(&[modify_modify()], "file.txt");
    assert!(stages.base.is_some());
    assert!(stages.ours.as_ref().unwrap().contains("MAIN"));
    assert!(stages.theirs.as_ref().unwrap().contains("FEATURE"));
}

#[test]
fn binary_when_only_theirs_side_is_binary() {
    let mut c = modify_modify();
    c.their = entry("file.txt", b"\x00\x01bin");
    let conflicts = list_conflicts(&[c]);
    assert_eq!(conflicts.len(), 1);
    assert_eq!(conflicts[0].path, "file.txt");
    assert!(conflicts[0].is_binary);
}

#[test]
fn side_statuses_follow_which_stages_exist() {
    assert_eq!(side_status(true, true), SideStatus::Modified);
    assert_eq!(side_status(false, true), SideStatus::Added);
    assert_eq!(side_status(true, false), SideStatus::Deleted);
    assert_eq!(side_status(false, false), SideStatus::Deleted);
    let add_add = IndexConflict { ancestor: None, our: entry("n.txt", b"a"), their: entry("n.txt", b"b") };
    let del_mod = IndexConflict { ancestor: entry("d.txt", b"a"), our: None, their: entry("d.txt", b"b") };
    let files = list_conflicts(&[add_add, del_mod]);
    assert_eq!(files[0].ours_status, SideStatus::Added);
    assert_eq!(files[0].theirs_status, SideStatus::Added);
    assert_eq!(files[1].path, "d.txt");
    assert_eq!(files[1].ours_status, SideStatus::Deleted);
    assert_eq!(files[1].theirs_status, SideStatus::Modified);
}

#[test]
fn path_falls_back_to_ancestor_and_unreadable_blob_is_not_binary() {
    let c = IndexConflict {
        ancestor: Some(StageEntry { path: b"gone.txt".to_vec(), content: None }),
        our: None,
        their: None,
    };
    let files = list_conflicts(&[c]);
    assert_eq!(files[0].path, "gone.txt");
    assert!(!files[0].is_binary);
    let none = IndexConflict { ancestor: None, our: None, their: None };
    assert_eq!(list_conflicts(&[none])[0].path, "");
}

#[test]
fn invalid_utf8_path_is_read_lossily() {
    let c = IndexConflict {
        ancestor: None,
        our: Some(StageEntry { path: b"f\xffo".to_vec(), content: Some(b"x".to_vec()) }),
        their: None,
    };
    assert_eq!(list_conflicts(&[c])[0].path, "f\u{FFFD}o");
}

#[test]
fn nul_byte_marks_binary_content() {
    assert!(is_binary_content(b"a\0b"));
    assert!(!is_binary_content(b"plain text"));
    assert!(!is_binary_content(b""));
}

#[test]
fn stages_of_other_paths_are_ignored_and_later_entries_win() {
    let other = IndexConflict {
        ancestor: entry("other.txt", b"O"),
        our: entry("other.txt", b"O"),
        their: entry("other.txt", b"O"),
    };
    let first = IndexConflict { ancestor: None, our: entry("f", b"first"), their: entry("f", b"t") };
    let second = IndexConflict {
        ancestor: None,
        our: Some(StageEntry { path: b"f".to_vec(), content: None }),
        their: None,
    };
    let stages = read_stages(&[other, first, second], "f");
    assert_eq!(stages.base, None);
    assert_eq!(stages.ours, None);
    assert_eq!(stages.theirs, Some("t".to_string()));
    let none = read_stages(&[modify_modify()], "missing.txt");
    assert!(none.base.is_none() && none.ours.is_none() && none.theirs.is_none());
}

fn tip(name: &str, target: &str) -> BranchTip {
    BranchTip { name: name.to_string(), target: target.to_string() }
}

#[test]
fn labels_come_from_head_and_the_merged_branch() {
    let tips = vec![
        tip("main", "1111111111111111111111111111111111111111"),
        tip("feature", "2222222222222222222222222222222222222222"),
        tip("origin/main", "3333333333333333333333333333333333333333"),
    ];
    let (ours, theirs) = branch_labels(
        Some("main".to_string()),
        Some("2222222222222222222222222222222222222222".to_string()),
        &tips,
    );
    assert_eq!(ours, "main");
    assert_eq!(theirs, "feature");
    let (_, theirs) = branch_labels(None, Some("3333333333333333333333333333333333333333".to_string()), &tips);
    assert_eq!(theirs, "origin/main");
    let (ours, theirs) = branch_labels(None, None, &tips);
    assert_eq!(ours, "Yours");
    assert_eq!(theirs, "Theirs");
    // A merge head that no branch points at (a merged commit) has no name.
    let (_, theirs) = branch_labels(None, Some("abc123".to_string()), &tips);
    assert_eq!(theirs, "Theirs");
    let (_, theirs) = branch_labels(None, Some("2222222222222222222222222222222222222222".to_string()), &[]);
    assert_eq!(theirs, "Theirs");
    // The first branch at the merge head names it.
    let twins = vec![tip("b1", "4"), tip("b2", "4")];
    let (_, theirs) = branch_labels(None, Some("4".to_string()), &twins);
    assert_eq!(theirs, "b1");
}

#[test]
fn rejects_absolute_path() {
    assert_eq!(ensure_safe_relative_path("/etc/passwd"), Err(PathError::NotPlainRelative));
}

#[test]
fn rejects_path_with_parent_dir_component() {
    assert_eq!(ensure_safe_relative_path("../outside.txt"), Err(PathError::NotPlainRelative));
    assert!(ensure_safe_relative_path("a/../b").is_err());
    assert!(ensure_safe_relative_path("a/..").is_err());
    assert!(ensure_safe_relative_path("..").is_err());
}

#[test]
fn accepts_plain_relative_paths() {
    assert_eq!(ensure_safe_relative_path("file.txt"), Ok(()));
    assert!(ensure_safe_relative_path("dir/sub/file.txt").is_ok());
    assert!(ensure_safe_relative_path("a/..b").is_ok());
    assert!(ensure_safe_relative_path("...").is_ok());
    assert!(ensure_safe_relative_path("./x").is_ok());
    assert!(ensure_safe_relative_path("").is_ok());
}

#[test]
fn path_error_message() {
    assert_eq!(
        PathError::NotPlainRelative.message(),
        "invalid path: must be relative and contain no '..' components"
    );
}

#[test]
fn safe_paths_agree_with_std_path_on_unix() {
    for p in ["a", "/a", "a/../b", "a/./b", "..", "a//..", "x/...", "./.."] {
        let std_ok = !Path::new(p).is_absolute()
            && !Path::new(p).components().any(|c| c == Component::ParentDir);
        assert_eq!(ensure_safe_relative_path(p).is_ok(), std_ok, "{p}");
    }
}

#[test]
fn valid_utf8_paths_and_texts_decode_exactly() {
    let c = IndexConflict {
        ancestor: entry("dé/ü.txt", "α\nβ\n".as_bytes()),
        our: entry("dé/ü.txt", "α\nγ\n".as_bytes()),
        their: entry("dé/ü.txt", "α\nδ\n".as_bytes()),
    };
    let files = list_conflicts(&[c]);
    assert_eq!(files[0].path, "dé/ü.txt");
    let c = IndexConflict {
        ancestor: entry("dé/ü.txt", "α\nβ\n".as_bytes()),
        our: entry("dé/ü.txt", "α\nγ\n".as_bytes()),
        their: entry("dé/ü.txt", "α\nδ\n".as_bytes()),
    };
    let st = read_stages(&[c], "dé/ü.txt");
    assert_eq!(st.base, Some("α\nβ\n".to_string()));
    assert_eq!(st.ours, Some("α\nγ\n".to_string()));
    assert_eq!(st.theirs, Some("α\nδ\n".to_string()));
}
