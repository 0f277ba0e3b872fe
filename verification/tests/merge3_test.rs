use g3::merge3::{build_hunks, split_lines};
use g3::model::{Hunk, HunkKind, LineOp};

fn s(lines: &[&str]) -> Vec<String> {
    lines.iter().map(|l| l.to_string()).collect()
}

fn kinds(hunks: &[Hunk]) -> Vec<HunkKind> {
    hunks.iter().map(|h| h.kind.clone()).collect()
}

#[test]
fn identical_files_single_unchanged() {
    let base = s(&["a", "b"]);
    let hunks = build_hunks(&base, &base, &base);
    assert_eq!(kinds(&hunks), vec![HunkKind::Unchanged]);
    assert_eq!(hunks[0].id, None);
    assert_eq!(hunks[0].base_lines, base);
}

#[test]
fn left_only_edit_is_blue() {
    let base = s(&["a", "b", "c"]);
    let ours = s(&["a", "B", "c"]);
    let theirs = base.clone();
    let hunks = build_hunks(&base, &ours, &theirs);
    assert!(hunks.iter().any(|h| h.kind == HunkKind::LeftChange));
    assert!(!hunks.iter().any(|h| h.kind == HunkKind::Conflict));
    let change = hunks.iter().find(|h| h.kind == HunkKind::LeftChange).unwrap();
    assert_eq!(change.left_lines, s(&["B"]));
    assert_eq!(change.base_lines, s(&["b"]));
    assert!(change.id.is_some());
}

#[test]
fn right_only_edit_is_blue() {
    let base = s(&["a", "b", "c"]);
    let ours = base.clone();
    let theirs = s(&["a", "B", "c"]);
    let hunks = build_hunks(&base, &ours, &theirs);
    assert!(hunks.iter().any(|h| h.kind == HunkKind::RightChange));
    assert!(!hunks.iter().any(|h| h.kind == HunkKind::Conflict));
}

#[test]
fn same_edit_both_sides_is_both_same() {
    let base = s(&["a", "b", "c"]);
    let side = s(&["a", "X", "c"]);
    let hunks = build_hunks(&base, &side, &side);
    assert!(hunks.iter().any(|h| h.kind == HunkKind::BothSame));
    assert!(!hunks.iter().any(|h| h.kind == HunkKind::Conflict));
}

#[test]
fn different_edit_same_span_is_conflict() {
    let base = s(&["a", "b", "c"]);
    let ours = s(&["a", "L", "c"]);
    let theirs = s(&["a", "R", "c"]);
    let hunks = build_hunks(&base, &ours, &theirs);
    let conflict = hunks.iter().find(|h| h.kind == HunkKind::Conflict).unwrap();
    assert_eq!(conflict.left_lines, s(&["L"]));
    assert_eq!(conflict.right_lines, s(&["R"]));
    assert_eq!(conflict.base_lines, s(&["b"]));
}

#[test]
fn left_only_insert_is_blue() {
    let base = s(&["a", "c"]);
    let ours = s(&["a", "b", "c"]);
    let theirs = base.clone();
    let hunks = build_hunks(&base, &ours, &theirs);
    let ins = hunks.iter().find(|h| h.kind == HunkKind::LeftChange).unwrap();
    assert!(ins.base_lines.is_empty());
    assert_eq!(ins.left_lines, s(&["b"]));
}

#[test]
fn left_only_delete_is_blue() {
    let base = s(&["a", "b", "c"]);
    let ours = s(&["a", "c"]);
    let theirs = base.clone();
    let hunks = build_hunks(&base, &ours, &theirs);
    let del = hunks.iter().find(|h| h.kind == HunkKind::LeftChange).unwrap();
    assert_eq!(del.base_lines, s(&["b"]));
    assert!(del.left_lines.is_empty());
}

#[test]
fn delete_vs_modify_is_conflict() {
    let base = s(&["a", "b", "c"]);
    let ours = s(&["a", "c"]); // deleted b
    let theirs = s(&["a", "B", "c"]); // modified b
    let hunks = build_hunks(&base, &ours, &theirs);
    assert!(hunks.iter().any(|h| h.kind == HunkKind::Conflict));
}

#[test]
fn empty_base_equal_adds_both_same() {
    let base: Vec<String> = vec![];
    let side = s(&["new"]);
    let hunks = build_hunks(&base, &side, &side);
    assert_eq!(kinds(&hunks), vec![HunkKind::BothSame]);
}

#[test]
fn empty_base_unequal_adds_conflict() {
    let base: Vec<String> = vec![];
    let hunks = build_hunks(&base, &s(&["L"]), &s(&["R"]));
    assert_eq!(kinds(&hunks), vec![HunkKind::Conflict]);
}

#[test]
fn missing_side_treated_as_empty() {
    // Caller responsibility: pass empty slice. Document that contract.
    let base = s(&["a"]);
    let hunks = build_hunks(&base, &s(&["a"]), &[]);
    assert!(hunks.iter().any(|h| h.kind == HunkKind::RightChange || h.kind == HunkKind::Conflict));
}

#[test]
fn split_lines_trailing_newline() {
    assert_eq!(split_lines("a\nb\n"), (s(&["a", "b"]), true));
    assert_eq!(split_lines("a\nb"), (s(&["a", "b"]), false));
    assert_eq!(split_lines(""), (Vec::<String>::new(), false));
    assert_eq!(split_lines("\n"), (Vec::<String>::new(), true));
}

#[test]
fn theirs_equal_to_base_gives_only_left_changes() {
    let base = s(&["a", "b", "c", "d", "e"]);
    let ours = s(&["a", "B", "c", "e", "f"]);
    let hunks = build_hunks(&base, &ours, &base);
    assert!(hunks.iter().all(|h| h.kind == HunkKind::Unchanged || h.kind == HunkKind::LeftChange));
    assert!(hunks.iter().any(|h| h.kind == HunkKind::LeftChange));
}

#[test]
fn ours_equal_to_base_gives_only_right_changes() {
    let base = s(&["a", "b", "c"]);
    let theirs = s(&["x", "b"]);
    let hunks = build_hunks(&base, &base, &theirs);
    assert!(hunks.iter().all(|h| h.kind == HunkKind::Unchanged || h.kind == HunkKind::RightChange));
}

#[test]
fn equal_sides_never_conflict() {
    let base = s(&["a", "b", "c", "d"]);
    let side = s(&["z", "b", "C", "d", "e"]);
    let hunks = build_hunks(&base, &side, &side);
    assert!(!hunks.iter().any(|h| h.kind == HunkKind::Conflict));
    assert!(hunks.iter().all(|h| h.kind == HunkKind::Unchanged || h.kind == HunkKind::BothSame));
}

#[test]
fn empty_files_give_no_hunks() {
    assert!(build_hunks(&[], &[], &[]).is_empty());
}

#[test]
fn hunks_cover_the_base_and_number_actionable_ones() {
    let base = s(&["a", "b", "c", "d", "e", "f"]);
    let ours = s(&["a", "B", "c", "d", "E", "f"]);
    let theirs = s(&["a", "b", "c", "D", "e2", "f", "g"]);
    let hunks = build_hunks(&base, &ours, &theirs);
    let bases: Vec<String> = hunks.iter().flat_map(|h| h.base_lines.clone()).collect();
    assert_eq!(bases, base);
    let mut next = 0u32;
    for h in &hunks {
        if h.kind == HunkKind::Unchanged {
            assert_eq!(h.id, None);
            assert_eq!(h.left_lines, h.base_lines);
            assert_eq!(h.right_lines, h.base_lines);
        } else {
            assert_eq!(h.id, Some(next));
            next += 1;
        }
    }
    assert!(hunks.iter().any(|h| h.kind == HunkKind::Conflict));
}

#[test]
fn conflict_hunk_carries_line_ops_against_base() {
    let base = s(&["a", "b", "c"]);
    let ours = s(&["a", "L", "c"]);
    let theirs = s(&["a", "R", "c"]);
    let hunks = build_hunks(&base, &ours, &theirs);
    let conflict = hunks.iter().find(|h| h.kind == HunkKind::Conflict).unwrap();
    assert_eq!(
        conflict.left_line_ops,
        vec![LineOp::Delete { text: "b".to_string() }, LineOp::Insert { text: "L".to_string() }]
    );
    assert_eq!(
        conflict.right_line_ops,
        vec![LineOp::Delete { text: "b".to_string() }, LineOp::Insert { text: "R".to_string() }]
    );
    let unchanged = &hunks[0];
    assert_eq!(unchanged.left_line_ops, vec![LineOp::Equal { text: "a".to_string() }]);
}

#[test]
fn kind_predicates() {
    assert!(!HunkKind::Unchanged.is_blue());
    assert!(HunkKind::LeftChange.is_blue());
    assert!(HunkKind::RightChange.is_blue());
    assert!(HunkKind::BothSame.is_blue());
    assert!(!HunkKind::Conflict.is_blue());
    assert!(HunkKind::Conflict.is_conflict());
    assert!(!HunkKind::BothSame.is_conflict());
    assert!(!HunkKind::Unchanged.is_actionable());
    assert!(HunkKind::LeftChange.is_actionable());
    assert!(HunkKind::Conflict.is_actionable());
}

#[test]
fn split_lines_keeps_inner_empty_lines_and_carriage_returns() {
    assert_eq!(split_lines("a\n\nb\n"), (s(&["a", "", "b"]), true));
    assert_eq!(split_lines("\n\n"), (s(&["", ""]), true));
    assert_eq!(split_lines("a\r\nb"), (s(&["a\r", "b"]), false));
}

fn pane(hunks: &[Hunk], left: bool) -> Vec<String> {
    hunks
        .iter()
        .flat_map(|h| if left { h.left_lines.clone() } else { h.right_lines.clone() })
        .collect()
}

#[test]
fn panes_show_each_side_once() {
    let base = s(&["a", "b", "c"]);
    let ours = s(&["X", "a", "B", "c"]);
    let theirs = s(&["Y", "Z", "c"]);
    let hunks = build_hunks(&base, &ours, &theirs);
    assert_eq!(pane(&hunks, true), ours);
    assert_eq!(pane(&hunks, false), theirs);
    let bases: Vec<String> = hunks.iter().flat_map(|h| h.base_lines.clone()).collect();
    assert_eq!(bases, base);
}

#[test]
fn panes_survive_a_repeated_line() {
    let base = s(&["a", "b"]);
    let ours: Vec<String> = Vec::new();
    let theirs = s(&["b", "b"]);
    let hunks = build_hunks(&base, &ours, &theirs);
    assert_eq!(pane(&hunks, true), ours);
    assert_eq!(pane(&hunks, false), theirs);
}

#[test]
fn panes_with_insertions_at_both_ends() {
    let base = s(&["m"]);
    let ours = s(&["p", "m", "q"]);
    let theirs = s(&["m", "r"]);
    let hunks = build_hunks(&base, &ours, &theirs);
    assert_eq!(pane(&hunks, true), ours);
    assert_eq!(pane(&hunks, false), theirs);
}

#[test]
fn longer_replacement_splits_off_an_insertion() {
    let base = s(&["line1", "line2", "line3"]);
    let ours = s(&["line1", "BLUE", "MAIN", "line3"]);
    let theirs = s(&["line1", "FEATURE", "line3"]);
    let hunks = build_hunks(&base, &ours, &theirs);
    assert_eq!(
        kinds(&hunks),
        vec![HunkKind::Unchanged, HunkKind::LeftChange, HunkKind::Conflict, HunkKind::Unchanged]
    );
    assert_eq!(hunks[1].base_lines, Vec::<String>::new());
    assert_eq!(hunks[1].left_lines, s(&["BLUE"]));
    assert_eq!(hunks[1].right_lines, Vec::<String>::new());
    assert_eq!(hunks[1].id, Some(0));
    assert_eq!(hunks[2].base_lines, s(&["line2"]));
    assert_eq!(hunks[2].left_lines, s(&["MAIN"]));
    assert_eq!(hunks[2].right_lines, s(&["FEATURE"]));
    assert_eq!(hunks[2].id, Some(1));
}

#[test]
fn shorter_replacement_stays_whole() {
    let base = s(&["a", "b", "c", "d"]);
    let ours = s(&["a", "X", "d"]);
    let hunks = build_hunks(&base, &ours, &base);
    assert_eq!(kinds(&hunks), vec![HunkKind::Unchanged, HunkKind::LeftChange, HunkKind::Unchanged]);
    assert_eq!(hunks[1].base_lines, s(&["b", "c"]));
    assert_eq!(hunks[1].left_lines, s(&["X"]));
}

#[test]
fn one_sided_hunks_differ_from_base_on_their_side() {
    let base = s(&["a", "b", "c", "d", "e"]);
    let ours = s(&["a", "x", "y", "c", "d", "e", "f"]);
    let theirs = s(&["a", "b", "c", "e"]);
    let hunks = build_hunks(&base, &ours, &theirs);
    assert!(hunks.iter().any(|h| h.kind == HunkKind::LeftChange));
    assert!(hunks.iter().any(|h| h.kind == HunkKind::RightChange));
    for h in &hunks {
        if h.kind == HunkKind::LeftChange {
            assert_ne!(h.left_lines, h.base_lines);
        }
        if h.kind == HunkKind::RightChange {
            assert_ne!(h.right_lines, h.base_lines);
        }
    }
}
