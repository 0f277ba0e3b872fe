use g3::document::{document_from_markers, document_from_stages, simple_hash, to_hex};
use g3::git::Stages;
use g3::model::{HunkKind, LineOp};

fn fnv1a(bytes: &[u8]) -> u64 {
    let mut h: u64 = 0xcbf29ce484222325;
    for b in bytes {
        h ^= *b as u64;
        h = h.wrapping_mul(0x100000001b3);
    }
    h
}

fn stages(base: Option<&str>, ours: Option<&str>, theirs: Option<&str>) -> Stages {
    Stages {
        base: base.map(String::from),
        ours: ours.map(String::from),
        theirs: theirs.map(String::from),
    }
}

fn lines(v: &[&str]) -> Vec<String> {
    v.iter().map(|s| s.to_string()).collect()
}

#[test]
fn fnv1a_known_values() {
    assert_eq!(simple_hash(""), 0xcbf29ce484222325);
    assert_eq!(simple_hash("a"), 0xaf63dc4c8601ec8c);
    assert_eq!(simple_hash("foobar"), 0x85944171f73967e8);
    assert_eq!(simple_hash("é"), fnv1a("é".as_bytes()));
}

#[test]
fn hex_is_lowercase_without_leading_zeros() {
    assert_eq!(to_hex(0), "0");
    assert_eq!(to_hex(15), "f");
    assert_eq!(to_hex(255), "ff");
    assert_eq!(to_hex(0x100), "100");
    assert_eq!(to_hex(u64::MAX), "ffffffffffffffff");
    assert_eq!(to_hex(0xaf63dc4c8601ec8c), format!("{:x}", 0xaf63dc4c8601ec8cu64));
}

#[test]
fn stages_give_one_conflict_hunk() {
    let st = stages(
        Some("line1\nline2\nline3\n"),
        Some("line1\nMAIN\nline3\n"),
        Some("line1\nFEATURE\nline3\n"),
    );
    let doc = document_from_stages("file.txt", "main".to_string(), "feature".to_string(), &st).unwrap();
    assert_eq!(doc.path, "file.txt");
    assert_eq!(doc.ours_label, "main");
    assert_eq!(doc.theirs_label, "feature");
    assert_eq!(doc.conflict_count, 1);
    assert_eq!(doc.change_count, 0);
    assert!(doc.trailing_newline);
    assert!(!doc.content_hash.is_empty());
    let conflict = doc.hunks.iter().find(|h| h.kind == HunkKind::Conflict).unwrap();
    assert!(conflict.left_lines.iter().any(|l| l.contains("MAIN")));
    assert!(conflict.right_lines.iter().any(|l| l.contains("FEATURE")));
    assert_eq!(conflict.base_lines, lines(&["line2"]));
    assert_eq!(conflict.id, Some(0));
    let expected = format!(
        "{:x}",
        fnv1a(b"B\0line1\nline2\nline3\n\0O\0line1\nMAIN\nline3\n\0T\0line1\nFEATURE\nline3\n")
    );
    assert_eq!(doc.content_hash, expected);
}

#[test]
fn blue_and_red_fixture_has_both() {
    let st = stages(
        Some("line1\nline2\nline3\n"),
        Some("line1\nBLUE\nMAIN\nline3\n"),
        Some("line1\nFEATURE\nline3\n"),
    );
    let doc = document_from_stages("file.txt", "main".to_string(), "feature".to_string(), &st).unwrap();
    assert!(doc.change_count >= 1);
    assert_eq!(doc.conflict_count, 1);
    let blue = doc.hunks.iter().find(|h| h.kind.is_blue()).unwrap();
    assert!(blue.left_lines.iter().any(|l| l.contains("BLUE")));
    let conflict = doc.hunks.iter().find(|h| h.kind.is_conflict()).unwrap();
    assert!(conflict.left_lines.iter().any(|l| l.contains("MAIN")));
    assert!(conflict.right_lines.iter().any(|l| l.contains("FEATURE")));
}

#[test]
fn stages_with_blue_and_red_have_both() {
    let st = stages(
        Some("top\nx\nmid\ny\nend\n"),
        Some("BLUE\nx\nmid\nMAIN\nend\n"),
        Some("top\nx\nmid\nFEATURE\nend\n"),
    );
    let doc = document_from_stages("file.txt", "a".to_string(), "b".to_string(), &st).unwrap();
    assert!(doc.change_count >= 1);
    assert_eq!(doc.conflict_count, 1);
    let blue = doc.hunks.iter().find(|h| h.kind.is_blue()).unwrap();
    assert!(blue.left_lines.iter().any(|l| l.contains("BLUE")));
    let conflict = doc.hunks.iter().find(|h| h.kind.is_conflict()).unwrap();
    assert!(conflict.left_lines.iter().any(|l| l.contains("MAIN")));
    assert!(conflict.right_lines.iter().any(|l| l.contains("FEATURE")));
    // The base lines of the hunks, in order, are the whole base.
    let bases: Vec<String> = doc.hunks.iter().flat_map(|h| h.base_lines.clone()).collect();
    assert_eq!(bases, lines(&["top", "x", "mid", "y", "end"]));
    let ids: Vec<Option<u32>> = doc.hunks.iter().map(|h| h.id).collect();
    assert_eq!(ids, vec![Some(0), None, Some(1), None]);
}

#[test]
fn no_stage_means_no_document() {
    let st = stages(None, None, None);
    assert!(document_from_stages("f", String::new(), String::new(), &st).is_none());
}

#[test]
fn missing_stage_is_an_empty_text() {
    let st = stages(None, Some("new\n"), Some("new\n"));
    let doc = document_from_stages("f", String::new(), String::new(), &st).unwrap();
    let kinds: Vec<HunkKind> = doc.hunks.iter().map(|h| h.kind).collect();
    assert_eq!(kinds, vec![HunkKind::BothSame]);
    assert_eq!(doc.change_count, 1);
    assert_eq!(doc.conflict_count, 0);
    assert_eq!(doc.content_hash, format!("{:x}", fnv1a(b"B\0\0O\0new\n\0T\0new\n")));
}

#[test]
fn trailing_newline_from_any_stage() {
    let st = stages(Some("a"), Some("a"), Some("a\n"));
    let doc = document_from_stages("f", String::new(), String::new(), &st).unwrap();
    assert!(doc.trailing_newline);
    let st = stages(Some("a"), Some("a"), Some("a"));
    let doc = document_from_stages("f", String::new(), String::new(), &st).unwrap();
    assert!(!doc.trailing_newline);
    assert_eq!(doc.hunks.len(), 1);
    assert_eq!(doc.hunks[0].kind, HunkKind::Unchanged);
}

#[test]
fn markers_give_unchanged_and_conflict_hunks() {
    let raw = "before\n<<<<<<< HEAD\nours\n||||||| base\norig\n=======\ntheirs\n>>>>>>> b\nafter";
    let doc = document_from_markers("f.txt", "L".to_string(), "R".to_string(), raw);
    assert_eq!(doc.path, "f.txt");
    assert_eq!(doc.change_count, 0);
    assert_eq!(doc.conflict_count, 1);
    assert!(!doc.trailing_newline);
    assert_eq!(doc.content_hash, format!("{:x}", fnv1a(raw.as_bytes())));
    assert_eq!(doc.hunks.len(), 3);
    let first = &doc.hunks[0];
    assert_eq!(first.kind, HunkKind::Unchanged);
    assert_eq!(first.id, None);
    assert_eq!(first.base_lines, lines(&["before"]));
    assert_eq!(first.left_lines, lines(&["before"]));
    assert_eq!(first.right_lines, lines(&["before"]));
    assert!(first.left_line_ops.is_empty() && first.right_line_ops.is_empty());
    let c = &doc.hunks[1];
    assert_eq!(c.kind, HunkKind::Conflict);
    assert_eq!(c.id, Some(0));
    assert_eq!(c.base_lines, lines(&["orig"]));
    assert_eq!(c.left_lines, lines(&["ours"]));
    assert_eq!(c.right_lines, lines(&["theirs"]));
    assert_eq!(
        c.left_line_ops,
        vec![LineOp::Delete { text: "orig".to_string() }, LineOp::Insert { text: "ours".to_string() }]
    );
    assert_eq!(doc.hunks[2].base_lines, lines(&["after"]));
}

#[test]
fn marker_conflicts_are_numbered_in_order() {
    let raw = "<<<<<<< a\n1\n=======\n2\n>>>>>>> b\nmid\n<<<<<<< a\n3\n=======\n4\n>>>>>>> b\n";
    let doc = document_from_markers("f", String::new(), String::new(), raw);
    let ids: Vec<Option<u32>> = doc.hunks.iter().map(|h| h.id).collect();
    assert_eq!(ids, vec![Some(0), None, Some(1)]);
    assert_eq!(doc.conflict_count, 2);
    assert!(doc.trailing_newline);
    // A conflict without a base side is diffed against no lines.
    assert_eq!(doc.hunks[0].base_lines, Vec::<String>::new());
    assert_eq!(doc.hunks[0].left_line_ops, vec![LineOp::Insert { text: "1".to_string() }]);
}

#[test]
fn malformed_markers_give_one_manual_conflict() {
    let raw = "<<<<<<< HEAD\nno end\n";
    let doc = document_from_markers("f", String::new(), String::new(), raw);
    assert_eq!(doc.hunks.len(), 1);
    assert_eq!(doc.hunks[0].kind, HunkKind::Conflict);
    assert_eq!(doc.hunks[0].left_lines, lines(&["<<<<<<< HEAD", "no end"]));
    assert!(doc.hunks[0].right_lines.is_empty());
    assert_eq!(doc.conflict_count, 1);
}
