use g3::diff::line_diff;
use g3::model::LineOp;

#[test]
fn identical_input_is_all_equal() {
    let a = vec!["x".to_string(), "y".to_string()];
    let ops = line_diff(&a, &a);
    assert!(ops.iter().all(|o| matches!(o, LineOp::Equal { .. })));
    assert_eq!(ops.len(), 2);
}

#[test]
fn added_line_is_insert() {
    let a = vec!["x".to_string()];
    let b = vec!["x".to_string(), "y".to_string()];
    let ops = line_diff(&a, &b);
    assert!(ops.iter().any(|o| matches!(o, LineOp::Insert { text } if text == "y")));
}

#[test]
fn removed_line_is_delete() {
    let a = vec!["x".to_string(), "y".to_string()];
    let b = vec!["x".to_string()];
    let ops = line_diff(&a, &b);
    assert!(ops.iter().any(|o| matches!(o, LineOp::Delete { text } if text == "y")));
}

fn text(s: &str) -> String {
    s.to_string()
}

#[test]
fn changed_line_is_delete_then_insert_without_newlines() {
    let a = vec![text("a"), text("b"), text("c")];
    let b = vec![text("a"), text("B"), text("c")];
    assert_eq!(
        line_diff(&a, &b),
        vec![
            LineOp::Equal { text: text("a") },
            LineOp::Delete { text: text("b") },
            LineOp::Insert { text: text("B") },
            LineOp::Equal { text: text("c") },
        ]
    );
}

#[test]
fn empty_sides_give_no_ops() {
    assert_eq!(line_diff(&[], &[]), vec![]);
    assert_eq!(line_diff(&[], &[text("n")]), vec![LineOp::Insert { text: text("n") }]);
}

#[test]
fn appended_line_keeps_the_last_common_line_equal() {
    let a = vec![text("x")];
    let b = vec![text("x"), text("y")];
    assert_eq!(line_diff(&a, &b), vec![LineOp::Equal { text: text("x") }, LineOp::Insert { text: text("y") }]);
}

#[test]
fn old_and_new_texts_give_back_both_sides() {
    let a = vec![text("p"), text(""), text("q"), text("r")];
    let b = vec![text("q"), text("p"), text(""), text("s"), text("")];
    let ops = line_diff(&a, &b);
    let old: Vec<String> = ops
        .iter()
        .filter_map(|o| match o {
            LineOp::Equal { text } | LineOp::Delete { text } => Some(text.clone()),
            LineOp::Insert { .. } => None,
        })
        .collect();
    let new: Vec<String> = ops
        .iter()
        .filter_map(|o| match o {
            LineOp::Equal { text } | LineOp::Insert { text } => Some(text.clone()),
            LineOp::Delete { .. } => None,
        })
        .collect();
    assert_eq!(old, a);
    assert_eq!(new, b);
}

#[test]
fn changed_block_deletes_all_before_inserting() {
    let a = vec![text("k"), text("x"), text("y"), text("k2")];
    let b = vec![text("k"), text("p"), text("q"), text("k2")];
    let ops = line_diff(&a, &b);
    assert_eq!(
        ops,
        vec![
            LineOp::Equal { text: text("k") },
            LineOp::Delete { text: text("x") },
            LineOp::Delete { text: text("y") },
            LineOp::Insert { text: text("p") },
            LineOp::Insert { text: text("q") },
            LineOp::Equal { text: text("k2") },
        ]
    );
}
