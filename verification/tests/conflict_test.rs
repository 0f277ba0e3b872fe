use g3::conflict::{parse_markers, ParsedRegion};

#[test]
fn parses_single_two_way_conflict() {
    let input = "\
line before
<<<<<<< HEAD
our change
=======
their change
>>>>>>> branch
line after
";
    let regions = parse_markers(input);
    assert_eq!(regions.len(), 3);

    match &regions[0] {
        ParsedRegion::Merged { lines } => assert_eq!(lines, &vec!["line before".to_string()]),
        _ => panic!("expected merged"),
    }
    match &regions[1] {
        ParsedRegion::Conflict { ours, theirs, base } => {
            assert_eq!(ours, &vec!["our change".to_string()]);
            assert_eq!(theirs, &vec!["their change".to_string()]);
            assert_eq!(base, &None);
        }
        _ => panic!("expected conflict"),
    }
    match &regions[2] {
        ParsedRegion::Merged { lines } => assert_eq!(lines, &vec!["line after".to_string()]),
        _ => panic!("expected merged"),
    }
}

#[test]
fn parses_diff3_conflict_with_base() {
    let input = "\
<<<<<<< HEAD
ours
||||||| base
original
=======
theirs
>>>>>>> branch
";
    let regions = parse_markers(input);
    assert_eq!(regions.len(), 1);
    match &regions[0] {
        ParsedRegion::Conflict { ours, theirs, base } => {
            assert_eq!(ours, &vec!["ours".to_string()]);
            assert_eq!(theirs, &vec!["theirs".to_string()]);
            assert_eq!(base, &Some(vec!["original".to_string()]));
        }
        _ => panic!("expected conflict"),
    }
}

#[test]
fn parses_two_adjacent_conflicts() {
    let input = "\
<<<<<<< HEAD
a
=======
b
>>>>>>> x
<<<<<<< HEAD
c
=======
d
>>>>>>> x
";
    let regions = parse_markers(input);
    assert_eq!(regions.len(), 2);
    assert!(matches!(regions[0], ParsedRegion::Conflict { .. }));
    assert!(matches!(regions[1], ParsedRegion::Conflict { .. }));
}

#[test]
fn malformed_unpaired_markers_fall_back_to_one_manual_region() {
    let input = "\
<<<<<<< HEAD
ours with no closing marker
line two
";
    let regions = parse_markers(input);
    assert_eq!(regions.len(), 1);
    match &regions[0] {
        ParsedRegion::Conflict { ours, theirs, base } => {
            // Fallback: whole content becomes the ours side, empty theirs.
            assert!(ours.iter().any(|l| l.contains("no closing marker")));
            assert_eq!(theirs, &Vec::<String>::new());
            assert_eq!(base, &None);
        }
        _ => panic!("expected fallback conflict"),
    }
}

fn lines(v: &[&str]) -> Vec<String> {
    v.iter().map(|s| s.to_string()).collect()
}

#[test]
fn fallback_ours_holds_every_line() {
    let input = "keep\n<<<<<<< HEAD\nx\n>>>>>>> other\n";
    let regions = parse_markers(input);
    assert_eq!(
        regions,
        vec![ParsedRegion::Conflict {
            ours: lines(&["keep", "<<<<<<< HEAD", "x", ">>>>>>> other"]),
            theirs: vec![],
            base: None,
        }]
    );
}

#[test]
fn nested_start_marker_is_malformed() {
    let input = "<<<<<<< a\n<<<<<<< b\n=======\n>>>>>>> c\n";
    let regions = parse_markers(input);
    assert_eq!(regions.len(), 1);
    assert!(matches!(&regions[0], ParsedRegion::Conflict { theirs, base: None, .. } if theirs.is_empty()));
}

#[test]
fn base_without_separator_is_malformed() {
    let input = "<<<<<<< a\nx\n||||||| b\ny\n>>>>>>> c\n";
    let regions = parse_markers(input);
    assert_eq!(regions.len(), 1);
    assert!(matches!(&regions[0], ParsedRegion::Conflict { ours, .. } if ours.len() == 5));
}

#[test]
fn text_without_markers_is_one_merged_region() {
    assert_eq!(
        parse_markers("a\r\nb\nc"),
        vec![ParsedRegion::Merged { lines: lines(&["a", "b", "c"]) }]
    );
    assert_eq!(parse_markers(""), vec![]);
}

#[test]
fn markers_may_carry_labels_and_empty_sides() {
    let input = "<<<<<<< HEAD (mine)\n=======\n>>>>>>> feature/x\nend\n";
    assert_eq!(
        parse_markers(input),
        vec![
            ParsedRegion::Conflict { ours: vec![], theirs: vec![], base: None },
            ParsedRegion::Merged { lines: lines(&["end"]) },
        ]
    );
}

fn render(regions: &[ParsedRegion]) -> Vec<String> {
    let mut out = Vec::new();
    for r in regions {
        match r {
            ParsedRegion::Merged { lines } => out.extend(lines.iter().cloned()),
            ParsedRegion::Conflict { ours, theirs, base } => {
                out.push("<<<<<<<".to_string());
                out.extend(ours.iter().cloned());
                if let Some(b) = base {
                    out.push("|||||||".to_string());
                    out.extend(b.iter().cloned());
                }
                out.push("=======".to_string());
                out.extend(theirs.iter().cloned());
                out.push(">>>>>>>".to_string());
            }
        }
    }
    out
}

#[test]
fn well_formed_markers_round_trip_up_to_labels() {
    let input = "top\n<<<<<<< HEAD\na\n||||||| merged common ancestors\nb\n======= x\nc\n>>>>>>> topic\nmid\n<<<<<<<\n=======\nd\n>>>>>>>\n";
    let rendered = render(&parse_markers(input));
    let given: Vec<&str> = input.lines().collect();
    assert_eq!(rendered.len(), given.len());
    for (put, line) in rendered.iter().zip(given.iter()) {
        assert!(put == line || line.starts_with(put.as_str()), "{put} / {line}");
    }
}
