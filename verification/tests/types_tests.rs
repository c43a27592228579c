use git_mediate::types::{
    Conflict, ConflictBody, ConflictMarkers, ConflictSides, FileResult, SrcContent,
};

fn body(lines: &[&str]) -> ConflictBody {
    ConflictBody::from(
        lines
            .iter()
            .map(|line| line.to_string())
            .collect::<Vec<_>>(),
    )
}

#[test]
fn test_conflict_text_roundtrip_uses_renamed_markers() {
    let conflict = Conflict {
        markers: ConflictMarkers::new(
            SrcContent::new(12, "<<<<<<< HEAD".to_string()),
            SrcContent::new(15, "||||||| ancestor".to_string()),
            SrcContent::new(18, "=======".to_string()),
            SrcContent::new(21, ">>>>>>> branch".to_string()),
        ),
        bodies: ConflictSides::new(body(&["ours"]), body(&["base"]), body(&["theirs"])),
    };

    assert_eq!(
        conflict.to_conflict_text(),
        "<<<<<<< HEAD\nours\n||||||| ancestor\nbase\n=======\ntheirs\n>>>>>>> branch\n"
    );
}

#[test]
fn test_conflict_line_numbers_use_conflict_markers() {
    let conflict = Conflict {
        markers: ConflictMarkers::new(
            SrcContent::new(7, "<<<<<<< HEAD".to_string()),
            SrcContent::new(10, "||||||| ancestor".to_string()),
            SrcContent::new(13, "=======".to_string()),
            SrcContent::new(15, ">>>>>>> branch".to_string()),
        ),
        bodies: ConflictSides::new(body(&[]), body(&[]), body(&[])),
    };

    assert_eq!(conflict.start_line(), 7);
    assert_eq!(conflict.end_line(), 15);
}

#[test]
fn body_accessors() {
    let mut b = ConflictBody::new(Vec::new());
    assert!(b.is_empty());
    b.push("one".to_string());
    b.extend(vec!["two".to_string(), "three".to_string()]);
    assert_eq!(b.len(), 3);
    assert_eq!(b.lines(), &["one", "two", "three"]);
    assert_eq!(b.to_text(), "one\ntwo\nthree\n");
    assert_eq!(b.into_lines(), vec!["one", "two", "three"]);
}

#[test]
fn sides_helpers() {
    let s = ConflictSides::new(1, 2, 1);
    assert!(!s.all_equal());
    assert!(ConflictSides::new(3, 3, 3).all_equal());
    let d = s.map(|x| x * 10);
    assert_eq!((d.ours, d.base, d.theirs), (10, 20, 10));
}

#[test]
fn file_result_counts() {
    let r = FileResult { resolved: 2, partially_resolved: 0, failed: 0 };
    assert!(r.is_fully_resolved());
    assert_eq!(r.total_conflicts(), 2);
    let r = FileResult { resolved: 1, partially_resolved: 1, failed: 3 };
    assert!(!r.is_fully_resolved());
    assert_eq!(r.total_conflicts(), 5);
}

#[test]
fn sides_as_ref_and_zip_with() {
    let s = ConflictSides::new("a".to_string(), "b".to_string(), "c".to_string());
    let r = s.as_ref();
    assert_eq!((r.ours.as_str(), r.base.as_str(), r.theirs.as_str()), ("a", "b", "c"));
    let z = ConflictSides::new(1, 2, 3).zip_with(ConflictSides::new(10, 20, 30), |x, y| x + y);
    assert_eq!((z.ours, z.base, z.theirs), (11, 22, 33));
}

#[test]
fn body_as_a_slice_and_iterators() {
    let b = ConflictBody::from(vec!["x".to_string(), "y".to_string()]);
    assert_eq!(b.first().map(String::as_str), Some("x"));
    let r: &[String] = b.as_ref();
    assert_eq!(r.len(), 2);
    let borrowed: Vec<&String> = (&b).into_iter().collect();
    assert_eq!(borrowed, vec!["x", "y"]);
    let owned: Vec<String> = b.into_iter().collect();
    assert_eq!(owned, vec!["x", "y"]);
}
