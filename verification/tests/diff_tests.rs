use git_mediate::diff::{show_diff2, show_side_diffs, try_show_diff2, try_show_side_diffs};
use git_mediate::types::{Conflict, ConflictBody, ConflictMarkers, ConflictSides, SrcContent};

fn body(lines: &[&str]) -> ConflictBody {
    ConflictBody::from(
        lines
            .iter()
            .map(|line| line.to_string())
            .collect::<Vec<_>>(),
    )
}

fn make_conflict(ours: &[&str], base: &[&str], theirs: &[&str]) -> Conflict {
    Conflict {
        markers: ConflictMarkers::new(
            SrcContent::new(1, "<<<<<<< HEAD".to_string()),
            SrcContent::new(2, "||||||| base".to_string()),
            SrcContent::new(3, "=======".to_string()),
            SrcContent::new(4, ">>>>>>> feature".to_string()),
        ),
        bodies: ConflictSides::new(body(ours), body(base), body(theirs)),
    }
}

#[test]
fn test_side_diffs_no_color() {
    let c = make_conflict(&["changed_a"], &["original"], &["changed_b"]);
    let output = show_side_diffs(&c, false, 3);

    assert!(output.contains("HEAD"));
    assert!(output.contains("feature"));
    assert!(output.contains("-original"));
    assert!(output.contains("+changed_a"));
    assert!(output.contains("+changed_b"));
}

#[test]
fn test_diff2_no_color() {
    let c = make_conflict(&["line_a"], &["base"], &["line_b"]);
    let output = show_diff2(&c, false, 3);

    assert!(output.contains("-line_a"));
    assert!(output.contains("+line_b"));
}

#[test]
fn test_side_diffs_one_side_unchanged() {
    let c = make_conflict(&["original"], &["original"], &["changed"]);
    let output = show_side_diffs(&c, false, 3);

    assert!(output.contains("+changed"));
    assert!(output.contains("-original"));
}

#[test]
fn side_diffs_exact_layout() {
    let c = make_conflict(&["changed_a"], &["original"], &["changed_b"]);
    assert_eq!(
        show_side_diffs(&c, false, 3),
        "--- HEAD, line 1\n-original\n+changed_a\n--- feature, line 1\n-original\n+changed_b\n"
    );
}

#[test]
fn diff2_exact_layout() {
    let c = make_conflict(&["line_a"], &["base"], &["line_b"]);
    assert_eq!(show_diff2(&c, false, 3), "--- line 1\n-line_a\n+line_b\n");
}

#[test]
fn unnamed_markers_fall_back_to_side_words() {
    let c = Conflict {
        markers: ConflictMarkers::new(
            SrcContent::new(9, "<<<<<<<".to_string()),
            SrcContent::new(10, "|||||||".to_string()),
            SrcContent::new(11, "=======".to_string()),
            SrcContent::new(12, ">>>>>>>".to_string()),
        ),
        bodies: ConflictSides::new(body(&["a"]), body(&["b"]), body(&["c"])),
    };
    let out = show_side_diffs(&c, false, 3);
    assert!(out.starts_with("--- ours, line 9\n"));
    assert!(out.contains("--- theirs, line 9\n"));
}

#[test]
fn context_trims_kept_lines() {
    let c = make_conflict(
        &["k1", "k2", "k3", "new", "k4", "k5"],
        &["k1", "k2", "k3", "old", "k4", "k5"],
        &["k1", "k2", "k3", "old", "k4", "k5"],
    );
    let out = show_diff2(&c, false, 1);
    assert_eq!(out, "--- line 1\n k3\n-new\n+old\n k4\n");
}

#[test]
fn colored_diff_keeps_the_text() {
    let c = make_conflict(&["line_a"], &["base"], &["line_b"]);
    let out = show_diff2(&c, true, 3);
    assert!(out.contains("-line_a"));
    assert!(out.contains("+line_b"));
}

#[test]
fn identical_long_sides_cannot_be_trimmed() {
    let same = ["a", "b", "c", "d", "e"];
    let c = make_conflict(&same, &["x"], &same);
    assert!(try_show_diff2(&c, false, 1).is_none());
    assert!(try_show_diff2(&c, false, 3).is_some());
    let c2 = make_conflict(&["x"], &["y"], &["z"]);
    assert!(try_show_side_diffs(&c2, false, 0).is_some());
}

#[test]
fn colored_diff_marks_changes() {
    colored::control::set_override(true);
    let c = make_conflict(&["line_a"], &["base"], &["line_b"]);
    assert_eq!(
        show_diff2(&c, true, 3),
        "--- line 1\n\u{1b}[31m-line_a\u{1b}[0m\n\u{1b}[32m+line_b\u{1b}[0m\n"
    );
}

fn change(sign: char, text: &str) -> (char, String) {
    (sign, text.to_string())
}

#[test]
fn render_changes_trims_and_renders() {
    let changes = vec![
        change(' ', "k1\n"),
        change(' ', "k2\n"),
        change('-', "old\n"),
        change('+', "new\n"),
        change(' ', "k3\n"),
        change(' ', "k4"),
    ];
    assert_eq!(
        git_mediate::diff::render_changes(&changes, false, 1),
        Some(" k2\n-old\n+new\n k3\n".to_string())
    );
    assert_eq!(
        git_mediate::diff::render_changes(&changes, false, 0),
        Some("-old\n+new\n".to_string())
    );
    let kept = vec![change(' ', "a\n"), change(' ', "b\n"), change(' ', "c\n")];
    assert_eq!(git_mediate::diff::render_changes(&kept, false, 1), None);
    assert_eq!(git_mediate::diff::render_changes(&[], false, 1), Some(String::new()));
}

#[test]
fn colour_goes_on_after_a_reset_inside_a_line() {
    colored::control::set_override(true);
    let c = make_conflict(&["a\u{1b}[0mb"], &["base"], &["c"]);
    assert_eq!(
        show_diff2(&c, true, 3),
        "--- line 1\n\u{1b}[31m-a\u{1b}[0m\u{1b}[31mb\u{1b}[0m\n\u{1b}[32m+c\u{1b}[0m\n"
    );
}
