use git_mediate::resolve::window::ConflictWindow;
use git_mediate::types::{Conflict, ConflictBody, ConflictMarkers, ConflictSides, SrcContent};

fn body(lines: &[&str]) -> ConflictBody {
    ConflictBody::from(
        lines
            .iter()
            .map(|line| line.to_string())
            .collect::<Vec<_>>(),
    )
}

fn lines(body: &ConflictBody) -> Vec<&str> {
    body.lines().iter().map(String::as_str).collect()
}

fn make_conflict(ours: &[&str], base: &[&str], theirs: &[&str]) -> Conflict {
    Conflict {
        markers: ConflictMarkers::new(
            SrcContent::new(1, "<<<<<<< HEAD".to_string()),
            SrcContent::new(2, "||||||| base".to_string()),
            SrcContent::new(3, "=======".to_string()),
            SrcContent::new(4, ">>>>>>> branch".to_string()),
        ),
        bodies: ConflictSides::new(body(ours), body(base), body(theirs)),
    }
}

#[test]
fn test_window_trims_shared_prefix_with_empty_base() {
    let window = ConflictWindow::from_conflict(&make_conflict(
        &["shared", "ours"],
        &[],
        &["shared", "theirs"],
    ));

    assert_eq!(lines(&window.prefix), vec!["shared"]);
    assert_eq!(lines(&window.core.ours), vec!["ours"]);
    assert!(window.core.base.is_empty());
    assert_eq!(lines(&window.core.theirs), vec!["theirs"]);
    assert!(window.suffix.is_empty());
}

#[test]
fn test_window_trims_shared_suffix_with_empty_base() {
    let window = ConflictWindow::from_conflict(&make_conflict(
        &["ours", "shared"],
        &[],
        &["theirs", "shared"],
    ));

    assert!(window.prefix.is_empty());
    assert_eq!(lines(&window.core.ours), vec!["ours"]);
    assert!(window.core.base.is_empty());
    assert_eq!(lines(&window.core.theirs), vec!["theirs"]);
    assert_eq!(lines(&window.suffix), vec!["shared"]);
}

#[test]
fn test_window_clamps_to_empty_core_when_everything_matches() {
    let window = ConflictWindow::from_conflict(&make_conflict(&["shared"], &[], &["shared"]));

    assert_eq!(lines(&window.prefix), vec!["shared"]);
    assert!(window.core.ours.is_empty());
    assert!(window.core.base.is_empty());
    assert!(window.core.theirs.is_empty());
    assert!(window.suffix.is_empty());
}

#[test]
fn test_window_trims_shared_prefix_with_empty_theirs() {
    let window = ConflictWindow::from_conflict(&make_conflict(
        &["shared", "ours"],
        &["shared", "base"],
        &[],
    ));

    assert!(window.prefix.is_empty());
    assert_eq!(lines(&window.core.ours), vec!["shared", "ours"]);
    assert_eq!(lines(&window.core.base), vec!["shared", "base"]);
    assert!(window.core.theirs.is_empty());
    assert!(window.suffix.is_empty());
}

#[test]
fn test_window_trims_shared_suffix_with_empty_ours() {
    let window = ConflictWindow::from_conflict(&make_conflict(
        &[],
        &["base", "shared"],
        &["theirs", "shared"],
    ));

    assert!(window.prefix.is_empty());
    assert!(window.core.ours.is_empty());
    assert_eq!(lines(&window.core.base), vec!["base", "shared"]);
    assert_eq!(lines(&window.core.theirs), vec!["theirs", "shared"]);
    assert!(window.suffix.is_empty());
}

#[test]
fn window_with_all_sides_sharing_both_ends() {
    let c = make_conflict(&["h", "a", "f"], &["h", "b", "f"], &["h", "c", "f"]);
    let w = ConflictWindow::from_conflict(&c);
    assert!(w.is_reduced());
    assert_eq!(lines(&w.prefix), vec!["h"]);
    assert_eq!(lines(&w.suffix), vec!["f"]);
    assert_eq!(lines(&w.surround(body(&["x"]))), vec!["h", "x", "f"]);
    assert_eq!(
        w.render_reduced_conflict_text(&c),
        "h\n<<<<<<< HEAD\na\n||||||| base\nb\n=======\nc\n>>>>>>> branch\nf\n"
    );
}

#[test]
fn window_without_shared_lines_is_not_reduced() {
    let w = ConflictWindow::from_conflict(&make_conflict(&["a"], &["b"], &["c"]));
    assert!(!w.is_reduced());
}

#[test]
fn window_keeps_both_sides() {
    let c = make_conflict(&["a", "x", "z"], &["a"], &["a", "y", "z"]);
    let w = ConflictWindow::from_conflict(&c);
    assert_eq!(lines(&w.surround(w.core.ours.clone())), vec!["a", "x", "z"]);
    assert_eq!(lines(&w.surround(w.core.theirs.clone())), vec!["a", "y", "z"]);
    // The base is all shared prefix here, so its window does not give it back.
    assert_eq!(lines(&w.surround(w.core.base.clone())), vec!["a", "z"]);
}
