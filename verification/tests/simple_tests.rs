use git_mediate::parse::{chunks_to_string, parse_conflicts};
use git_mediate::simple::{resolve_chunks, resolve_conflict};
use git_mediate::types::{
    Conflict, ConflictBody, ConflictMarkers, ConflictSides, Resolution, SrcContent,
};

fn body(lines: &[&str]) -> ConflictBody {
    ConflictBody::from(lines.iter().map(|s| s.to_string()).collect::<Vec<_>>())
}

fn lines(body: &ConflictBody) -> Vec<&str> {
    body.lines().iter().map(String::as_str).collect()
}

fn make_conflict(a: &[&str], base: &[&str], b: &[&str]) -> Conflict {
    Conflict {
        markers: ConflictMarkers::new(
            SrcContent::new(1, "<<<<<<< HEAD".to_string()),
            SrcContent::new(2, "||||||| base".to_string()),
            SrcContent::new(3, "=======".to_string()),
            SrcContent::new(4, ">>>>>>> branch".to_string()),
        ),
        bodies: ConflictSides::new(body(a), body(base), body(b)),
    }
}

#[test]
fn test_all_equal() {
    let c = make_conflict(&["same"], &["same"], &["same"]);
    assert!(matches!(resolve_conflict(&c), Resolution::Resolved(text) if text == "same\n"));
}

#[test]
fn test_a_unchanged_take_b() {
    let c = make_conflict(&["base"], &["base"], &["theirs"]);
    assert!(matches!(resolve_conflict(&c), Resolution::Resolved(text) if text == "theirs\n"));
}

#[test]
fn test_b_unchanged_take_a() {
    let c = make_conflict(&["ours"], &["base"], &["base"]);
    assert!(matches!(resolve_conflict(&c), Resolution::Resolved(text) if text == "ours\n"));
}

#[test]
fn test_both_same_change() {
    let c = make_conflict(&["new"], &["old"], &["new"]);
    assert!(matches!(resolve_conflict(&c), Resolution::Resolved(text) if text == "new\n"));
}

#[test]
fn test_true_conflict() {
    let c = make_conflict(&["ours"], &["base"], &["theirs"]);
    let res = resolve_conflict(&c);
    assert!(matches!(res, Resolution::Unchanged));
}

#[test]
fn test_prefix_suffix_reduction() {
    let c = make_conflict(
        &["common1", "ours", "common2"],
        &["common1", "base", "common2"],
        &["common1", "theirs", "common2"],
    );
    let res = resolve_conflict(&c);
    match res {
        Resolution::PartiallyReduced(reduced) => {
            assert_eq!(lines(&reduced.bodies.ours), vec!["ours"]);
            assert_eq!(lines(&reduced.bodies.base), vec!["base"]);
            assert_eq!(lines(&reduced.bodies.theirs), vec!["theirs"]);
        }
        other => panic!("expected PartiallyReduced, got {:?}", other),
    }
}

#[test]
fn test_prefix_suffix_resolves() {
    let c = make_conflict(
        &["common1", "base", "common2"],
        &["common1", "base", "common2"],
        &["common1", "theirs", "common2"],
    );
    let res = resolve_conflict(&c);
    assert!(matches!(res, Resolution::Resolved(_)));
}

#[test]
fn test_resolve_chunks_mixed() {
    let input = "\
before
<<<<<<< HEAD
base
||||||| base
base
=======
theirs
>>>>>>> branch
middle
<<<<<<< HEAD
ours
||||||| base
base
=======
theirs
>>>>>>> branch
after
";
    let chunks = parse_conflicts(input).unwrap();
    let (resolved, stats) = resolve_chunks(chunks);

    assert_eq!(stats.resolved, 1);
    assert_eq!(stats.failed, 1);

    let output = chunks_to_string(&resolved);
    assert!(output.contains("before\n"));
    assert!(output.contains("theirs\n"));
    assert!(output.contains("middle\n"));
    assert!(output.contains("<<<<<<<"));
}

#[test]
fn test_empty_sides() {
    let c = make_conflict(&[], &["base"], &["base"]);
    let res = resolve_conflict(&c);
    assert!(matches!(res, Resolution::Resolved(text) if text.is_empty()));
}

#[test]
fn test_both_deleted() {
    let c = make_conflict(&[], &["base"], &[]);
    let res = resolve_conflict(&c);
    assert!(matches!(res, Resolution::Resolved(text) if text.is_empty()));
}

#[test]
fn test_prefix_reduction_then_resolved() {
    let c = make_conflict(
        &["common", "base_line"],
        &["common", "base_line"],
        &["common", "new_line"],
    );
    assert!(matches!(resolve_conflict(&c), Resolution::Resolved(_)));
}

#[test]
fn test_reduce_resolves_when_one_side_matches_base() {
    let c = make_conflict(
        &["header", "changed_by_a", "footer"],
        &["header", "original", "footer"],
        &["header", "original", "footer"],
    );
    let res = resolve_conflict(&c);
    match res {
        Resolution::Resolved(text) => {
            assert_eq!(text, "header\nchanged_by_a\nfooter\n");
        }
        other => panic!("expected Resolved, got {:?}", other),
    }
}

#[test]
fn test_reduce_resolves_both_same_inner_change() {
    let c = make_conflict(
        &["header", "new_val", "footer"],
        &["header", "old_val", "footer"],
        &["header", "new_val", "footer"],
    );
    let res = resolve_conflict(&c);
    match res {
        Resolution::Resolved(text) => {
            assert_eq!(text, "header\nnew_val\nfooter\n");
        }
        other => panic!("expected Resolved, got {:?}", other),
    }
}

#[test]
fn test_line_endings_crlf_vs_lf_a_unchanged() {
    let c = make_conflict(&["same\r"], &["same"], &["changed"]);
    let res = resolve_conflict(&c);
    assert!(matches!(res, Resolution::Resolved(text) if text == "changed\n"));
}

#[test]
fn test_line_endings_all_same_after_strip() {
    let c = make_conflict(&["line\r"], &["line"], &["line\r"]);
    let res = resolve_conflict(&c);
    assert!(matches!(res, Resolution::Resolved(_)));
}

#[test]
fn test_line_endings_no_effect_on_real_conflict() {
    let c = make_conflict(&["ours\r"], &["base"], &["theirs"]);
    let res = resolve_conflict(&c);
    assert!(matches!(
        res,
        Resolution::Unchanged | Resolution::PartiallyReduced(_)
    ));
}

#[test]
fn test_indent_reindent_plus_content_change() {
    let c = make_conflict(
        &["        foo", "        bar"],
        &["    foo", "    bar"],
        &["    foo", "    baz"],
    );
    let res = resolve_conflict(&c);
    match res {
        Resolution::Resolved(text) => {
            assert_eq!(text, "        foo\n        baz\n");
        }
        other => panic!("expected Resolved, got {:?}", other),
    }
}

#[test]
fn test_indent_content_change_plus_reindent() {
    let c = make_conflict(
        &["    foo", "    baz"],
        &["    foo", "    bar"],
        &["        foo", "        bar"],
    );
    let res = resolve_conflict(&c);
    match res {
        Resolution::Resolved(text) => {
            assert_eq!(text, "        foo\n        baz\n");
        }
        other => panic!("expected Resolved, got {:?}", other),
    }
}

#[test]
fn test_indent_both_reindented_same_way() {
    let c = make_conflict(
        &["        foo", "        baz"],
        &["    foo", "    bar"],
        &["        foo", "        bar"],
    );
    let res = resolve_conflict(&c);
    match res {
        Resolution::Resolved(text) => {
            assert_eq!(text, "        foo\n        baz\n");
        }
        other => panic!("expected Resolved, got {:?}", other),
    }
}

#[test]
fn test_indent_same_indent_no_help() {
    let c = make_conflict(&["    ours"], &["    base"], &["    theirs"]);
    let res = resolve_conflict(&c);
    assert!(matches!(res, Resolution::Unchanged | Resolution::PartiallyReduced(_)));
}

#[test]
fn test_indent_conflicting_reindent_and_content() {
    let c = make_conflict(&["        ours"], &["    base"], &["      theirs"]);
    let res = resolve_conflict(&c);
    assert!(matches!(res, Resolution::Unchanged | Resolution::PartiallyReduced(_)));
}

#[test]
fn test_indent_only_reindent_no_content_change() {
    let c = make_conflict(
        &["        foo", "        bar"],
        &["    foo", "    bar"],
        &["    foo", "    bar"],
    );
    let res = resolve_conflict(&c);
    match res {
        Resolution::Resolved(text) => {
            assert_eq!(text, "        foo\n        bar\n");
        }
        other => panic!("expected Resolved, got {:?}", other),
    }
}

#[test]
fn test_indent_no_indent_at_all() {
    let c = make_conflict(&["ours"], &["base"], &["theirs"]);
    let res = resolve_conflict(&c);
    assert!(matches!(res, Resolution::Unchanged));
}

#[test]
fn simple_trivial_drops_carriage_returns() {
    let c = make_conflict(&["a\r"], &["b"], &["a\r"]);
    assert_eq!(resolve_conflict(&c), Resolution::Resolved("a\n".to_string()));
    let c = make_conflict(&["b"], &["b"], &["t\r", "u"]);
    assert_eq!(resolve_conflict(&c), Resolution::Resolved("t\nu\n".to_string()));
}
