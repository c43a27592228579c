use git_mediate::parse::{chunks_to_string, parse_conflicts};
use git_mediate::resolve::resolve_chunks;

#[test]
fn test_true_conflict_not_resolved() {
    let content = "\
<<<<<<< HEAD
line modified by A
||||||| ancestor
original line
=======
line modified by B
>>>>>>> branch
";
    let chunks = parse_conflicts(content).unwrap();
    let (_, stats) = resolve_chunks(chunks);

    assert_eq!(stats.resolved, 0);
    assert!(stats.failed > 0 || stats.partially_resolved > 0);
}

#[test]
fn test_one_side_unchanged_resolves() {
    let content = "\
header
<<<<<<< HEAD
unchanged base line
||||||| ancestor
unchanged base line
=======
new line from theirs
>>>>>>> branch
footer
";
    let chunks = parse_conflicts(content).unwrap();
    let (resolved, stats) = resolve_chunks(chunks);

    assert_eq!(stats.resolved, 1);
    assert_eq!(stats.failed, 0);

    let output = chunks_to_string(&resolved);
    assert!(!output.contains("<<<<<<<"));
    assert!(output.contains("header"));
    assert!(output.contains("new line from theirs"));
    assert!(output.contains("footer"));
}

#[test]
fn test_multiple_conflicts_partial_resolution() {
    let content = "\
<<<<<<< HEAD
base
||||||| ancestor
base
=======
theirs1
>>>>>>> branch
between
<<<<<<< HEAD
ours2
||||||| ancestor
base2
=======
theirs2
>>>>>>> branch
";
    let chunks = parse_conflicts(content).unwrap();
    let (resolved, stats) = resolve_chunks(chunks);

    assert_eq!(stats.resolved, 1);
    assert_eq!(stats.failed, 1);

    let output = chunks_to_string(&resolved);
    assert!(output.contains("theirs1"));
    assert!(output.contains("<<<<<<<"));
}

#[test]
fn test_roundtrip_preserves_unresolvable() {
    let content = "\
before
<<<<<<< HEAD
ours
||||||| ancestor
base
=======
theirs
>>>>>>> branch
after
";
    let chunks = parse_conflicts(content).unwrap();
    let (resolved, _) = resolve_chunks(chunks);
    let output = chunks_to_string(&resolved);

    assert_eq!(content, output);
}

#[test]
fn resolving_a_typical_merge_result() {
    let content = "\
line1
<<<<<<< HEAD
line2
modified-by-b
||||||| ancestor
line2
line3
=======
modified-by-a
line3
>>>>>>> branch-a
";
    let chunks = parse_conflicts(content).unwrap();
    let (resolved, stats) = resolve_chunks(chunks);
    let output = chunks_to_string(&resolved);
    assert_eq!(stats.total_conflicts(), 1);
    if stats.is_fully_resolved() {
        assert!(!output.contains("<<<<<<<"));
    } else {
        assert!(output.contains("<<<<<<<"));
    }
}
