use git_mediate::parse::{chunks_to_string, parse_conflicts};
use git_mediate::resolve::internal::whitespace_equivalent;
use git_mediate::resolve::{
    resolve_chunks, resolve_chunks_with_options, resolve_conflict, resolve_conflict_with_options,
    try_resolve_chunks_with_options, ResolveOptions,
};
use git_mediate::types::{
    Conflict, ConflictBody, ConflictMarkers, ConflictSides, Resolution, SrcContent,
};

fn body(lines: &[&str]) -> ConflictBody {
    ConflictBody::from(
        lines
            .iter()
            .map(|line| line.to_string())
            .collect::<Vec<_>>(),
    )
}

fn make_conflict(ours: &[&str], base: &[&str], theirs: &[&str]) -> Conflict {
    Conflict {
        markers: ConflictMarkers::new(
            SrcContent::new(1, "<<<<<<< HEAD".to_string()),
            SrcContent::new(2, "||||||| base".to_string()),
            SrcContent::new(3, "=======".to_string()),
            SrcContent::new(4, ">>>>>>> branch".to_string()),
        ),
        bodies: ConflictSides::new(body(ours), body(base), body(theirs)),
    }
}

#[test]
fn test_default_options_match_upstream() {
    let opts = ResolveOptions::default();
    assert!(opts.trivial);
    assert!(opts.reduce);
    assert!(opts.line_endings);
    assert!(opts.split_markers);
    assert!(!opts.indentation);
    assert!(!opts.lines_added_around);
    assert!(!opts.reduce_deleted);
    assert_eq!(opts.untabify, None);
}

#[test]
fn test_partial_reduction_preserves_context_outside_markers() {
    let input = "\
<<<<<<< HEAD
common
ours
tail
||||||| ancestor
common
base
tail
=======
common
theirs
tail
>>>>>>> branch
";
    let chunks = parse_conflicts(input).unwrap();
    let (resolved, stats) = resolve_chunks(chunks);

    assert_eq!(stats.partially_resolved, 1);
    assert_eq!(
        chunks_to_string(&resolved),
        "common\n<<<<<<< HEAD\nours\n||||||| ancestor\nbase\n=======\ntheirs\n>>>>>>> branch\ntail\n"
    );
}

#[test]
fn test_partial_reduction_handles_empty_base_body() {
    let input = "\
<<<<<<< HEAD
shared
ours
||||||| ancestor
=======
shared
theirs
>>>>>>> branch
";
    let chunks = parse_conflicts(input).unwrap();
    let (resolved, stats) = resolve_chunks(chunks);

    assert_eq!(stats.partially_resolved, 1);
    assert_eq!(
        chunks_to_string(&resolved),
        "shared\n<<<<<<< HEAD\nours\n||||||| ancestor\n=======\ntheirs\n>>>>>>> branch\n"
    );
}

#[test]
fn test_partial_reduction_handles_empty_base_body_symmetrically() {
    let input = "\
<<<<<<< HEAD
shared
||||||| ancestor
=======
shared
theirs
>>>>>>> branch
";
    let chunks = parse_conflicts(input).unwrap();
    let (resolved, stats) = resolve_chunks(chunks);

    assert_eq!(stats.resolved, 1);
    assert_eq!(chunks_to_string(&resolved), "shared\ntheirs\n");
}

#[test]
fn test_indentation_is_opt_in() {
    let conflict = make_conflict(
        &["        foo", "        bar"],
        &["    foo", "    bar"],
        &["    foo", "    baz"],
    );

    assert!(matches!(conflict.resolve(), Resolution::Unchanged));

    let opts = ResolveOptions {
        indentation: true,
        ..ResolveOptions::default()
    };
    assert!(matches!(
        conflict.resolve_with_options(&opts),
        Resolution::Resolved(text) if text == "        foo\n        baz\n"
    ));
}

#[test]
fn test_lines_added_around_option() {
    let conflict = make_conflict(&["before", "base"], &["base"], &["base", "after"]);

    assert!(matches!(conflict.resolve(), Resolution::Unchanged));

    let opts = ResolveOptions {
        lines_added_around: true,
        ..ResolveOptions::default()
    };
    assert!(matches!(
        conflict.resolve_with_options(&opts),
        Resolution::Resolved(text) if text == "before\nbase\nafter\n"
    ));
}

#[test]
fn test_split_markers_are_enabled_by_default() {
    let input = "\
<<<<<<< HEAD
base
~~~~~~~
base
||||||| base
base
~~~~~~~
base
=======
theirs
~~~~~~~
base
>>>>>>> branch
";
    let chunks = parse_conflicts(input).unwrap();
    let (resolved, stats) = resolve_chunks(chunks);
    assert_eq!(stats.resolved, 1);
    assert_eq!(chunks_to_string(&resolved), "theirs\nbase\n");
}

#[test]
fn test_mismatched_split_markers_fall_back_to_unsplit_conflict() {
    let input = "\
<<<<<<< HEAD
ours
~~~~~~~
still-ours
||||||| base
base
=======
theirs
~~~~~~~
still-theirs
>>>>>>> branch
";
    let chunks = parse_conflicts(input).unwrap();
    let (resolved, stats) = resolve_chunks(chunks);

    assert_eq!(stats.failed, 1);
    assert_eq!(chunks_to_string(&resolved), input);
}

#[test]
fn test_untabify_option() {
    let conflict = make_conflict(&["Hello\tBooya"], &["Hello   Booya"], &["Hello   Booya"]);
    let opts = ResolveOptions {
        untabify: Some(4),
        ..ResolveOptions::default()
    };
    assert!(matches!(
        conflict.resolve_with_options(&opts),
        Resolution::Resolved(text) if text == "Hello   Booya\n"
    ));
}

#[test]
fn test_line_ending_fix_resolves_deleted_theirs() {
    let conflict = make_conflict(
        &["fn main() {\r", "\r", "    println!(\"hi\");\r", "}\r"],
        &["fn main() {", "", "    println!(\"hi\");", "}"],
        &[],
    );

    assert!(matches!(
        conflict.resolve(),
        Resolution::Resolved(text) if text.is_empty()
    ));
}

#[test]
fn test_line_ending_fix_resolves_deleted_ours() {
    let conflict = make_conflict(&[], &["fn main() {}\r"], &["fn main() {}"]);

    assert!(matches!(
        conflict.resolve(),
        Resolution::Resolved(text) if text.is_empty()
    ));
}

#[test]
fn test_line_ending_fix_runs_before_reduction_with_empty_side() {
    let conflict = make_conflict(&["shared\r", "ours\r"], &[], &["shared", "theirs"]);

    assert!(matches!(
        conflict.resolve(),
        Resolution::PartiallyReduced(reduced)
            if reduced.bodies.ours == body(&["ours\r"])
                && reduced.bodies.base == body(&[])
                && reduced.bodies.theirs == body(&["theirs\r"])
    ));
}

#[test]
fn test_line_ending_fix_reduces_delete_modify_conflict() {
    let conflict = make_conflict(
        &["shared\r", "ours\r", "tail\r"],
        &["shared", "base", "tail"],
        &[],
    );
    let opts = ResolveOptions {
        reduce_deleted: true,
        ..ResolveOptions::default()
    };

    assert!(matches!(
        conflict.resolve_with_options(&opts),
        Resolution::PartiallyReduced(reduced)
            if reduced.bodies.ours == body(&["ours"])
                && reduced.bodies.base == body(&["base"])
                && reduced.bodies.theirs == body(&[])
    ));
}

#[test]
fn test_delete_modify_reduction_does_not_auto_resolve_reduced_core() {
    let conflict = make_conflict(&["shared", "added"], &["shared"], &[]);
    let opts = ResolveOptions {
        reduce_deleted: true,
        ..ResolveOptions::default()
    };

    assert!(matches!(
        conflict.resolve_with_options(&opts),
        Resolution::PartiallyReduced(reduced)
            if reduced.bodies.ours == body(&["added"])
                && reduced.bodies.base == body(&[])
                && reduced.bodies.theirs == body(&[])
    ));
}

#[test]
fn test_delete_modify_reduction_is_opt_in() {
    let conflict = make_conflict(&["shared", "added"], &["shared"], &[]);

    assert!(matches!(conflict.resolve(), Resolution::Unchanged));
}

#[test]
fn test_internal_common_block_reduces_delete_modify_conflict() {
    let input = "\
<<<<<<< HEAD
ours-start
shared-a
shared-b
ours-end
||||||| base
base-start
shared-a
shared-b
base-end
=======
>>>>>>> branch
";
    let chunks = parse_conflicts(input).unwrap();
    let opts = ResolveOptions {
        reduce_deleted: true,
        ..ResolveOptions::default()
    };
    let (resolved, stats) = resolve_chunks_with_options(chunks, &opts);

    assert_eq!(stats.partially_resolved, 1);
    assert_eq!(
        chunks_to_string(&resolved),
        "\
<<<<<<< HEAD
ours-start
ours-end
||||||| base
base-start
base-end
=======
>>>>>>> branch
"
    );
}

#[test]
fn test_internal_common_block_uses_normalized_line_endings() {
    let input = "\
<<<<<<< HEAD
ours-start\r
shared\r
ours-end\r
||||||| base
base-start
shared
base-end
=======
>>>>>>> branch
";
    let chunks = parse_conflicts(input).unwrap();
    let opts = ResolveOptions {
        reduce_deleted: true,
        ..ResolveOptions::default()
    };
    let (resolved, stats) = resolve_chunks_with_options(chunks, &opts);

    assert_eq!(stats.partially_resolved, 1);
    assert_eq!(
        chunks_to_string(&resolved),
        "\
<<<<<<< HEAD
ours-start
ours-end
||||||| base
base-start
base-end
=======
>>>>>>> branch
"
    );
}

#[test]
fn free_functions_match_methods() {
    let c = make_conflict(&["base"], &["base"], &["theirs"]);
    assert_eq!(resolve_conflict(&c), Resolution::Resolved("theirs\n".to_string()));
    let opts = ResolveOptions {
        trivial: false,
        ..ResolveOptions::default()
    };
    assert_eq!(resolve_conflict_with_options(&c, &opts), Resolution::Unchanged);
}

#[test]
fn trivial_law_on_concrete_conflicts() {
    let opts = ResolveOptions::default();
    let take_theirs = make_conflict(&["b"], &["b"], &["t"]);
    assert_eq!(take_theirs.resolve_with_options(&opts), Resolution::Resolved("t\n".to_string()));
    let take_ours = make_conflict(&["o"], &["b"], &["b"]);
    assert_eq!(take_ours.resolve_with_options(&opts), Resolution::Resolved("o\n".to_string()));
    let agree = make_conflict(&["x", "y"], &["b"], &["x", "y"]);
    assert_eq!(agree.resolve_with_options(&opts), Resolution::Resolved("x\ny\n".to_string()));
}

#[test]
fn without_reduction_conflicts_stay_whole() {
    let opts = ResolveOptions {
        reduce: false,
        ..ResolveOptions::default()
    };
    let c = make_conflict(&["h", "a", "f"], &["h", "b", "f"], &["h", "c", "f"]);
    assert_eq!(c.resolve_with_options(&opts), Resolution::Unchanged);
    assert!(matches!(c.resolve(), Resolution::PartiallyReduced(_)));
}

#[test]
fn counts_add_up_to_the_conflicts() {
    let input = "\
a
<<<<<<< HEAD
x
||||||| base
x
=======
y
>>>>>>> branch
<<<<<<< HEAD
p
||||||| base
q
=======
r
>>>>>>> branch
<<<<<<< HEAD
h
m1
||||||| base
h
m2
=======
h
m3
>>>>>>> branch
";
    let chunks = parse_conflicts(input).unwrap();
    let (_, stats) = resolve_chunks(chunks);
    assert_eq!((stats.resolved, stats.partially_resolved, stats.failed), (1, 1, 1));
    assert_eq!(stats.total_conflicts(), 3);
}

#[test]
fn untabify_to_width_zero_with_tabs_cannot_run() {
    let input = "<<<<<<< HEAD\na\tb\n||||||| base\nb\n=======\nc\n>>>>>>> branch\n";
    let opts = ResolveOptions {
        untabify: Some(0),
        ..ResolveOptions::default()
    };
    assert!(try_resolve_chunks_with_options(parse_conflicts(input).unwrap(), &opts).is_none());
    let fine = ResolveOptions {
        untabify: Some(2),
        ..ResolveOptions::default()
    };
    let (_, stats) =
        try_resolve_chunks_with_options(parse_conflicts(input).unwrap(), &fine).unwrap();
    assert_eq!(stats.failed, 1);
}

#[test]
fn trivial_law_with_indentation_aware_resolution() {
    let opts = ResolveOptions {
        indentation: true,
        ..ResolveOptions::default()
    };
    let c = make_conflict(&["x"], &["x"], &["  a", "  b"]);
    assert_eq!(c.resolve_with_options(&opts), Resolution::Resolved("  a\n  b\n".to_string()));
    // A line that is nothing but the indentation comes back empty.
    let c = make_conflict(&["x"], &["x"], &["  a", "  "]);
    assert_eq!(c.resolve_with_options(&opts), Resolution::Resolved("  a\n\n".to_string()));
}

#[test]
fn resolution_rewrites_only_the_conflicts() {
    let input = "\
top
<<<<<<< HEAD
same
||||||| base
same
=======
changed
>>>>>>> branch
middle
<<<<<<< HEAD
ours
||||||| base
base
=======
theirs
>>>>>>> branch
bottom
";
    let chunks = parse_conflicts(input).unwrap();
    let (resolved, _) = resolve_chunks(chunks);
    assert_eq!(
        chunks_to_string(&resolved),
        "top\nchanged\nmiddle\n<<<<<<< HEAD\nours\n||||||| base\nbase\n=======\ntheirs\n>>>>>>> branch\nbottom\n"
    );
}

#[test]
fn whitespace_equivalence_of_lines() {
    assert!(whitespace_equivalent("a  b", " a\tb "));
    assert!(!whitespace_equivalent("ab", "a b"));
}

#[test]
fn a_marker_line_moved_out_of_a_conflict_cannot_be_read_back() {
    let input = "\
<<<<<<< HEAD
a
<<<<<<< z
||||||| base
b
<<<<<<< z
=======
c
<<<<<<< z
>>>>>>> branch
";
    let chunks = parse_conflicts(input).unwrap();
    assert!(try_resolve_chunks_with_options(chunks, &ResolveOptions::default()).is_none());
}

fn swapped(c: &Conflict) -> Conflict {
    Conflict {
        markers: c.markers.clone(),
        bodies: ConflictSides::new(
            c.bodies.theirs.clone(),
            c.bodies.base.clone(),
            c.bodies.ours.clone(),
        ),
    }
}

#[test]
fn resolution_mirrors_when_sides_are_exchanged() {
    let cases = [
        make_conflict(&["b"], &["b"], &["t"]),
        make_conflict(&["o"], &["b"], &["t"]),
        make_conflict(&["h", "a", "f"], &["h", "b", "f"], &["h", "c", "f"]),
        make_conflict(&["before", "base"], &["base"], &["base", "after"]),
    ];
    for c in cases {
        let r = resolve_conflict(&c);
        let r2 = resolve_conflict(&swapped(&c));
        match (r, r2) {
            (Resolution::Resolved(a), Resolution::Resolved(b)) => assert_eq!(a, b),
            (Resolution::Unchanged, Resolution::Unchanged) => {}
            (Resolution::PartiallyReduced(a), Resolution::PartiallyReduced(b)) => {
                assert_eq!(swapped(&a), b)
            }
            other => panic!("not mirrored: {:?}", other),
        }
    }
}
