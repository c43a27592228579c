use git_mediate::parse::{chunks_to_string, parse_conflicts, ParseError};
use git_mediate::types::{Chunk, Conflict, ConflictBody, ConflictMarkers, ConflictSides, SrcContent};

fn lines(body: &ConflictBody) -> Vec<&str> {
    body.lines().iter().map(String::as_str).collect()
}

#[test]
fn test_parse_simple_conflict() {
    let input = "\
before
<<<<<<< HEAD
ours
||||||| base
original
=======
theirs
>>>>>>> branch
after
";
    let chunks = parse_conflicts(input).unwrap();
    assert_eq!(chunks.len(), 3);

    match &chunks[0] {
        Chunk::Plain(text) => assert_eq!(text, "before\n"),
        other => panic!("expected Plain, got {:?}", other),
    }

    match &chunks[1] {
        Chunk::Conflict(c) => {
            assert_eq!(lines(&c.bodies.ours), vec!["ours"]);
            assert_eq!(lines(&c.bodies.base), vec!["original"]);
            assert_eq!(lines(&c.bodies.theirs), vec!["theirs"]);
            assert_eq!(c.start_line(), 2);
            assert_eq!(c.end_line(), 8);
        }
        other => panic!("expected Conflict, got {:?}", other),
    }

    match &chunks[2] {
        Chunk::Plain(text) => assert_eq!(text, "after\n"),
        other => panic!("expected Plain, got {:?}", other),
    }
}

#[test]
fn test_parse_multiple_conflicts() {
    let input = "\
<<<<<<< HEAD
a1
||||||| base
b1
=======
c1
>>>>>>> branch
middle
<<<<<<< HEAD
a2
||||||| base
b2
=======
c2
>>>>>>> branch
";
    let chunks = parse_conflicts(input).unwrap();
    assert_eq!(chunks.len(), 3);

    assert!(matches!(&chunks[0], Chunk::Conflict(_)));
    assert!(matches!(&chunks[1], Chunk::Plain(_)));
    assert!(matches!(&chunks[2], Chunk::Conflict(_)));
}

#[test]
fn test_parse_no_diff3_style() {
    let input = "\
<<<<<<< HEAD
ours
=======
theirs
>>>>>>> branch
";
    let result = parse_conflicts(input);
    assert!(matches!(result, Err(ParseError::NoDiff3Style)));
}

#[test]
fn test_parse_empty_sides() {
    let input = "\
<<<<<<< HEAD
||||||| base
original line
=======
>>>>>>> branch
";
    let chunks = parse_conflicts(input).unwrap();
    assert_eq!(chunks.len(), 1);

    match &chunks[0] {
        Chunk::Conflict(c) => {
            assert!(c.bodies.ours.is_empty());
            assert_eq!(lines(&c.bodies.base), vec!["original line"]);
            assert!(c.bodies.theirs.is_empty());
        }
        other => panic!("expected Conflict, got {:?}", other),
    }
}

#[test]
fn test_parse_multiline_bodies() {
    let input = "\
<<<<<<< HEAD
line 1a
line 2a
line 3a
||||||| base
line 1b
line 2b
=======
line 1c
>>>>>>> branch
";
    let chunks = parse_conflicts(input).unwrap();
    match &chunks[0] {
        Chunk::Conflict(c) => {
            assert_eq!(lines(&c.bodies.ours), vec!["line 1a", "line 2a", "line 3a"]);
            assert_eq!(lines(&c.bodies.base), vec!["line 1b", "line 2b"]);
            assert_eq!(lines(&c.bodies.theirs), vec!["line 1c"]);
        }
        other => panic!("expected Conflict, got {:?}", other),
    }
}

#[test]
fn test_roundtrip() {
    let input = "\
before
<<<<<<< HEAD
ours
||||||| base
original
=======
theirs
>>>>>>> branch
after
";
    let chunks = parse_conflicts(input).unwrap();
    let output = chunks_to_string(&chunks);
    assert_eq!(input, output);
}

#[test]
fn test_roundtrip_no_trailing_newline() {
    let input = "\
before
<<<<<<< HEAD
ours
||||||| base
original
=======
theirs
>>>>>>> branch
after";
    let chunks = parse_conflicts(input).unwrap();
    let output = chunks_to_string(&chunks);
    assert_eq!(input, output);
}

#[test]
fn test_unterminated_conflict() {
    let input = "\
<<<<<<< HEAD
ours
||||||| base
original
";
    let result = parse_conflicts(input);
    assert!(matches!(
        result,
        Err(ParseError::UnterminatedConflict { .. })
    ));
}

#[test]
fn test_plain_only() {
    let input = "just some normal text\nwith multiple lines\n";
    let chunks = parse_conflicts(input).unwrap();
    assert_eq!(chunks.len(), 1);
    assert!(matches!(&chunks[0], Chunk::Plain(_)));
}

#[test]
fn unterminated_conflict_reports_its_lines() {
    let input = "plain\n<<<<<<< HEAD\nours\n||||||| base\noriginal\n";
    match parse_conflicts(input) {
        Err(e) => {
            assert!(matches!(
                e,
                ParseError::UnterminatedConflict { line: 5, start_line: 2 }
            ));
            assert_eq!(
                e.message(),
                "line 5: unterminated conflict (started at line 2)"
            );
        }
        Ok(_) => panic!("expected an error"),
    }
}

#[test]
fn missing_separator_leaves_the_conflict_unterminated() {
    let input = "<<<<<<< HEAD\nours\n||||||| base\nbase\n>>>>>>> branch\n";
    assert!(matches!(
        parse_conflicts(input),
        Err(ParseError::UnterminatedConflict { line: 5, start_line: 1 })
    ));
}

#[test]
fn parse_error_messages() {
    assert_eq!(
        ParseError::NoDiff3Style.message(),
        "file has no diff3 base markers (|||||||). Set merge.conflictstyle=diff3"
    );
    let e = ParseError::UnexpectedMarker {
        line: 12,
        expected: "=======".to_string(),
        found: ">>>>>>> x".to_string(),
    };
    assert_eq!(
        e.message(),
        "line 12: expected '=======' marker but found '>>>>>>> x'"
    );
}

#[test]
fn print_parse_roundtrip_on_crlf_free_text() {
    for input in [
        "",
        "a\n",
        "a\nb",
        "x\n<<<<<<< A\n1\n||||||| B\n2\n=======\n3\n>>>>>>> C\ny\n",
        "<<<<<<< A\n||||||| B\n=======\n>>>>>>> C\n",
    ] {
        let chunks = parse_conflicts(input).unwrap();
        assert_eq!(chunks_to_string(&chunks), input);
    }
}

#[test]
fn a_final_conflict_is_printed_with_a_line_feed() {
    let chunks = parse_conflicts("<<<<<<< A\n||||||| B\n=======\n>>>>>>> C").unwrap();
    assert_eq!(chunks_to_string(&chunks), "<<<<<<< A\n||||||| B\n=======\n>>>>>>> C\n");
}

#[test]
fn empty_content_has_no_chunks() {
    assert!(parse_conflicts("").unwrap().is_empty());
}

#[test]
fn printed_conflict_reads_back_renumbered() {
    let c = Conflict {
        markers: ConflictMarkers::new(
            SrcContent::new(12, "<<<<<<< HEAD".to_string()),
            SrcContent::new(15, "||||||| ancestor".to_string()),
            SrcContent::new(18, "=======".to_string()),
            SrcContent::new(21, ">>>>>>> branch".to_string()),
        ),
        bodies: ConflictSides::new(
            ConflictBody::from(vec!["o1".to_string(), "o2".to_string()]),
            ConflictBody::from(vec!["b".to_string()]),
            ConflictBody::from(Vec::new()),
        ),
    };
    let chunks = parse_conflicts(&c.to_conflict_text()).unwrap();
    assert_eq!(chunks.len(), 1);
    match &chunks[0] {
        Chunk::Conflict(c2) => {
            assert_eq!(c2.bodies, c.bodies);
            assert_eq!(c2.markers.ours.line_number, 1);
            assert_eq!(c2.markers.base.line_number, 4);
            assert_eq!(c2.markers.separator.line_number, 6);
            assert_eq!(c2.markers.theirs.line_number, 7);
            assert_eq!(c2.markers.theirs.text, ">>>>>>> branch");
        }
        other => panic!("expected a conflict, got {:?}", other),
    }
}
