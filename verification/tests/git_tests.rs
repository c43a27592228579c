use git_mediate::git::{
    conflict_style_from_reply, delete_modify_conflict_text, failure_message, editor_args, ensure_diff3_conflict_style, ensure_trailing_newline,
    files_to_process, has_conflict_marker, parse_status_output, unmerged_status, StyleAction,
    StyleCheck,
};
use git_mediate::parse::{parse_conflicts, ParseError};
use git_mediate::text::trim_text;
use git_mediate::types::{Chunk, UnmergedFile, UnmergedStatus};

#[test]
fn test_parse_status_both_modified() {
    let raw = "UU src/main.rs\0UU src/lib.rs\0";
    let files = parse_status_output(raw);
    assert_eq!(files.len(), 2);
    assert_eq!(files[0].path, "src/main.rs");
    assert_eq!(files[0].status, UnmergedStatus::BothModified);
    assert_eq!(files[1].path, "src/lib.rs");
}

#[test]
fn test_parse_status_mixed() {
    let raw = "UU conflict.rs\0M  clean.rs\0DU deleted_by_us.rs\0";
    let files = parse_status_output(raw);
    assert_eq!(files.len(), 2);
    assert_eq!(files[0].status, UnmergedStatus::BothModified);
    assert_eq!(files[1].status, UnmergedStatus::DeletedByUs);
}

#[test]
fn test_parse_status_empty() {
    let files = parse_status_output("");
    assert!(files.is_empty());
}

#[test]
fn test_parse_status_no_unmerged() {
    let raw = "M  modified.rs\0A  added.rs\0";
    let files = parse_status_output(raw);
    assert!(files.is_empty());
}

#[test]
fn test_parse_status_add_add_and_delete_add() {
    let raw = "AA both_added.rs\0DA delete_add.rs\0AD add_delete.rs\0";
    let files = parse_status_output(raw);
    assert_eq!(files.len(), 3);
    assert_eq!(files[0].status, UnmergedStatus::BothModified);
    assert_eq!(files[1].status, UnmergedStatus::BothModified);
    assert_eq!(files[2].status, UnmergedStatus::BothModified);
}

#[test]
fn status_codes_deleted_by_them_and_skipped() {
    let raw = "UD gone.rs\0DD both_gone.rs\0AU x\0UA y\0ab\0UU last.rs";
    let files = parse_status_output(raw);
    assert_eq!(files.len(), 2);
    assert_eq!(files[0].status, UnmergedStatus::DeletedByThem);
    assert_eq!(files[0].path, "gone.rs");
    assert_eq!(files[1].path, "last.rs");
}

fn file(status: UnmergedStatus, path: &str) -> UnmergedFile {
    UnmergedFile { status, path: path.to_string() }
}

#[test]
fn status_of_a_path() {
    let files = vec![
        file(UnmergedStatus::BothModified, "a.rs"),
        file(UnmergedStatus::DeletedByThem, "b.rs"),
    ];
    assert_eq!(unmerged_status(&files, "b.rs"), Some(UnmergedStatus::DeletedByThem));
    assert_eq!(unmerged_status(&files, "a.rs"), Some(UnmergedStatus::BothModified));
    assert_eq!(unmerged_status(&files, "c.rs"), None);
}

#[test]
fn files_to_process_marks_delete_modify() {
    let files = vec![
        file(UnmergedStatus::BothModified, "a.rs"),
        file(UnmergedStatus::DeletedByUs, "b.rs"),
        file(UnmergedStatus::DeletedByThem, "c.rs"),
    ];
    assert_eq!(
        files_to_process(None, &files),
        vec![
            ("a.rs".to_string(), false),
            ("b.rs".to_string(), true),
            ("c.rs".to_string(), true)
        ]
    );
    assert_eq!(files_to_process(Some("c.rs"), &files), vec![("c.rs".to_string(), true)]);
    assert_eq!(files_to_process(Some("zz"), &files), vec![("zz".to_string(), false)]);
    assert!(files_to_process(None, &[]).is_empty());
}

#[test]
fn conflict_style_decisions() {
    assert!(matches!(
        ensure_diff3_conflict_style(StyleCheck::Initial, Some("diff3"), false),
        StyleAction::Accept
    ));
    assert!(matches!(
        ensure_diff3_conflict_style(StyleCheck::Initial, Some("zdiff3"), false),
        StyleAction::Accept
    ));
    assert!(matches!(
        ensure_diff3_conflict_style(StyleCheck::Initial, None, true),
        StyleAction::SetStyle
    ));
    match ensure_diff3_conflict_style(StyleCheck::Initial, Some("diff2"), false) {
        StyleAction::Refuse(m) => assert_eq!(
            m,
            "merge.conflictstyle is 'diff2', but git-mediate requires 'diff3' (or 'zdiff3').\nRun: git config merge.conflictstyle diff3"
        ),
        other => panic!("expected a refusal, got {:?}", other),
    }
    match ensure_diff3_conflict_style(StyleCheck::Initial, None, false) {
        StyleAction::Refuse(m) => assert!(m.starts_with("merge.conflictstyle is 'unset'")),
        other => panic!("expected a refusal, got {:?}", other),
    }
    assert!(matches!(
        ensure_diff3_conflict_style(StyleCheck::AfterSet, Some("diff3"), true),
        StyleAction::Accept
    ));
    match ensure_diff3_conflict_style(StyleCheck::AfterSet, Some("diff2"), true) {
        StyleAction::Refuse(m) => assert_eq!(
            m,
            "attempt to set merge.conflictstyle failed; a repo-local git config may still override it"
        ),
        other => panic!("expected a refusal, got {:?}", other),
    }
    assert!(matches!(
        ensure_diff3_conflict_style(StyleCheck::AfterSet, Some("zdiff3"), true),
        StyleAction::Refuse(_)
    ));
}

#[test]
fn trailing_newline_is_added_once() {
    assert_eq!(ensure_trailing_newline(""), "");
    assert_eq!(ensure_trailing_newline("a"), "a\n");
    assert_eq!(ensure_trailing_newline("a\n"), "a\n");
}

#[test]
fn delete_modify_text_is_a_parsable_conflict() {
    let text = delete_modify_conflict_text("hello\nchange", "hello\n", "");
    assert_eq!(
        text,
        "<<<<<<< LOCAL\nhello\nchange\n||||||| BASE\nhello\n=======\n>>>>>>> REMOTE\n"
    );
    let chunks = parse_conflicts(&text).unwrap();
    assert_eq!(chunks.len(), 1);
    match &chunks[0] {
        Chunk::Conflict(c) => {
            assert_eq!(c.bodies.ours.lines(), &["hello", "change"]);
            assert_eq!(c.bodies.base.lines(), &["hello"]);
            assert!(c.bodies.theirs.is_empty());
            assert_eq!(c.markers.ours.text, "<<<<<<< LOCAL");
            assert_eq!(c.markers.base.line_number, 4);
            assert_eq!(c.markers.separator.line_number, 6);
            assert_eq!(c.markers.theirs.line_number, 7);
        }
        other => panic!("expected a conflict, got {:?}", other),
    }
}

#[test]
fn a_version_with_a_separator_line_splits_early() {
    let text = delete_modify_conflict_text("a\n=======\nb\n", "base\n", "c\n");
    assert!(matches!(parse_conflicts(&text), Err(ParseError::NoDiff3Style)));
}

#[test]
fn conflict_marker_detection() {
    assert!(has_conflict_marker("a\n<<<<<<< HEAD\nb\n"));
    assert!(!has_conflict_marker("a\n <<<<<<< HEAD\n"));
    assert!(!has_conflict_marker("<<<<<< six\n"));
    assert!(!has_conflict_marker(""));
}

#[test]
fn editor_arguments() {
    assert_eq!(editor_args("vim", "src/a.rs", 12), vec!["+12", "src/a.rs"]);
    assert_eq!(
        editor_args("/usr/bin/code", "src/a.rs", 7),
        vec!["--goto", "src/a.rs:7"]
    );
}

#[test]
fn git_replies() {
    assert_eq!(
        conflict_style_from_reply(true, Some(0), " diff3\n", ""),
        Ok(Some("diff3".to_string()))
    );
    assert_eq!(conflict_style_from_reply(false, Some(1), "", ""), Ok(None));
    assert_eq!(
        conflict_style_from_reply(false, Some(128), "", "fatal: bad config\n"),
        Err("git config failed: fatal: bad config".to_string())
    );
    assert_eq!(
        failure_message("git status failed", "\t oops \u{3000}\n"),
        "git status failed: oops"
    );
    assert_eq!(trim_text("  a b  "), "a b");
    assert_eq!(trim_text(" \n\t "), "");
}
