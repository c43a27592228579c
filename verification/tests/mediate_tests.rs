use git_mediate::mediate::{
    editor_warning, file_diffs, process_content, record_file, ColorChoice, GitMediateBuilder,
    GitMediateReport,
};
use git_mediate::resolve::ResolveOptions;
use git_mediate::types::FileResult;

const RESOLVABLE: &str = "\
a
<<<<<<< HEAD
base
||||||| ancestor
base
=======
theirs
>>>>>>> branch
b
";

const STUCK: &str = "\
<<<<<<< HEAD
ours
||||||| ancestor
base
=======
theirs
>>>>>>> branch
";

#[test]
fn builder_defaults_and_setters() {
    let b = GitMediateBuilder::new();
    assert_eq!(b.diff_context, 3);
    assert_eq!(b.color, ColorChoice::Auto);
    assert!(!b.dry_run && !b.no_add && !b.show_diff && !b.show_diff2 && !b.editor);
    assert_eq!(b.resolve_options, ResolveOptions::default());
    let b = b
        .root_dir("/tmp/repo".to_string())
        .merge_file("file.txt".to_string())
        .set_conflict_style(true)
        .show_diff(true)
        .show_diff2(true)
        .editor(true)
        .color_choice(ColorChoice::Never)
        .diff_context(5)
        .dry_run(true)
        .no_add(true)
        .verbose(true);
    assert_eq!(b.root_dir.as_deref(), Some("/tmp/repo"));
    assert_eq!(b.merge_file.as_deref(), Some("file.txt"));
    assert!(b.set_conflict_style && b.show_diff && b.show_diff2 && b.editor);
    assert_eq!(b.color, ColorChoice::Never);
    assert_eq!(b.diff_context, 5);
    assert!(b.dry_run && b.no_add && b.verbose);
    assert!(b.touches_delete_modify(true) == false);
    assert!(!b.stages(true, false));
}

#[test]
fn staging_decision() {
    let b = GitMediateBuilder::new();
    assert!(b.touches_delete_modify(true));
    assert!(!b.touches_delete_modify(false));
    assert!(b.stages(true, false));
    assert!(!b.stages(true, true));
    assert!(!b.stages(false, false));
    assert!(!b.no_add(true).stages(true, false));
}

#[test]
fn report_lines_and_exit_code() {
    let mut r = GitMediateReport::default();
    assert_eq!(r.output(), "");
    assert!(r.is_success());
    r.push_line("one");
    r.push_raw("two");
    r.extend(Some("three".to_string()));
    r.extend(None);
    assert_eq!(r.output(), "one\ntwothree\n");
    r.finish(&FileResult { resolved: 2, partially_resolved: 0, failed: 1 }, 1, false, false, false);
    assert_eq!(r.exit_code(), 1);
    assert!(!r.is_success());
    assert_eq!(
        r.output(),
        "one\ntwothree\n\nSummary: 3 conflicts in total: 2 resolved, 0 reduced, 1 remaining\nStaged 1 fully resolved file.\n"
    );
    assert_eq!(r.files_resolved, 1);
}

#[test]
fn summary_in_a_dry_run_stages_nothing() {
    let mut r = GitMediateReport::default();
    r.finish(&FileResult { resolved: 2, partially_resolved: 0, failed: 0 }, 2, true, false, false);
    assert_eq!(
        r.output(),
        "(dry run) Summary: 2 conflicts in total: 2 resolved, 0 reduced, 0 remaining\n"
    );
    assert!(r.is_success());
    assert!(r.dry_run);
}

#[test]
fn summary_counts_files_in_plural() {
    let mut r = GitMediateReport::default();
    r.finish(&FileResult { resolved: 3, partially_resolved: 1, failed: 0 }, 2, false, false, false);
    assert!(r.output().ends_with("Staged 2 fully resolved files.\n"));
    assert_eq!(r.exit_code(), 1);
}

#[test]
fn no_conflicts_no_summary() {
    let mut r = GitMediateReport::default();
    r.push_line("No files to process.");
    r.finish(&FileResult::default(), 0, false, false, true);
    assert_eq!(r.output(), "No files to process.\n");
    assert_eq!(r.exit_code(), 0);
}

#[test]
fn processing_resolves_and_writes() {
    let o = process_content("f.txt", RESOLVABLE, &ResolveOptions::default(), false).unwrap();
    assert_eq!((o.result.resolved, o.result.partially_resolved, o.result.failed), (1, 0, 0));
    assert!(o.had_conflicts);
    assert!(o.remaining_conflicts.is_empty());
    assert!(o.message.is_none());
    assert_eq!(o.new_content.as_deref(), Some("a\ntheirs\nb\n"));
    assert!(o.counts_as_resolved());
    assert_eq!(o.editor_line(true), None);
}

#[test]
fn processing_in_a_dry_run_writes_nothing() {
    let o = process_content("f.txt", RESOLVABLE, &ResolveOptions::default(), true).unwrap();
    assert_eq!(o.result.resolved, 1);
    assert!(o.new_content.is_none());
}

#[test]
fn processing_leaves_true_conflicts() {
    let o = process_content("f.txt", STUCK, &ResolveOptions::default(), false).unwrap();
    assert_eq!(o.result.failed, 1);
    assert_eq!(o.remaining_conflicts.len(), 1);
    assert!(o.new_content.is_none());
    assert!(!o.counts_as_resolved());
    assert_eq!(o.editor_line(true), Some(1));
    assert_eq!(o.editor_line(false), None);
}

#[test]
fn processing_a_file_without_conflicts() {
    let o = process_content("f.txt", "plain\n", &ResolveOptions::default(), false).unwrap();
    assert!(!o.had_conflicts);
    assert_eq!(o.result.total_conflicts(), 0);
    assert!(o.counts_as_resolved());
}

#[test]
fn processing_a_file_that_does_not_parse() {
    let content = "<<<<<<< HEAD\nours\n=======\ntheirs\n>>>>>>> b\n";
    let o = process_content("bad.txt", content, &ResolveOptions::default(), false).unwrap();
    assert_eq!((o.result.resolved, o.result.partially_resolved, o.result.failed), (0, 0, 1));
    let m = o.message.unwrap();
    assert!(m.ends_with(
        " bad.txt: file has no diff3 base markers (|||||||). Set merge.conflictstyle=diff3"
    ));
    assert!(m.contains("error:"));
    assert!(!o.had_conflicts);
}

#[test]
fn processing_refuses_width_zero_tabs() {
    let content = "<<<<<<< HEAD\na\tb\n||||||| base\nb\n=======\nc\n>>>>>>> x\n";
    let opts = ResolveOptions { untabify: Some(0), ..ResolveOptions::default() };
    assert!(process_content("t.txt", content, &opts, false).is_none());
}

#[test]
fn report_of_a_file() {
    let o = process_content("f.txt", STUCK, &ResolveOptions::default(), false).unwrap();
    let diffs = file_diffs(&o.remaining_conflicts, false, true, false, 3).unwrap();
    assert_eq!(diffs, vec!["--- line 1\n-ours\n+theirs\n".to_string()]);
    let mut r = GitMediateReport::default();
    r.report_file("f.txt", &o, &diffs, false);
    assert_eq!(
        r.output(),
        "conflict: f.txt (1 remaining)\n--- line 1\n-ours\n+theirs\n"
    );
    let resolved = process_content("g.txt", RESOLVABLE, &ResolveOptions::default(), false).unwrap();
    let mut r = GitMediateReport::default();
    r.report_file("g.txt", &resolved, &[], false);
    assert_eq!(r.output(), "ok: g.txt (1 resolved)\n");
}

#[test]
fn both_kinds_of_diffs_in_order() {
    let o = process_content("f.txt", STUCK, &ResolveOptions::default(), false).unwrap();
    let diffs = file_diffs(&o.remaining_conflicts, true, true, false, 3).unwrap();
    assert_eq!(diffs.len(), 2);
    assert!(diffs[0].starts_with("--- HEAD, line 1\n"));
    assert!(diffs[1].starts_with("--- line 1\n"));
    assert!(file_diffs(&o.remaining_conflicts, false, false, false, 3).unwrap().is_empty());
}

#[test]
fn editor_warning_text() {
    let w = editor_warning("f.txt", "boom");
    assert!(w.contains("warning:"));
    assert!(w.ends_with(" f.txt: boom"));
}

#[test]
fn totals_accumulate() {
    let mut total = FileResult::default();
    let mut files = 0usize;
    assert!(record_file(
        &mut total,
        &mut files,
        &FileResult { resolved: 1, partially_resolved: 2, failed: 3 },
        true
    ));
    assert!(record_file(
        &mut total,
        &mut files,
        &FileResult { resolved: 1, partially_resolved: 0, failed: 0 },
        false
    ));
    assert_eq!((total.resolved, total.partially_resolved, total.failed, files), (2, 2, 3, 1));
    let mut big = FileResult { resolved: usize::MAX, partially_resolved: 0, failed: 0 };
    assert!(!record_file(
        &mut big,
        &mut files,
        &FileResult { resolved: 1, partially_resolved: 0, failed: 0 },
        false
    ));
    assert_eq!(big.resolved, usize::MAX);
}

#[test]
fn mixed_file_result_line() {
    let content = format!("{}{}", RESOLVABLE, STUCK);
    let o = process_content("m.txt", &content, &ResolveOptions::default(), false).unwrap();
    let mut r = GitMediateReport::default();
    r.report_file("m.txt", &o, &[], false);
    assert_eq!(r.output(), "conflict: m.txt (1 resolved, 1 remaining)\n");
}

#[test]
fn colored_report_line() {
    colored::control::set_override(true);
    let o = process_content("f.txt", STUCK, &ResolveOptions::default(), false).unwrap();
    let mut r = GitMediateReport::default();
    r.report_file("f.txt", &o, &[], true);
    assert_eq!(
        r.output(),
        "\u{1b}[31mconflict:\u{1b}[0m f.txt (\u{1b}[31m1 remaining\u{1b}[0m)\n"
    );
    let w = editor_warning("f.txt", "boom");
    assert_eq!(w, "\u{1b}[33mwarning:\u{1b}[0m f.txt: boom");
}

#[test]
fn colored_summary() {
    colored::control::set_override(true);
    let mut r = GitMediateReport::default();
    r.finish(&FileResult { resolved: 1, partially_resolved: 0, failed: 0 }, 0, false, false, true);
    assert_eq!(
        r.output(),
        "Summary: 1 conflicts in total: \u{1b}[32m1\u{1b}[0m resolved, \u{1b}[33m0\u{1b}[0m reduced, \u{1b}[31m0\u{1b}[0m remaining\n"
    );
}

#[test]
fn report_code_follows_totals() {
    let r = GitMediateReport::default();
    assert!(r.is_success());
    let mut r = GitMediateReport::default();
    r.push_line("x");
    r.finish(&FileResult { resolved: 1, partially_resolved: 1, failed: 0 }, 0, false, false, false);
    assert_eq!(r.exit_code(), 1);
    assert!(!r.is_success());
    let mut r = GitMediateReport::default();
    r.finish(&FileResult { resolved: 3, partially_resolved: 0, failed: 0 }, 1, false, false, false);
    assert!(r.is_success());
}
