//! A mediation run: its settings, its report, and what is decided for
//! each file between reading it and writing it back.
use vstd::prelude::*;

use crate::diff::{
    diff2_fits, is_diff2, is_side_diffs, side_diffs_fit, try_show_diff2, try_show_side_diffs,
};
use crate::parse::{
    ParseError, chunks_text, chunks_to_string, parse_conflicts, parse_error_text, parse_spec,
};
use crate::resolve::{
    ResolveOptions, chunks_resolvable, chunks_tally, count_conflicts, counts, default_options,
    resolve_chunks_spec, try_resolve_chunks_with_options,
};
use crate::style::{is_painting, paint_green, paint_red, paint_yellow};
use crate::text::{
    append_decimal, append_str, copy_string, decimal, decimal_string, lines_view, literal, push_char,
};
use crate::types::{Chunk, ChunkView, Conflict, ConflictView, FileResult, chunks_view};

verus! {

/// When output is coloured.
#[derive(Debug, Clone, Copy, PartialEq, Eq, Structural)]
pub enum ColorChoice {
    Auto,
    Always,
    Never,
}

impl Default for ColorChoice {
    fn default() -> (r: Self)
        ensures
            r == ColorChoice::Auto,
    {
        ColorChoice::Auto
    }
}

impl ColorChoice {
    /// Whether output is coloured: always, never, or, by default, when
    /// standard output is a terminal.
    pub fn enabled(self, stdout_is_terminal: bool) -> (r: bool)
        ensures
            r == match self {
                ColorChoice::Auto => stdout_is_terminal,
                ColorChoice::Always => true,
                ColorChoice::Never => false,
            },
    {
        match self {
            ColorChoice::Auto => stdout_is_terminal,
            ColorChoice::Always => true,
            ColorChoice::Never => false,
        }
    }
}

/// The settings of a mediation run.
#[derive(Debug, Clone)]
pub struct GitMediateBuilder {
    pub root_dir: Option<String>,
    pub merge_file: Option<String>,
    pub set_conflict_style: bool,
    pub show_diff: bool,
    pub show_diff2: bool,
    pub editor: bool,
    pub color: ColorChoice,
    pub diff_context: usize,
    pub dry_run: bool,
    pub no_add: bool,
    pub verbose: bool,
    pub resolve_options: ResolveOptions,
}

/// The settings a run starts from: in the current directory, every
/// unmerged file, no diffs, no editor, colour when on a terminal, three
/// lines of context, files written and staged, default resolving.
pub open spec fn default_builder() -> GitMediateBuilder {
    GitMediateBuilder {
        root_dir: None,
        merge_file: None,
        set_conflict_style: false,
        show_diff: false,
        show_diff2: false,
        editor: false,
        color: ColorChoice::Auto,
        diff_context: 3,
        dry_run: false,
        no_add: false,
        verbose: false,
        resolve_options: default_options(),
    }
}

impl Default for GitMediateBuilder {
    fn default() -> (r: Self)
        ensures
            r == default_builder(),
    {
        GitMediateBuilder {
            root_dir: None,
            merge_file: None,
            set_conflict_style: false,
            show_diff: false,
            show_diff2: false,
            editor: false,
            color: ColorChoice::Auto,
            diff_context: 3,
            dry_run: false,
            no_add: false,
            verbose: false,
            resolve_options: ResolveOptions::default(),
        }
    }
}

impl GitMediateBuilder {
    pub fn new() -> (r: Self)
        ensures
            r == default_builder(),
    {
        Self::default()
    }

    /// Runs in the given directory.
    pub fn root_dir(self, root_dir: String) -> (r: Self)
        ensures
            r == (GitMediateBuilder { root_dir: Some(root_dir), ..self }),
    {
        GitMediateBuilder { root_dir: Some(root_dir), ..self }
    }

    /// Processes only the given file.
    pub fn merge_file(self, merge_file: String) -> (r: Self)
        ensures
            r == (GitMediateBuilder { merge_file: Some(merge_file), ..self }),
    {
        GitMediateBuilder { merge_file: Some(merge_file), ..self }
    }

    pub fn set_conflict_style(self, set_conflict_style: bool) -> (r: Self)
        ensures
            r == (GitMediateBuilder { set_conflict_style, ..self }),
    {
        GitMediateBuilder { set_conflict_style, ..self }
    }

    pub fn show_diff(self, show_diff: bool) -> (r: Self)
        ensures
            r == (GitMediateBuilder { show_diff, ..self }),
    {
        GitMediateBuilder { show_diff, ..self }
    }

    pub fn show_diff2(self, show_diff2: bool) -> (r: Self)
        ensures
            r == (GitMediateBuilder { show_diff2, ..self }),
    {
        GitMediateBuilder { show_diff2, ..self }
    }

    pub fn editor(self, editor: bool) -> (r: Self)
        ensures
            r == (GitMediateBuilder { editor, ..self }),
    {
        GitMediateBuilder { editor, ..self }
    }

    pub fn color_choice(self, color: ColorChoice) -> (r: Self)
        ensures
            r == (GitMediateBuilder { color, ..self }),
    {
        GitMediateBuilder { color, ..self }
    }

    pub fn diff_context(self, diff_context: usize) -> (r: Self)
        ensures
            r == (GitMediateBuilder { diff_context, ..self }),
    {
        GitMediateBuilder { diff_context, ..self }
    }

    pub fn dry_run(self, dry_run: bool) -> (r: Self)
        ensures
            r == (GitMediateBuilder { dry_run, ..self }),
    {
        GitMediateBuilder { dry_run, ..self }
    }

    pub fn no_add(self, no_add: bool) -> (r: Self)
        ensures
            r == (GitMediateBuilder { no_add, ..self }),
    {
        GitMediateBuilder { no_add, ..self }
    }

    pub fn verbose(self, verbose: bool) -> (r: Self)
        ensures
            r == (GitMediateBuilder { verbose, ..self }),
    {
        GitMediateBuilder { verbose, ..self }
    }

    pub fn resolve_options(self, resolve_options: ResolveOptions) -> (r: Self)
        ensures
            r == (GitMediateBuilder { resolve_options, ..self }),
    {
        GitMediateBuilder { resolve_options, ..self }
    }
}

/// What a run reports: the text to print, the totals, and the exit code.
#[derive(Debug, Clone)]
pub struct GitMediateReport {
    output: String,
    pub total: FileResult,
    pub files_resolved: usize,
    pub dry_run: bool,
    pub no_add: bool,
    exit_code: i32,
}

/// A report as a value: its text, totals, flags and exit code.
pub struct ReportView {
    pub text: Seq<char>,
    pub total: FileResult,
    pub files_resolved: usize,
    pub dry_run: bool,
    pub no_add: bool,
    pub code: i32,
}

impl View for GitMediateReport {
    type V = ReportView;

    closed spec fn view(&self) -> ReportView {
        ReportView {
            text: self.output@,
            total: self.total,
            files_resolved: self.files_resolved,
            dry_run: self.dry_run,
            no_add: self.no_add,
            code: self.exit_code,
        }
    }
}

/// The report of a run that has not reported anything yet.
pub open spec fn empty_report() -> ReportView {
    ReportView {
        text: Seq::empty(),
        total: FileResult { resolved: 0, partially_resolved: 0, failed: 0 },
        files_resolved: 0,
        dry_run: false,
        no_add: false,
        code: 0,
    }
}

/// Whether the exit code of a report is the one its totals call for: 1
/// when a conflict was left reduced or unresolved, 0 otherwise.
pub open spec fn code_matches_totals(v: ReportView) -> bool {
    v.code == (if v.total.failed > 0 || v.total.partially_resolved > 0 {
        1i32
    } else {
        0i32
    })
}

/// The exit code of every report a run builds is the one its totals call
/// for, and the report is a success exactly when no conflict was left
/// reduced or unresolved: the empty report starts so, appending text keeps
/// it so, and `finish` sets the totals and the code together.
pub proof fn law_report_code(v: ReportView, t: Seq<char>)
    ensures
        code_matches_totals(empty_report()),
        code_matches_totals(v) ==> code_matches_totals(ReportView { text: t, ..v }),
        code_matches_totals(v) ==> ((v.code == 0) == (v.total.failed == 0
            && v.total.partially_resolved == 0)),
{
}

impl Default for GitMediateReport {
    fn default() -> (r: Self)
        ensures
            r@ == empty_report(),
    {
        GitMediateReport {
            output: String::new(),
            total: FileResult { resolved: 0, partially_resolved: 0, failed: 0 },
            files_resolved: 0,
            dry_run: false,
            no_add: false,
            exit_code: 0,
        }
    }
}

impl GitMediateReport {
    pub fn output(&self) -> (r: &str)
        ensures
            r@ == self@.text,
    {
        self.output.as_str()
    }

    pub fn exit_code(&self) -> (r: i32)
        ensures
            r == self@.code,
    {
        self.exit_code
    }

    pub fn is_success(&self) -> (r: bool)
        ensures
            r == (self@.code == 0),
    {
        self.exit_code == 0
    }

    /// Appends a line: the text and a line feed.
    pub fn push_line(&mut self, line: &str)
        ensures
            final(self)@ == (ReportView { text: old(self)@.text + line@ + seq!['\n'], ..old(self)@ }),
    {
        append_str(&mut self.output, line);
        push_char(&mut self.output, '\n');
        assert(self.output@ =~= old(self).output@ + line@ + seq!['\n']);
    }

    /// Appends text as it is.
    pub fn push_raw(&mut self, text: &str)
        ensures
            final(self)@ == (ReportView { text: old(self)@.text + text@, ..old(self)@ }),
    {
        append_str(&mut self.output, text);
    }

    /// Appends a line when there is one.
    pub fn extend(&mut self, text: Option<String>)
        ensures
            final(self)@ == match text {
                Some(t) => ReportView { text: old(self)@.text + t@ + seq!['\n'], ..old(self)@ },
                None => old(self)@,
            },
    {
        if let Some(t) = text {
            self.push_line(t.as_str());
        }
    }
}

} // verus!

verus! {

// ---------------------------------------------------------------------
// Lines of the report.
// ---------------------------------------------------------------------
/// The colours the report uses.
#[derive(Clone, Copy)]
enum Paint {
    Green,
    Yellow,
    Red,
}

/// The digit of a colour's terminal code.
spec fn paint_digit(p: Paint) -> char {
    match p {
        Paint::Green => '2',
        Paint::Yellow => '3',
        Paint::Red => '1',
    }
}

/// `r` is `text`, coloured in colour `3d` when colours are enabled.
pub open spec fn painted(r: Seq<char>, text: Seq<char>, d: char, enabled: bool) -> bool {
    if enabled {
        is_painting(r, text, d)
    } else {
        r == text
    }
}

fn colorize(text: String, paint: Paint, enabled: bool) -> (r: String)
    ensures
        painted(r@, text@, paint_digit(paint), enabled),
{
    if !enabled {
        return text;
    }
    match paint {
        Paint::Green => paint_green(text.as_str()),
        Paint::Yellow => paint_yellow(text.as_str()),
        Paint::Red => paint_red(text.as_str()),
    }
}

/// A count followed by a word.
fn count_text(n: usize, word: &str) -> (r: String)
    ensures
        r@ == decimal(n as nat) + word@,
{
    let mut s = decimal_string(n);
    append_str(&mut s, word);
    s
}

/// The counts of a file's result line, each with its colour: those that
/// are not zero.
pub open spec fn result_parts(r: FileResult) -> Seq<(Seq<char>, char)> {
    (if r.resolved > 0 {
        seq![(decimal(r.resolved as nat) + " resolved"@, '2')]
    } else {
        Seq::empty()
    }) + (if r.partially_resolved > 0 {
        seq![(decimal(r.partially_resolved as nat) + " reduced"@, '3')]
    } else {
        Seq::empty()
    }) + (if r.failed > 0 {
        seq![(decimal(r.failed as nat) + " remaining"@, '1')]
    } else {
        Seq::empty()
    })
}

/// The texts joined with a comma and a space between each two.
pub open spec fn join_comma(ps: Seq<Seq<char>>) -> Seq<char>
    decreases ps.len(),
{
    if ps.len() == 0 {
        Seq::empty()
    } else if ps.len() == 1 {
        ps[0]
    } else {
        join_comma(ps.drop_last()) + ", "@ + ps.last()
    }
}

/// The status word of a file's result line, with its colour.
pub open spec fn status_word(r: FileResult) -> (Seq<char>, char) {
    if r.partially_resolved == 0 && r.failed == 0 {
        ("ok:"@, '2')
    } else {
        ("conflict:"@, '1')
    }
}

/// `line` is the result line of the file at `path`, made of the status
/// word `st` and the counts `ps` as they were coloured.
pub open spec fn result_line_from(
    line: Seq<char>,
    st: Seq<char>,
    ps: Seq<Seq<char>>,
    path: Seq<char>,
    r: FileResult,
    color: bool,
) -> bool {
    &&& painted(st, status_word(r).0, status_word(r).1, color)
    &&& ps.len() == result_parts(r).len()
    &&& forall|i: int|
        0 <= i < ps.len() ==> painted(
            #[trigger] ps[i],
            result_parts(r)[i].0,
            result_parts(r)[i].1,
            color,
        )
    &&& line == st + " "@ + path + " ("@ + join_comma(ps) + ")"@
}

/// `line` is the result line of the file at `path`: its coloured status,
/// its path, and its coloured counts in brackets.
pub open spec fn is_result_line(line: Seq<char>, path: Seq<char>, r: FileResult, color: bool) -> bool {
    exists|st: Seq<char>, ps: Seq<Seq<char>>| #[trigger] result_line_from(line, st, ps, path, r, color)
}

fn join_parts(ps: &Vec<String>) -> (r: String)
    ensures
        r@ == join_comma(lines_view(ps@)),
{
    let mut out = String::new();
    let mut i: usize = 0;
    while i < ps.len()
        invariant
            i <= ps@.len(),
            out@ == join_comma(lines_view(ps@).take(i as int)),
        decreases ps@.len() - i,
    {
        let ghost t = lines_view(ps@).take(i + 1);
        proof {
            assert(t.drop_last() =~= lines_view(ps@).take(i as int));
        }
        if i > 0 {
            append_str(&mut out, ", ");
        } else {
            assert(t.len() == 1);
        }
        append_str(&mut out, ps[i].as_str());
        i += 1;
    }
    assert(lines_view(ps@).take(ps@.len() as int) =~= lines_view(ps@));
    out
}

/// The line reporting a file's result, when it had conflicts: its status,
/// its path, and the counts that are not zero.
fn file_result_line(path: &str, result: &FileResult, color: bool) -> (r: Option<String>)
    ensures
        result.total() == 0 ==> r is None,
        result.total() > 0 ==> (r matches Some(line) && is_result_line(line@, path@, *result, color)),
{
    if result.resolved == 0 && result.partially_resolved == 0 && result.failed == 0 {
        return None;
    }
    let mut parts: Vec<String> = Vec::new();
    let ghost want = result_parts(*result);
    if result.resolved > 0 {
        parts.push(colorize(count_text(result.resolved, " resolved"), Paint::Green, color));
    }
    if result.partially_resolved > 0 {
        parts.push(colorize(count_text(result.partially_resolved, " reduced"), Paint::Yellow, color));
    }
    if result.failed > 0 {
        parts.push(colorize(count_text(result.failed, " remaining"), Paint::Red, color));
    }
    let st = if result.is_fully_resolved() {
        colorize(literal("ok:"), Paint::Green, color)
    } else {
        colorize(literal("conflict:"), Paint::Red, color)
    };
    let joined = join_parts(&parts);
    let mut line = copy_string(&st);
    append_str(&mut line, " ");
    append_str(&mut line, path);
    append_str(&mut line, " (");
    append_str(&mut line, joined.as_str());
    append_str(&mut line, ")");
    proof {
        let ps = lines_view(parts@);
        assert(ps.len() == want.len());
        assert forall|i: int| 0 <= i < ps.len() implies painted(
            #[trigger] ps[i],
            want[i].0,
            want[i].1,
            color,
        ) by {
            assert(ps[i] == parts@[i]@);
        }
        assert(result_line_from(line@, st@, ps, path@, *result, color));
    }
    Some(line)
}

/// The text staging adds to the summary.
pub open spec fn staged_text(files_resolved: usize, dry_run: bool, no_add: bool) -> Seq<char> {
    if files_resolved > 0 && !dry_run && !no_add {
        "Staged "@ + decimal(files_resolved as nat) + " fully resolved file"@ + (if files_resolved
            == 1 {
            Seq::empty()
        } else {
            "s"@
        }) + ".\n"@
    } else {
        Seq::empty()
    }
}

/// `out` is the summary of a run, made of the three counts `a`, `b`, `c`
/// as they were coloured.
pub open spec fn summary_from(
    out: Seq<char>,
    a: Seq<char>,
    b: Seq<char>,
    c: Seq<char>,
    total: FileResult,
    files_resolved: usize,
    dry_run: bool,
    no_add: bool,
    color: bool,
) -> bool {
    &&& painted(a, decimal(total.resolved as nat), '2', color)
    &&& painted(b, decimal(total.partially_resolved as nat), '3', color)
    &&& painted(c, decimal(total.failed as nat), '1', color)
    &&& out == (if dry_run {
        "(dry run) "@
    } else {
        Seq::empty()
    }) + "Summary: "@ + decimal(total.total() as nat) + " conflicts in total: "@ + a
        + " resolved, "@ + b + " reduced, "@ + c + " remaining\n"@ + staged_text(
        files_resolved,
        dry_run,
        no_add,
    )
}

/// `out` is the summary of a run: the total and the coloured counts, and
/// how many files were staged.
pub open spec fn is_summary(
    out: Seq<char>,
    total: FileResult,
    files_resolved: usize,
    dry_run: bool,
    no_add: bool,
    color: bool,
) -> bool {
    exists|a: Seq<char>, b: Seq<char>, c: Seq<char>| #[trigger]
        summary_from(out, a, b, c, total, files_resolved, dry_run, no_add, color)
}

/// The summary of a run, when there were conflicts.
fn summary_line(total: &FileResult, files_resolved: usize, dry_run: bool, no_add: bool, color: bool) -> (r: Option<String>)
    requires
        total.total() <= usize::MAX,
    ensures
        total.total() == 0 ==> r is None,
        total.total() > 0 ==> (r matches Some(s) && is_summary(
            s@,
            *total,
            files_resolved,
            dry_run,
            no_add,
            color,
        )),
{
    let n = total.total_conflicts();
    if n == 0 {
        return None;
    }
    let a = colorize(decimal_string(total.resolved), Paint::Green, color);
    let b = colorize(decimal_string(total.partially_resolved), Paint::Yellow, color);
    let c = colorize(decimal_string(total.failed), Paint::Red, color);
    let mut out = String::new();
    if dry_run {
        append_str(&mut out, "(dry run) ");
    }
    let ghost start = out@;
    append_str(&mut out, "Summary: ");
    append_decimal(&mut out, n);
    append_str(&mut out, " conflicts in total: ");
    append_str(&mut out, a.as_str());
    append_str(&mut out, " resolved, ");
    append_str(&mut out, b.as_str());
    append_str(&mut out, " reduced, ");
    append_str(&mut out, c.as_str());
    append_str(&mut out, " remaining\n");
    let ghost mid = out@;
    if files_resolved > 0 && !dry_run && !no_add {
        append_str(&mut out, "Staged ");
        append_decimal(&mut out, files_resolved);
        append_str(&mut out, " fully resolved file");
        if files_resolved != 1 {
            append_str(&mut out, "s");
        }
        append_str(&mut out, ".\n");
    }
    proof {
        assert(start =~= (if dry_run {
            "(dry run) "@
        } else {
            Seq::empty()
        }));
        assert(out@ =~= mid + staged_text(files_resolved, dry_run, no_add));
        assert(summary_from(out@, a@, b@, c@, *total, files_resolved, dry_run, no_add, color));
    }
    Some(out)
}

impl GitMediateReport {
    /// Closes the report: records the totals and flags, appends the
    /// summary (after an empty line when something was reported before)
    /// when there were conflicts, and sets the exit code, which is 1 when
    /// a conflict remains in some form and 0 otherwise.
    pub fn finish(&mut self, total: &FileResult, files_resolved: usize, dry_run: bool, no_add: bool, color: bool)
        requires
            total.total() <= usize::MAX,
        ensures
            final(self)@.total == *total,
            final(self)@.files_resolved == files_resolved,
            final(self)@.dry_run == dry_run,
            final(self)@.no_add == no_add,
            final(self)@.code == (if total.failed > 0 || total.partially_resolved > 0 {
                1i32
            } else {
                0i32
            }),
            code_matches_totals(final(self)@),
            total.total() == 0 ==> final(self)@.text == old(self)@.text,
            total.total() > 0 ==> exists|s: Seq<char>| #[trigger]
                is_summary(s, *total, files_resolved, dry_run, no_add, color) && final(self)@.text
                    == old(self)@.text + (if old(self)@.text.len() == 0 {
                    Seq::empty()
                } else {
                    seq!['\n']
                }) + s,
    {
        self.total = FileResult {
            resolved: total.resolved,
            partially_resolved: total.partially_resolved,
            failed: total.failed,
        };
        self.files_resolved = files_resolved;
        self.dry_run = dry_run;
        self.no_add = no_add;
        let ghost before = self.output@;
        match summary_line(total, files_resolved, dry_run, no_add, color) {
            Some(summary) => {
                let was_empty = self.output.as_str().is_empty();
                if !was_empty {
                    push_char(&mut self.output, '\n');
                }
                append_str(&mut self.output, summary.as_str());
                proof {
                    assert(self.output@ =~= before + (if before.len() == 0 {
                        Seq::empty()
                    } else {
                        seq!['\n']
                    }) + summary@);
                }
            },
            None => {},
        }
        self.exit_code = if total.failed > 0 || total.partially_resolved > 0 {
            1
        } else {
            0
        };
    }
}

} // verus!

verus! {

// ---------------------------------------------------------------------
// One file of a run.
// ---------------------------------------------------------------------
/// What processing a file's content gave.
pub struct FileOutcome {
    /// The counts of its conflicts.
    pub result: FileResult,
    /// The conflicts left in it, reduced or not.
    pub remaining_conflicts: Vec<Conflict>,
    /// Whether it had conflicts before resolving.
    pub had_conflicts: bool,
    /// A message to report about it.
    pub message: Option<String>,
    /// The content to write back, when something was resolved or reduced
    /// and the run writes files.
    pub new_content: Option<String>,
}

/// The conflicts among the chunks, in order.
pub open spec fn conflicts_of(cs: Seq<ChunkView>) -> Seq<ConflictView>
    decreases cs.len(),
{
    if cs.len() == 0 {
        Seq::empty()
    } else {
        conflicts_of(cs.drop_last()) + match cs.last() {
            ChunkView::Conflict(c) => seq![c],
            ChunkView::Plain(_) => Seq::empty(),
        }
    }
}

pub open spec fn conflicts_view(v: Seq<Conflict>) -> Seq<ConflictView> {
    v.map_values(|c: Conflict| c@)
}

/// `m` reports the parse error `e` of the file at `path`, with the word
/// `s` in front as it was coloured.
pub open spec fn error_line_from(m: Seq<char>, s: Seq<char>, path: Seq<char>, e: ParseError) -> bool {
    is_painting(s, "error:"@, '1') && m == s + " "@ + path + ": "@ + parse_error_text(e)
}

/// `m` reports the parse error `e` of the file at `path`.
pub open spec fn is_error_line(m: Seq<char>, path: Seq<char>, e: ParseError) -> bool {
    exists|s: Seq<char>| #[trigger] error_line_from(m, s, path, e)
}

/// What processing parsed chunks gives: the counts and conflicts left of
/// their resolution, whether they held a conflict, no message, and the
/// resolved text to write when something was resolved or reduced and the
/// run writes files.
pub open spec fn resolved_outcome(
    o: FileOutcome,
    cs: Seq<ChunkView>,
    options: ResolveOptions,
    dry_run: bool,
) -> bool {
    let out = resolve_chunks_spec(cs, options);
    let tally = chunks_tally(cs, options);
    &&& o.result.resolved == tally.0
    &&& o.result.partially_resolved == tally.1
    &&& o.result.failed == tally.2
    &&& conflicts_view(o.remaining_conflicts@) == conflicts_of(out)
    &&& o.had_conflicts == (count_conflicts(cs) > 0)
    &&& o.message is None
    &&& (o.new_content is Some <==> ((tally.0 > 0 || tally.1 > 0) && !dry_run))
    &&& (o.new_content matches Some(t) ==> t@ == chunks_text(out))
}

/// Processes the content of the file at `path`: parses it and resolves
/// its conflicts. A file that does not parse counts as one failed
/// conflict, with a message saying why. `None` where the resolver cannot
/// run on the parsed content (`chunks_resolvable`).
pub fn process_content(path: &str, content: &str, options: &ResolveOptions, dry_run: bool) -> (r: Option<FileOutcome>)
    ensures
        match parse_spec(content@) {
            Err(e) => r matches Some(o) && o.result == counts(0, 0, 1)
                && o.remaining_conflicts@.len() == 0 && !o.had_conflicts && o.new_content is None && (
            o.message matches Some(m) && is_error_line(m@, path@, e)),
            Ok(cs) => (r is Some <==> chunks_resolvable(cs, *options)) && (r matches Some(o)
                ==> resolved_outcome(o, cs, *options, dry_run)),
        },
{
    let chunks = match parse_conflicts(content) {
        Ok(chunks) => chunks,
        Err(err) => {
            let s = paint_red("error:");
            let mut m = copy_string(&s);
            append_str(&mut m, " ");
            append_str(&mut m, path);
            append_str(&mut m, ": ");
            let text = err.message();
            append_str(&mut m, text.as_str());
            proof {
                assert(error_line_from(m@, s@, path@, err));
            }
            return Some(
                FileOutcome {
                    result: FileResult { resolved: 0, partially_resolved: 0, failed: 1 },
                    remaining_conflicts: Vec::new(),
                    had_conflicts: false,
                    message: Some(m),
                    new_content: None,
                },
            );
        },
    };
    let ghost cs = chunks_view(chunks@);
    let mut had_conflicts = false;
    let mut i: usize = 0;
    while i < chunks.len()
        invariant
            i <= chunks@.len(),
            cs == chunks_view(chunks@),
            had_conflicts == (count_conflicts(cs.take(i as int)) > 0),
            count_conflicts(cs.take(i as int)) >= 0,
        decreases chunks@.len() - i,
    {
        proof {
            assert(cs.take(i + 1).drop_last() =~= cs.take(i as int));
            assert(cs.take(i + 1).last() == chunks@[i as int]@);
        }
        match &chunks[i] {
            Chunk::Conflict(_) => {
                had_conflicts = true;
            },
            Chunk::Plain(_) => {},
        }
        i += 1;
    }
    assert(cs.take(chunks@.len() as int) =~= cs);
    let (resolved_chunks, result) = match try_resolve_chunks_with_options(chunks, options) {
        Some(p) => p,
        None => {
            return None;
        },
    };
    let ghost out = chunks_view(resolved_chunks@);
    let mut remaining: Vec<Conflict> = Vec::new();
    let mut j: usize = 0;
    while j < resolved_chunks.len()
        invariant
            j <= resolved_chunks@.len(),
            out == chunks_view(resolved_chunks@),
            conflicts_view(remaining@) == conflicts_of(out.take(j as int)),
        decreases resolved_chunks@.len() - j,
    {
        proof {
            assert(out.take(j + 1).drop_last() =~= out.take(j as int));
            assert(out.take(j + 1).last() == resolved_chunks@[j as int]@);
        }
        let ghost before = remaining@;
        match &resolved_chunks[j] {
            Chunk::Conflict(c) => {
                remaining.push(c.duplicate());
                assert(conflicts_view(remaining@) =~= conflicts_view(before).push(c@));
            },
            Chunk::Plain(_) => {
                assert(conflicts_view(remaining@) =~= conflicts_view(before) + Seq::<ConflictView>::empty());
            },
        }
        j += 1;
    }
    assert(out.take(resolved_chunks@.len() as int) =~= out);
    let new_content = if (result.resolved > 0 || result.partially_resolved > 0) && !dry_run {
        Some(chunks_to_string(resolved_chunks.as_slice()))
    } else {
        None
    };
    Some(FileOutcome { result, remaining_conflicts: remaining, had_conflicts, message: None, new_content })
}

/// The diffs asked for the conflicts left in a file, each as a conflict and
/// whether it is the diffs of both sides against the base (or the direct
/// diff between the sides): the side diffs of each conflict, then the
/// direct diff of each.
pub open spec fn diff_plan(cs: Seq<ConflictView>, show_diff: bool, show_diff2: bool) -> Seq<(ConflictView, bool)> {
    (if show_diff {
        cs.map_values(|c: ConflictView| (c, true))
    } else {
        Seq::empty()
    }) + (if show_diff2 {
        cs.map_values(|c: ConflictView| (c, false))
    } else {
        Seq::empty()
    })
}

/// Whether the planned diff can be shown with `context` lines of context.
pub open spec fn diff_fits(d: (ConflictView, bool), context: nat) -> bool {
    if d.1 {
        side_diffs_fit(d.0, context)
    } else {
        diff2_fits(d.0, context)
    }
}

/// `t` shows the planned diff.
pub open spec fn shows_diff(t: Seq<char>, d: (ConflictView, bool), color: bool, context: nat) -> bool {
    if d.1 {
        is_side_diffs(t, d.0, color, context)
    } else {
        is_diff2(t, d.0, color, context)
    }
}

/// The diffs asked for the conflicts left in a file, in the order of
/// `diff_plan`; `None` when one of them cannot be shown with the context
/// given.
pub fn file_diffs(conflicts: &[Conflict], show_diff: bool, show_diff2: bool, color: bool, context: usize) -> (r: Option<Vec<String>>)
    ensures
        r is Some <==> forall|i: int|
            0 <= i < diff_plan(conflicts_view(conflicts@), show_diff, show_diff2).len() ==> diff_fits(
                #[trigger] diff_plan(conflicts_view(conflicts@), show_diff, show_diff2)[i],
                context as nat,
            ),
        r matches Some(v) ==> v@.len() == diff_plan(conflicts_view(conflicts@), show_diff, show_diff2).len()
            && forall|i: int|
            0 <= i < v@.len() ==> shows_diff(
                #[trigger] v@[i]@,
                diff_plan(conflicts_view(conflicts@), show_diff, show_diff2)[i],
                color,
                context as nat,
            ),
{
    let ghost cv = conflicts_view(conflicts@);
    let ghost plan = diff_plan(cv, show_diff, show_diff2);
    let ghost first: Seq<(ConflictView, bool)> = if show_diff {
        cv.map_values(|c: ConflictView| (c, true))
    } else {
        Seq::empty()
    };
    let ghost second: Seq<(ConflictView, bool)> = if show_diff2 {
        cv.map_values(|c: ConflictView| (c, false))
    } else {
        Seq::empty()
    };
    assert(plan == first + second);
    let mut out: Vec<String> = Vec::new();
    if show_diff {
        let mut i: usize = 0;
        while i < conflicts.len()
            invariant
                i <= conflicts@.len(),
                show_diff,
                cv == conflicts_view(conflicts@),
                first == cv.map_values(|c: ConflictView| (c, true)),
                plan == first + second,
                plan == diff_plan(conflicts_view(conflicts@), show_diff, show_diff2),
                out@.len() == i,
                forall|k: int| 0 <= k < i ==> diff_fits(#[trigger] first[k], context as nat),
                forall|k: int| 0 <= k < i ==> shows_diff(#[trigger] out@[k]@, first[k], color, context as nat),
            decreases conflicts@.len() - i,
        {
            assert(first[i as int] == (conflicts@[i as int]@, true));
            match try_show_side_diffs(&conflicts[i], color, context) {
                Some(t) => {
                    out.push(t);
                },
                None => {
                    assert(plan[i as int] == first[i as int]);
                    assert(!diff_fits(plan[i as int], context as nat));
                    return None;
                },
            }
            i += 1;
        }
    }
    assert(out@.len() == first.len());
    if show_diff2 {
        let mut i: usize = 0;
        while i < conflicts.len()
            invariant
                i <= conflicts@.len(),
                show_diff2,
                cv == conflicts_view(conflicts@),
                second == cv.map_values(|c: ConflictView| (c, false)),
                plan == first + second,
                plan == diff_plan(conflicts_view(conflicts@), show_diff, show_diff2),
                out@.len() == first.len() + i,
                forall|k: int| 0 <= k < first.len() ==> diff_fits(#[trigger] first[k], context as nat),
                forall|k: int| 0 <= k < i ==> diff_fits(#[trigger] second[k], context as nat),
                forall|k: int| 0 <= k < first.len() + i ==> shows_diff(#[trigger] out@[k]@, plan[k], color, context as nat),
            decreases conflicts@.len() - i,
        {
            assert(second[i as int] == (conflicts@[i as int]@, false));
            match try_show_diff2(&conflicts[i], color, context) {
                Some(t) => {
                    out.push(t);
                    assert(plan[first.len() + i] == second[i as int]);
                },
                None => {
                    assert(plan[first.len() + i] == second[i as int]);
                    assert(!diff_fits(plan[first.len() + i], context as nat));
                    return None;
                },
            }
            i += 1;
        }
    }
    proof {
        assert forall|k: int| 0 <= k < plan.len() implies diff_fits(#[trigger] plan[k], context as nat) by {
            if k < first.len() {
                assert(plan[k] == first[k]);
            } else {
                assert(plan[k] == second[k - first.len()]);
            }
        }
    }
    Some(out)
}

} // verus!

verus! {

/// The text a line adds to the report: the line and a line feed.
pub open spec fn line_text(l: Option<Seq<char>>) -> Seq<char> {
    match l {
        Some(t) => t + seq!['\n'],
        None => Seq::empty(),
    }
}

/// `l` is what reports a file's counts: nothing when it had no conflicts,
/// its result line otherwise.
pub open spec fn is_result_report(l: Option<Seq<char>>, path: Seq<char>, r: FileResult, color: bool) -> bool {
    &&& r.total() == 0 ==> l is None
    &&& r.total() > 0 ==> (l matches Some(t) && is_result_line(t, path, r, color))
}

/// The texts concatenated.
pub open spec fn concat_all(ts: Seq<Seq<char>>) -> Seq<char>
    decreases ts.len(),
{
    if ts.len() == 0 {
        Seq::empty()
    } else {
        concat_all(ts.drop_last()) + ts.last()
    }
}

pub open spec fn opt_view(o: Option<String>) -> Option<Seq<char>> {
    match o {
        Some(s) => Some(s@),
        None => None,
    }
}

impl GitMediateReport {
    /// Reports a file: its message, then its result line, then the diffs
    /// shown for it.
    pub fn report_file(&mut self, path: &str, outcome: &FileOutcome, diffs: &[String], color: bool)
        ensures
            exists|l: Option<Seq<char>>| #[trigger]
                is_result_report(l, path@, outcome.result, color) && final(self)@ == (ReportView {
                    text: old(self)@.text + line_text(opt_view(outcome.message)) + line_text(l)
                        + concat_all(lines_view(diffs@)),
                    ..old(self)@
                }),
    {
        let ghost start = self@;
        if let Some(message) = &outcome.message {
            self.push_line(message.as_str());
        }
        let ghost after_message = self@;
        assert(after_message.text =~= start.text + line_text(opt_view(outcome.message)));
        let line = file_result_line(path, &outcome.result, color);
        let ghost l = opt_view(line);
        self.extend(line);
        let ghost after_line = self@;
        assert(after_line.text =~= after_message.text + line_text(l));
        let mut i: usize = 0;
        while i < diffs.len()
            invariant
                i <= diffs@.len(),
                self@ == (ReportView {
                    text: after_line.text + concat_all(lines_view(diffs@).take(i as int)),
                    ..start
                }),
                after_line == (ReportView { text: after_line.text, ..start }),
            decreases diffs@.len() - i,
        {
            proof {
                assert(lines_view(diffs@).take(i + 1).drop_last() =~= lines_view(diffs@).take(i as int));
            }
            self.push_raw(diffs[i].as_str());
            proof {
                assert(self@.text =~= after_line.text + concat_all(lines_view(diffs@).take(i + 1)));
            }
            i += 1;
        }
        proof {
            assert(lines_view(diffs@).take(diffs@.len() as int) =~= lines_view(diffs@));
            assert(is_result_report(l, path@, outcome.result, color));
            assert(self@.text =~= start.text + line_text(opt_view(outcome.message)) + line_text(l)
                + concat_all(lines_view(diffs@)));
        }
    }
}

impl FileOutcome {
    /// Whether the file counts as fully resolved: no conflict is left in
    /// any form, and it had conflicts that were resolved or none at all.
    pub fn counts_as_resolved(&self) -> (r: bool)
        ensures
            r == (self.result.partially_resolved == 0 && self.result.failed == 0 && (
            self.result.total() > 0 || !self.had_conflicts)),
    {
        self.result.is_fully_resolved() && (self.result.resolved > 0 || self.result.partially_resolved
            > 0 || self.result.failed > 0 || !self.had_conflicts)
    }

    /// Where to open the editor: the first line of the first conflict left,
    /// when the editor is asked for and a conflict is left.
    pub fn editor_line(&self, editor: bool) -> (r: Option<usize>)
        ensures
            r == (if editor && self.remaining_conflicts@.len() > 0 {
                Some(self.remaining_conflicts@[0].markers.ours.line_number)
            } else {
                None
            }),
    {
        if editor && self.remaining_conflicts.len() > 0 {
            Some(self.remaining_conflicts[0].start_line())
        } else {
            None
        }
    }
}

impl GitMediateBuilder {
    /// Whether a file in a delete/modify state is prepared for mediation
    /// and removed when it comes out empty: only when the run writes files.
    pub fn touches_delete_modify(&self, is_delete_modify: bool) -> (r: bool)
        ensures
            r == (is_delete_modify && !self.dry_run),
    {
        is_delete_modify && !self.dry_run
    }

    /// Whether a file is staged: it counts as fully resolved, the run
    /// writes and adds files, and the file was not removed for being empty.
    pub fn stages(&self, counts_as_resolved: bool, removed_empty_file: bool) -> (r: bool)
        ensures
            r == (counts_as_resolved && !self.dry_run && !self.no_add && !removed_empty_file),
    {
        counts_as_resolved && !self.dry_run && !self.no_add && !removed_empty_file
    }
}

/// `m` warns that the editor could not be opened on the file at `path`,
/// with the word `s` in front as it was coloured.
pub open spec fn warning_line_from(m: Seq<char>, s: Seq<char>, path: Seq<char>, error: Seq<char>) -> bool {
    is_painting(s, "warning:"@, '3') && m == s + " "@ + path + ": "@ + error
}

/// The warning reported when the editor could not be opened on a file.
pub fn editor_warning(path: &str, error: &str) -> (r: String)
    ensures
        exists|s: Seq<char>| #[trigger] warning_line_from(r@, s, path@, error@),
{
    let s = paint_yellow("warning:");
    let mut m = copy_string(&s);
    append_str(&mut m, " ");
    append_str(&mut m, path);
    append_str(&mut m, ": ");
    append_str(&mut m, error);
    assert(warning_line_from(m@, s@, path@, error@));
    m
}

/// Adds a file's counts to the run's totals, and counts the file as fully
/// resolved when it is. `false`, with nothing changed, when a count would
/// not fit in a `usize`.
pub fn record_file(total: &mut FileResult, files_resolved: &mut usize, result: &FileResult, fully_resolved: bool) -> (ok: bool)
    ensures
        ok == (old(total).resolved + result.resolved <= usize::MAX && old(total).partially_resolved
            + result.partially_resolved <= usize::MAX && old(total).failed + result.failed <= usize::MAX
            && (fully_resolved ==> *old(files_resolved) < usize::MAX)),
        ok ==> final(total).resolved == old(total).resolved + result.resolved
            && final(total).partially_resolved == old(total).partially_resolved + result.partially_resolved
            && final(total).failed == old(total).failed + result.failed && *final(files_resolved) == (
        if fully_resolved {
            *old(files_resolved) + 1
        } else {
            *old(files_resolved) as int
        }),
        !ok ==> *final(total) == *old(total) && *final(files_resolved) == *old(files_resolved),
{
    if total.resolved > usize::MAX - result.resolved || total.partially_resolved > usize::MAX
        - result.partially_resolved || total.failed > usize::MAX - result.failed || (fully_resolved
        && *files_resolved == usize::MAX) {
        return false;
    }
    total.resolved = total.resolved + result.resolved;
    total.partially_resolved = total.partially_resolved + result.partially_resolved;
    total.failed = total.failed + result.failed;
    if fully_resolved {
        *files_resolved = *files_resolved + 1;
    }
    true
}

} // verus!
