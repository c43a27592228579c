//! The computations behind talking to git: reading `git status`, deciding
//! about the conflict style, and writing a delete/modify conflict.
use vstd::prelude::*;

use crate::parse::{
    ParseError, Seek, chunks_from, conflict_at, ends_with_nl, is_marker, lemma_first_with_at,
    lemma_lines_of_concat, lemma_lines_of_line, line_is_marker, lines_of, parse_spec, seek_matches,
    split_lines, strip_cr, vlines,
};
use crate::text::{
    append_decimal, append_str, chars_of, copy_string, decimal, lemma_terminated_concat, trim_spec,
    trim_text,
    line_terminated, lines_view, literal,
    push_char, string_from_range,
};
use crate::types::{
    ChunkView, ConflictSides, ConflictView, MarkersView, UnmergedFile, UnmergedStatus,
};

verus! {

impl View for UnmergedFile {
    type V = (UnmergedStatus, Seq<char>);

    open spec fn view(&self) -> (UnmergedStatus, Seq<char>) {
        (self.status, self.path@)
    }
}

// ---------------------------------------------------------------------
// `git status --porcelain -z`.
// ---------------------------------------------------------------------
/// The pieces of a text between NUL characters; one more piece than there
/// are NULs.
pub open spec fn split_nul(s: Seq<char>) -> Seq<Seq<char>>
    decreases s.len(),
{
    if s.len() == 0 {
        seq![Seq::<char>::empty()]
    } else {
        let init = split_nul(s.drop_last());
        if s.last() == '\0' {
            init.push(Seq::<char>::empty())
        } else {
            init.update(init.len() - 1, init.last().push(s.last()))
        }
    }
}

pub proof fn lemma_split_nul_len(s: Seq<char>)
    ensures
        split_nul(s).len() >= 1,
    decreases s.len(),
{
    if s.len() > 0 {
        lemma_split_nul_len(s.drop_last());
    }
}

/// The number of bytes of a character in UTF-8.
pub open spec fn utf8_width(c: char) -> int {
    let u = c as u32;
    if u < 0x80 {
        1
    } else if u < 0x800 {
        2
    } else if u < 0x10000 {
        3
    } else {
        4
    }
}

/// Whether byte offset `b` of the UTF-8 text `s` falls between characters.
pub open spec fn is_byte_boundary(s: Seq<char>, b: int) -> bool
    decreases s.len(),
{
    if b == 0 {
        true
    } else if s.len() == 0 || b < 0 {
        false
    } else if utf8_width(s[0]) > b {
        false
    } else {
        is_byte_boundary(s.skip(1), b - utf8_width(s[0]))
    }
}

/// The number of bytes of a text in UTF-8.
pub open spec fn utf8_len(s: Seq<char>) -> int
    decreases s.len(),
{
    if s.len() == 0 {
        0
    } else {
        utf8_width(s[0]) + utf8_len(s.skip(1))
    }
}

/// Whether an entry can be cut into its two status bytes, a separator and
/// a path: entries of fewer than three bytes are skipped, others must have
/// characters end at bytes two and three.
pub open spec fn entry_sliceable(e: Seq<char>) -> bool {
    utf8_len(e) < 3 || (is_byte_boundary(e, 2) && is_byte_boundary(e, 3))
}

/// The status that a two-letter code of `git status` names, for the
/// unmerged states this tool handles.
pub open spec fn status_code(x: char, y: char) -> Option<UnmergedStatus> {
    if (x == 'U' && y == 'U') || (x == 'A' && y == 'A') || (x == 'D' && y == 'A') || (x == 'A' && y
        == 'D') {
        Some(UnmergedStatus::BothModified)
    } else if x == 'D' && y == 'U' {
        Some(UnmergedStatus::DeletedByUs)
    } else if x == 'U' && y == 'D' {
        Some(UnmergedStatus::DeletedByThem)
    } else {
        None
    }
}

/// The unmerged file an entry names, if it names one: its status from the
/// two-letter code, its path after the separator.
pub open spec fn entry_file(e: Seq<char>) -> Option<(UnmergedStatus, Seq<char>)> {
    if e.len() >= 3 && status_code(e[0], e[1]) is Some {
        Some((status_code(e[0], e[1])->Some_0, e.skip(3)))
    } else {
        None
    }
}

/// The unmerged files the entries name, in order.
pub open spec fn entries_files(es: Seq<Seq<char>>) -> Seq<(UnmergedStatus, Seq<char>)>
    decreases es.len(),
{
    if es.len() == 0 {
        Seq::empty()
    } else {
        let init = entries_files(es.drop_last());
        match entry_file(es.last()) {
            Some(f) => init.push(f),
            None => init,
        }
    }
}

pub open spec fn files_view(v: Seq<UnmergedFile>) -> Seq<(UnmergedStatus, Seq<char>)> {
    v.map_values(|f: UnmergedFile| f@)
}

fn code_of(x: char, y: char) -> (r: Option<UnmergedStatus>)
    ensures
        r == status_code(x, y),
{
    if (x == 'U' && y == 'U') || (x == 'A' && y == 'A') || (x == 'D' && y == 'A') || (x == 'A'
        && y == 'D') {
        Some(UnmergedStatus::BothModified)
    } else if x == 'D' && y == 'U' {
        Some(UnmergedStatus::DeletedByUs)
    } else if x == 'U' && y == 'D' {
        Some(UnmergedStatus::DeletedByThem)
    } else {
        None
    }
}

fn push_entry(files: &mut Vec<UnmergedFile>, entry: &Vec<char>)
    ensures
        files_view(final(files)@) == match entry_file(entry@) {
            Some(f) => files_view(old(files)@).push(f),
            None => files_view(old(files)@),
        },
{
    if entry.len() < 3 {
        return;
    }
    match code_of(entry[0], entry[1]) {
        Some(status) => {
            let path = string_from_range(entry.as_slice(), 3, entry.len());
            let ghost before = files@;
            files.push(UnmergedFile { status, path });
            proof {
                assert(entry@.subrange(3, entry@.len() as int) =~= entry@.skip(3));
                assert(files_view(files@) =~= files_view(before).push((status, path@)));
            }
        },
        None => {},
    }
}

/// Parse `git status --porcelain -z` output for unmerged entries: the
/// NUL-separated entries whose two-letter code names an unmerged state
/// handled here, with the path after the code and its separator.
pub fn parse_status_output(raw: &str) -> (r: Vec<UnmergedFile>)
    requires
        forall|i: int| 0 <= i < split_nul(raw@).len() ==> entry_sliceable(#[trigger] split_nul(raw@)[i]),
    ensures
        files_view(r@) == entries_files(split_nul(raw@)),
{
    let cs = chars_of(raw);
    let mut files: Vec<UnmergedFile> = Vec::new();
    let mut cur: Vec<char> = Vec::new();
    let mut i: usize = 0;
    proof {
        assert(cs@.take(0) =~= Seq::<char>::empty());
        assert(files_view(files@) =~= entries_files(split_nul(cs@.take(0)).drop_last()));
    }
    while i < cs.len()
        invariant
            i <= cs@.len(),
            split_nul(cs@.take(i as int)).len() >= 1,
            files_view(files@) == entries_files(split_nul(cs@.take(i as int)).drop_last()),
            cur@ == split_nul(cs@.take(i as int)).last(),
        decreases cs@.len() - i,
    {
        let c = cs[i];
        let ghost p = split_nul(cs@.take(i as int));
        proof {
            assert(cs@.take(i + 1).drop_last() =~= cs@.take(i as int));
            assert(cs@.take(i + 1).last() == c);
        }
        if c == '\0' {
            push_entry(&mut files, &cur);
            cur = Vec::new();
            proof {
                let q = split_nul(cs@.take(i + 1));
                assert(q.drop_last() =~= p);
                lemma_split_nul_len(cs@.take(i + 1));
                assert(p =~= p.drop_last().push(p.last()));
            }
        } else {
            cur.push(c);
            proof {
                let q = split_nul(cs@.take(i + 1));
                assert(q.drop_last() =~= p.drop_last());
            }
        }
        i += 1;
    }
    proof {
        assert(cs@.take(cs@.len() as int) =~= cs@);
        let p = split_nul(cs@);
        assert(p =~= p.drop_last().push(p.last()));
    }
    push_entry(&mut files, &cur);
    files
}

/// The status of the first listed file with the given path.
pub open spec fn status_in(files: Seq<(UnmergedStatus, Seq<char>)>, path: Seq<char>) -> Option<UnmergedStatus>
    decreases files.len(),
{
    if files.len() == 0 {
        None
    } else if files[0].1 == path {
        Some(files[0].0)
    } else {
        status_in(files.skip(1), path)
    }
}

/// The status of `path` among the unmerged files.
pub fn unmerged_status(files: &[UnmergedFile], path: &str) -> (r: Option<UnmergedStatus>)
    ensures
        r == status_in(files_view(files@), path@),
{
    let ghost fv = files_view(files@);
    let target = crate::text::literal(path);
    let mut i: usize = 0;
    assert(fv.skip(0) =~= fv);
    while i < files.len()
        invariant
            i <= files@.len(),
            fv == files_view(files@),
            target@ == path@,
            status_in(fv.skip(i as int), path@) == status_in(fv, path@),
        decreases files@.len() - i,
    {
        proof {
            assert(fv.skip(i as int)[0] == files@[i as int]@);
            assert(fv.skip(i as int).skip(1) =~= fv.skip(i + 1));
        }
        if files[i].path == target {
            return Some(files[i].status);
        }
        i += 1;
    }
    None
}

/// Whether a file is in a delete/modify state.
pub open spec fn is_deleted_status(s: Option<UnmergedStatus>) -> bool {
    s == Some(UnmergedStatus::DeletedByUs) || s == Some(UnmergedStatus::DeletedByThem)
}

/// The files to process, each with whether it is in a delete/modify state:
/// the given file alone when there is one, otherwise every unmerged file.
pub open spec fn files_to_process_spec(
    merge_file: Option<Seq<char>>,
    unmerged: Seq<(UnmergedStatus, Seq<char>)>,
) -> Seq<(Seq<char>, bool)> {
    match merge_file {
        Some(p) => seq![(p, is_deleted_status(status_in(unmerged, p)))],
        None => unmerged.map_values(
            |f: (UnmergedStatus, Seq<char>)| (f.1, f.0 != UnmergedStatus::BothModified),
        ),
    }
}

pub open spec fn pairs_view(v: Seq<(String, bool)>) -> Seq<(Seq<char>, bool)> {
    v.map_values(|p: (String, bool)| (p.0@, p.1))
}

/// The files to process, each with whether it is in a delete/modify state.
pub fn files_to_process(merge_file: Option<&str>, unmerged: &[UnmergedFile]) -> (r: Vec<(String, bool)>)
    ensures
        pairs_view(r@) == files_to_process_spec(
            match merge_file {
                Some(p) => Some(p@),
                None => None,
            },
            files_view(unmerged@),
        ),
{
    if let Some(path) = merge_file {
        let status = unmerged_status(unmerged, path);
        let deleted = match status {
            Some(UnmergedStatus::DeletedByUs) | Some(UnmergedStatus::DeletedByThem) => true,
            _ => false,
        };
        let v = vec![(crate::text::literal(path), deleted)];
        assert(pairs_view(v@) =~= seq![(path@, deleted)]);
        return v;
    }
    let mut out: Vec<(String, bool)> = Vec::new();
    let mut i: usize = 0;
    while i < unmerged.len()
        invariant
            i <= unmerged@.len(),
            pairs_view(out@) =~= files_view(unmerged@).take(i as int).map_values(
                |f: (UnmergedStatus, Seq<char>)| (f.1, f.0 != UnmergedStatus::BothModified),
            ),
        decreases unmerged@.len() - i,
    {
        let f = &unmerged[i];
        let deleted = match f.status {
            UnmergedStatus::DeletedByUs | UnmergedStatus::DeletedByThem => true,
            UnmergedStatus::BothModified => false,
        };
        let ghost before = out@;
        let p = copy_string(&f.path);
        out.push((p, deleted));
        proof {
            assert(pairs_view(out@) =~= pairs_view(before).push((p@, deleted)));
            assert(files_view(unmerged@).take(i + 1) =~= files_view(unmerged@).take(i as int).push(
                unmerged@[i as int]@,
            ));
        }
        i += 1;
    }
    proof {
        assert(files_view(unmerged@).take(unmerged@.len() as int) =~= files_view(unmerged@));
    }
    out
}

} // verus!

verus! {

// ---------------------------------------------------------------------
// The conflict style.
// ---------------------------------------------------------------------
/// Where the check of `merge.conflictstyle` stands: before anything was
/// changed, or after the style was set.
#[derive(Debug, Clone, Copy, PartialEq, Eq, Structural)]
pub enum StyleCheck {
    Initial,
    AfterSet,
}

/// What to do about `merge.conflictstyle`.
#[derive(Debug)]
pub enum StyleAction {
    /// The style keeps the base; go on.
    Accept,
    /// Set the style to `diff3` globally, then check again.
    SetStyle,
    /// Stop with this message.
    Refuse(String),
}

/// The styles that keep the base in conflicts: `diff3` and `zdiff3`.
pub open spec fn keeps_base(style: Option<Seq<char>>) -> bool {
    style == Some("diff3"@) || style == Some("zdiff3"@)
}

/// The message when the style does not keep the base and may not be set.
pub open spec fn style_refusal(style: Option<Seq<char>>) -> Seq<char> {
    "merge.conflictstyle is '"@ + match style {
        Some(s) => s,
        None => "unset"@,
    } + "', but git-mediate requires 'diff3' (or 'zdiff3').\nRun: git config merge.conflictstyle diff3"@
}

/// The message when setting the style did not take.
pub open spec fn style_override_message() -> Seq<char> {
    "attempt to set merge.conflictstyle failed; a repo-local git config may still override it"@
}

/// What is done about the conflict style at a step, given the style
/// that git reports now.
pub open spec fn style_action_spec(step: StyleCheck, current: Option<Seq<char>>, set_if_needed: bool) -> Option<Seq<char>> {
    // `None` stands for going on, `Some(m)` for stopping with `m`; setting
    // the style is `style_sets`.
    match step {
        StyleCheck::Initial => if keeps_base(current) || set_if_needed {
            None
        } else {
            Some(style_refusal(current))
        },
        StyleCheck::AfterSet => if current == Some("diff3"@) {
            None
        } else {
            Some(style_override_message())
        },
    }
}

fn same_text(a: &str, b: &str) -> (r: bool)
    ensures
        r == (a@ == b@),
{
    let x = literal(a);
    let y = literal(b);
    x == y
}

/// Ensures `merge.conflictstyle` keeps the base, one step at a time:
/// given where the check stands and the style git reports now, accept a
/// style that keeps the base (after setting, only `diff3`), ask to set
/// it when allowed and not yet done, and refuse otherwise.
pub fn ensure_diff3_conflict_style(step: StyleCheck, current: Option<&str>, set_if_needed: bool) -> (r: StyleAction)
    ensures
        ({
            let cur = match current {
                Some(s) => Some(s@),
                None => None,
            };
            match r {
                StyleAction::Accept => step == StyleCheck::Initial && keeps_base(cur) || step
                    == StyleCheck::AfterSet && cur == Some("diff3"@),
                StyleAction::SetStyle => step == StyleCheck::Initial && !keeps_base(cur) && set_if_needed,
                StyleAction::Refuse(m) => style_action_spec(step, cur, set_if_needed) == Some(m@),
            }
        }),
        r is Refuse <==> style_action_spec(
            step,
            match current {
                Some(s) => Some(s@),
                None => None,
            },
            set_if_needed,
        ) is Some,
{
    match step {
        StyleCheck::Initial => {
            let keeps = match current {
                Some(s) => same_text(s, "diff3") || same_text(s, "zdiff3"),
                None => false,
            };
            if keeps {
                StyleAction::Accept
            } else if set_if_needed {
                StyleAction::SetStyle
            } else {
                let mut m = literal("merge.conflictstyle is '");
                match current {
                    Some(s) => append_str(&mut m, s),
                    None => append_str(&mut m, "unset"),
                }
                append_str(
                    &mut m,
                    "', but git-mediate requires 'diff3' (or 'zdiff3').\nRun: git config merge.conflictstyle diff3",
                );
                StyleAction::Refuse(m)
            }
        },
        StyleCheck::AfterSet => {
            let ok = match current {
                Some(s) => same_text(s, "diff3"),
                None => false,
            };
            if ok {
                StyleAction::Accept
            } else {
                StyleAction::Refuse(
                    literal(
                        "attempt to set merge.conflictstyle failed; a repo-local git config may still override it",
                    ),
                )
            }
        },
    }
}

// ---------------------------------------------------------------------
// Delete/modify conflicts.
// ---------------------------------------------------------------------
/// The text with a line feed added at its end, unless it is empty or
/// already ends with one.
pub open spec fn with_trailing_newline(s: Seq<char>) -> Seq<char> {
    if s.len() == 0 || s.last() == '\n' {
        s
    } else {
        s.push('\n')
    }
}

pub fn ensure_trailing_newline(content: &str) -> (r: String)
    ensures
        r@ == with_trailing_newline(content@),
{
    let cs = chars_of(content);
    let mut s = literal(content);
    if cs.len() > 0 && cs[cs.len() - 1] != '\n' {
        push_char(&mut s, '\n');
    }
    s
}

/// Whether a line of the text begins a conflict.
pub open spec fn has_conflict_marker_spec(content: Seq<char>) -> bool {
    exists|i: int| 0 <= i < lines_of(content).len() && is_marker(#[trigger] lines_of(content)[i], '<')
}

/// Whether a line of the text begins with `<<<<<<<`.
pub fn has_conflict_marker(content: &str) -> (r: bool)
    ensures
        r == has_conflict_marker_spec(content@),
{
    let cs = chars_of(content);
    let lines = split_lines(&cs);
    let ghost ls = lines_of(content@);
    let mut i: usize = 0;
    while i < lines.len()
        invariant
            i <= lines@.len(),
            vlines(lines@) == ls,
            ls == lines_of(content@),
            forall|k: int| 0 <= k < i ==> !is_marker(#[trigger] ls[k], '<'),
        decreases lines@.len() - i,
    {
        assert(ls[i as int] == lines@[i as int]@);
        if line_is_marker(&lines[i], '<') {
            return true;
        }
        i += 1;
    }
    false
}

/// The conflict written for a file in a delete/modify state, from its
/// three versions, each ending with a line feed unless empty.
pub open spec fn delete_modify_text(ours: Seq<char>, base: Seq<char>, theirs: Seq<char>) -> Seq<char> {
    "<<<<<<< LOCAL\n"@ + with_trailing_newline(ours) + "||||||| BASE\n"@ + with_trailing_newline(base)
        + "=======\n"@ + with_trailing_newline(theirs) + ">>>>>>> REMOTE\n"@
}

/// The conflict written for a file in a delete/modify state.
pub fn delete_modify_conflict_text(ours: &str, base: &str, theirs: &str) -> (r: String)
    ensures
        r@ == delete_modify_text(ours@, base@, theirs@),
{
    let mut s = literal("<<<<<<< LOCAL\n");
    let o = ensure_trailing_newline(ours);
    append_str(&mut s, o.as_str());
    append_str(&mut s, "||||||| BASE\n");
    let b = ensure_trailing_newline(base);
    append_str(&mut s, b.as_str());
    append_str(&mut s, "=======\n");
    let t = ensure_trailing_newline(theirs);
    append_str(&mut s, t.as_str());
    append_str(&mut s, ">>>>>>> REMOTE\n");
    s
}

// ---------------------------------------------------------------------
// The editor.
// ---------------------------------------------------------------------
/// Whether `t` occurs in `s`.
pub open spec fn contains_text(s: Seq<char>, t: Seq<char>) -> bool {
    exists|i: int| 0 <= i <= s.len() - t.len() && #[trigger] s.subrange(i, i + t.len()) == t
}

fn matches_at(s: &Vec<char>, t: &Vec<char>, i: usize) -> (r: bool)
    requires
        i + t@.len() <= s@.len(),
    ensures
        r == (s@.subrange(i as int, i + t@.len()) == t@),
{
    let n = s.len();
    let mut j: usize = 0;
    while j < t.len()
        invariant
            j <= t@.len(),
            n == s@.len(),
            i + t@.len() <= s@.len(),
            forall|m: int| 0 <= m < j ==> s@[i + m] == t@[m],
        decreases t@.len() - j,
    {
        if s[i + j] != t[j] {
            assert(s@.subrange(i as int, i + t@.len())[j as int] != t@[j as int]);
            return false;
        }
        j += 1;
    }
    assert(s@.subrange(i as int, i + t@.len()) =~= t@);
    true
}

fn occurs(s: &Vec<char>, t: &Vec<char>) -> (r: bool)
    ensures
        r == contains_text(s@, t@),
{
    if t.len() > s.len() {
        return false;
    }
    let last = s.len() - t.len();
    let mut i: usize = 0;
    loop
        invariant
            t@.len() <= s@.len(),
            last == s@.len() - t@.len(),
            i <= last,
            forall|k: int| 0 <= k < i ==> #[trigger] s@.subrange(k, k + t@.len()) != t@,
        decreases last - i,
    {
        if matches_at(s, t, i) {
            return true;
        }
        if i == last {
            return false;
        }
        i += 1;
    }
}

/// The arguments the editor is started with to open a file at a line:
/// `--goto path:line` for an editor whose name holds `code`, `+line path`
/// for the others.
pub open spec fn editor_args_spec(editor: Seq<char>, path: Seq<char>, line: nat) -> Seq<Seq<char>> {
    if contains_text(editor, "code"@) {
        seq!["--goto"@, path + seq![':'] + decimal(line)]
    } else {
        seq![seq!['+'] + decimal(line), path]
    }
}

/// The arguments the editor is started with to open a file at a line.
pub fn editor_args(editor: &str, path: &str, line: usize) -> (r: Vec<String>)
    ensures
        lines_view(r@) == editor_args_spec(editor@, path@, line as nat),
{
    let e = chars_of(editor);
    let code = chars_of("code");
    if occurs(&e, &code) {
        let mut target = literal(path);
        push_char(&mut target, ':');
        append_decimal(&mut target, line);
        assert(target@ =~= path@ + seq![':'] + decimal(line as nat));
        let v = vec![literal("--goto"), target];
        assert(lines_view(v@) =~= editor_args_spec(editor@, path@, line as nat));
        v
    } else {
        let mut plus = String::new();
        push_char(&mut plus, '+');
        append_decimal(&mut plus, line);
        assert(plus@ =~= seq!['+'] + decimal(line as nat));
        let v = vec![plus, literal(path)];
        assert(lines_view(v@) =~= editor_args_spec(editor@, path@, line as nat));
        v
    }
}

} // verus!

verus! {

// ---------------------------------------------------------------------
// Reading back a delete/modify conflict.
// ---------------------------------------------------------------------
/// The lines of a version as a delete/modify conflict holds it.
pub open spec fn version_lines(s: Seq<char>) -> Seq<Seq<char>> {
    lines_of(with_trailing_newline(s))
}

/// No line is a marker of seven `c`.
pub open spec fn free_of_marker(ls: Seq<Seq<char>>, c: char) -> bool {
    forall|i: int| 0 <= i < ls.len() ==> !is_marker(#[trigger] ls[i], c)
}

/// The conflict a delete/modify conflict is read back as: the markers
/// `LOCAL`, `BASE` and `REMOTE` around the lines of the three versions.
pub open spec fn delete_modify_view(ours: Seq<char>, base: Seq<char>, theirs: Seq<char>) -> ConflictView {
    let o = version_lines(ours);
    let b = version_lines(base);
    let t = version_lines(theirs);
    ConflictView {
        markers: MarkersView {
            ours: (1usize, "<<<<<<< LOCAL"@),
            base: ((o.len() + 2) as usize, "||||||| BASE"@),
            separator: ((o.len() + b.len() + 3) as usize, "======="@),
            theirs: ((o.len() + b.len() + t.len() + 4) as usize, ">>>>>>> REMOTE"@),
        },
        bodies: ConflictSides { ours: o, base: b, theirs: t },
    }
}

proof fn lemma_marker_lines()
    ensures
        "<<<<<<< LOCAL\n"@ == "<<<<<<< LOCAL"@ + seq!['\n'],
        "||||||| BASE\n"@ == "||||||| BASE"@ + seq!['\n'],
        "=======\n"@ == "======="@ + seq!['\n'],
        ">>>>>>> REMOTE\n"@ == ">>>>>>> REMOTE"@ + seq!['\n'],
        !"<<<<<<< LOCAL"@.contains('\n'),
        !"||||||| BASE"@.contains('\n'),
        !"======="@.contains('\n'),
        !">>>>>>> REMOTE"@.contains('\n'),
        strip_cr("<<<<<<< LOCAL"@) == "<<<<<<< LOCAL"@,
        strip_cr("||||||| BASE"@) == "||||||| BASE"@,
        strip_cr("======="@) == "======="@,
        strip_cr(">>>>>>> REMOTE"@) == ">>>>>>> REMOTE"@,
        is_marker("<<<<<<< LOCAL"@, '<'),
        is_marker("||||||| BASE"@, '|'),
        is_marker("======="@, '='),
        is_marker(">>>>>>> REMOTE"@, '>'),
{
    reveal_strlit("<<<<<<< LOCAL\n");
    reveal_strlit("||||||| BASE\n");
    reveal_strlit("=======\n");
    reveal_strlit(">>>>>>> REMOTE\n");
    reveal_strlit("<<<<<<< LOCAL");
    reveal_strlit("||||||| BASE");
    reveal_strlit("=======");
    reveal_strlit(">>>>>>> REMOTE");
    assert("<<<<<<< LOCAL\n"@ =~= "<<<<<<< LOCAL"@ + seq!['\n']);
    assert("||||||| BASE\n"@ =~= "||||||| BASE"@ + seq!['\n']);
    assert("=======\n"@ =~= "======="@ + seq!['\n']);
    assert(">>>>>>> REMOTE\n"@ =~= ">>>>>>> REMOTE"@ + seq!['\n']);
}

} // verus!

verus! {

/// The lines of a delete/modify conflict as written: the marker lines
/// around the lines of the three versions.
proof fn lemma_delete_modify_lines(ours: Seq<char>, base: Seq<char>, theirs: Seq<char>)
    ensures
        lines_of(delete_modify_text(ours, base, theirs)) == seq!["<<<<<<< LOCAL"@] + version_lines(ours)
            + seq!["||||||| BASE"@] + version_lines(base) + seq!["======="@] + version_lines(theirs)
            + seq![">>>>>>> REMOTE"@],
        ends_with_nl(delete_modify_text(ours, base, theirs)),
{
    lemma_marker_lines();
    let l1 = "<<<<<<< LOCAL\n"@;
    let o1 = with_trailing_newline(ours);
    let b1 = "||||||| BASE\n"@;
    let bo1 = with_trailing_newline(base);
    let s1 = "=======\n"@;
    let t1 = with_trailing_newline(theirs);
    let r1 = ">>>>>>> REMOTE\n"@;
    let x1 = l1 + o1;
    let x2 = x1 + b1;
    let x3 = x2 + bo1;
    let x4 = x3 + s1;
    let x5 = x4 + t1;
    assert(x5 + r1 == delete_modify_text(ours, base, theirs));
    assert(line_terminated(l1) && line_terminated(b1) && line_terminated(s1) && line_terminated(r1));
    assert(line_terminated(o1) && line_terminated(bo1) && line_terminated(t1));
    lemma_lines_of_concat(l1, o1);
    lemma_terminated_concat(l1, o1);
    lemma_lines_of_concat(x1, b1);
    lemma_terminated_concat(x1, b1);
    lemma_lines_of_concat(x2, bo1);
    lemma_terminated_concat(x2, bo1);
    lemma_lines_of_concat(x3, s1);
    lemma_terminated_concat(x3, s1);
    lemma_lines_of_concat(x4, t1);
    lemma_terminated_concat(x4, t1);
    lemma_lines_of_concat(x5, r1);
    lemma_lines_of_line("<<<<<<< LOCAL"@);
    lemma_lines_of_line("||||||| BASE"@);
    lemma_lines_of_line("======="@);
    lemma_lines_of_line(">>>>>>> REMOTE"@);
}

/// A delete/modify conflict, as it is written, reads back as one conflict:
/// the markers `LOCAL`, `BASE` and `REMOTE` around the lines of the three
/// versions. This needs the versions not to hold lines that would end a
/// side early: no line of ours like a base or separator marker, no line of
/// the base like a separator marker, no line of theirs like an end marker.
pub proof fn law_delete_modify_text_reads_back(ours: Seq<char>, base: Seq<char>, theirs: Seq<char>)
    requires
        free_of_marker(version_lines(ours), '|'),
        free_of_marker(version_lines(ours), '='),
        free_of_marker(version_lines(base), '='),
        free_of_marker(version_lines(theirs), '>'),
    ensures
        parse_spec(delete_modify_text(ours, base, theirs)) == Ok::<Seq<ChunkView>, ParseError>(
            seq![ChunkView::Conflict(delete_modify_view(ours, base, theirs))],
        ),
{
    lemma_marker_lines();
    lemma_delete_modify_lines(ours, base, theirs);
    let text = delete_modify_text(ours, base, theirs);
    let lm = "<<<<<<< LOCAL"@;
    let bm = "||||||| BASE"@;
    let sm = "======="@;
    let rm = ">>>>>>> REMOTE"@;
    let o = version_lines(ours);
    let b = version_lines(base);
    let t = version_lines(theirs);
    let ls = lines_of(text);
    let j: int = 1int + o.len();
    let s: int = j + 1 + b.len();
    let te: int = s + 1 + t.len();
    assert(ls.len() == te + 1);
    assert(ls[0] == lm);
    assert(ls[j] == bm);
    assert(ls[s] == sm);
    assert(ls[te] == rm);
    // Where the scans stop.
    assert(seek_matches(ls[0], Seek::Ours));
    lemma_first_with_at(ls, 0, Seek::Ours, 0);
    assert forall|i: int| 1 <= i < j implies !seek_matches(#[trigger] ls[i], Seek::BaseOrSeparator) by {
        assert(ls[i] == o[i - 1]);
    }
    lemma_first_with_at(ls, 1, Seek::BaseOrSeparator, j);
    assert forall|i: int| j + 1 <= i < s implies !seek_matches(#[trigger] ls[i], Seek::Separator) by {
        assert(ls[i] == b[i - j - 1]);
    }
    lemma_first_with_at(ls, j + 1, Seek::Separator, s);
    assert forall|i: int| s + 1 <= i < te implies !seek_matches(#[trigger] ls[i], Seek::Theirs) by {
        assert(ls[i] == t[i - s - 1]);
    }
    lemma_first_with_at(ls, s + 1, Seek::Theirs, te);
    lemma_first_with_at(ls, te + 1, Seek::Ours, te + 1);
    assert(ls.subrange(1, j) =~= o);
    assert(ls.subrange(j + 1, s) =~= b);
    assert(ls.subrange(s + 1, te) =~= t);
    let cv = delete_modify_view(ours, base, theirs);
    assert(chunks_from(ls, te + 1, true) == Ok::<(Seq<ChunkView>, bool), ParseError>(
        (Seq::<ChunkView>::empty(), true),
    ));
    assert(conflict_at(ls, 0) == Ok::<(ConflictView, int, bool), ParseError>((cv, te + 1, true)));
    assert(seq![ChunkView::Conflict(cv)] =~= Seq::<ChunkView>::empty() + seq![ChunkView::Conflict(cv)]
        + Seq::<ChunkView>::empty());
    assert(chunks_from(ls, 0, true) == Ok::<(Seq<ChunkView>, bool), ParseError>(
        (seq![ChunkView::Conflict(cv)], true),
    ));
}

} // verus!

verus! {

// ---------------------------------------------------------------------
// Replies of git.
// ---------------------------------------------------------------------
/// The message of a git command that failed: what failed, then the
/// command's error output without surrounding white space.
pub fn failure_message(what: &str, stderr: &str) -> (r: String)
    ensures
        r@ == what@ + ": "@ + trim_spec(stderr@),
{
    let mut m = literal(what);
    append_str(&mut m, ": ");
    let t = trim_text(stderr);
    append_str(&mut m, t.as_str());
    m
}

/// What `git config merge.conflictstyle` answered: the style without
/// surrounding white space when it succeeded; none when it exited with 1,
/// which it does for a key that is not set; an error otherwise.
pub fn conflict_style_from_reply(success: bool, exit_code: Option<i32>, stdout: &str, stderr: &str) -> (r: Result<Option<String>, String>)
    ensures
        success ==> (r matches Ok(Some(s)) && s@ == trim_spec(stdout@)),
        !success && exit_code == Some(1i32) ==> r matches Ok(None),
        !success && exit_code != Some(1i32) ==> (r matches Err(m) && m@ == "git config failed"@
            + ": "@ + trim_spec(stderr@)),
{
    if success {
        return Ok(Some(trim_text(stdout)));
    }
    if exit_code == Some(1i32) {
        return Ok(None);
    }
    Err(failure_message("git config failed", stderr))
}

} // verus!
