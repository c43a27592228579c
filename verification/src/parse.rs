//! Parsing a file into plain chunks and diff3 conflicts, and printing it back.
use vstd::prelude::*;

use crate::text::{
    append_decimal, append_str, chars_of, decimal, joined, lemma_terminated_concat,
    lemma_text_of_concat, lemma_text_of_terminated, line_terminated, lines_view, literal,
    string_from_chars, text_of,
};
use crate::types::{
    Chunk, ChunkView, Conflict, ConflictBody, ConflictMarkers, ConflictSides, ConflictView,
    MarkersView, SrcContent, chunks_view,
};

verus! {

/// Errors that can occur during conflict parsing.
#[derive(Debug)]
pub enum ParseError {
    UnexpectedMarker { line: usize, expected: String, found: String },
    UnterminatedConflict { line: usize, start_line: usize },
    NoDiff3Style,
}

// ---------------------------------------------------------------------
// Lines of a text.
// ---------------------------------------------------------------------
/// The pieces of `s` between line feeds; there is always one more piece
/// than there are line feeds.
pub open spec fn split_nl(s: Seq<char>) -> Seq<Seq<char>>
    decreases s.len(),
{
    if s.len() == 0 {
        seq![Seq::<char>::empty()]
    } else {
        let init = split_nl(s.drop_last());
        if s.last() == '\n' {
            init.push(Seq::<char>::empty())
        } else {
            init.update(init.len() - 1, init.last().push(s.last()))
        }
    }
}

/// A line with one trailing carriage return removed, if it has one.
pub open spec fn strip_cr(l: Seq<char>) -> Seq<char> {
    if l.len() > 0 && l.last() == '\r' {
        l.drop_last()
    } else {
        l
    }
}

/// The lines of a text, as `str::lines` yields them: the pieces between
/// line feeds, where a piece ended by a line feed loses one trailing
/// carriage return, and an empty final piece is not a line.
pub open spec fn lines_of(s: Seq<char>) -> Seq<Seq<char>> {
    let p = split_nl(s);
    let complete = p.drop_last().map_values(|l: Seq<char>| strip_cr(l));
    if p.last().len() == 0 {
        complete
    } else {
        complete.push(p.last())
    }
}

pub proof fn lemma_split_nl_len(s: Seq<char>)
    ensures
        split_nl(s).len() >= 1,
    decreases s.len(),
{
    if s.len() > 0 {
        lemma_split_nl_len(s.drop_last());
    }
}

/// Whether a text ends with a line feed.
pub open spec fn ends_with_nl(s: Seq<char>) -> bool {
    s.len() > 0 && s.last() == '\n'
}

/// The views of a sequence of character vectors.
pub open spec fn vlines(v: Seq<Vec<char>>) -> Seq<Seq<char>> {
    v.map_values(|x: Vec<char>| x@)
}

fn strip_cr_vec(v: Vec<char>) -> (r: Vec<char>)
    ensures
        r@ == strip_cr(v@),
{
    let mut v = v;
    let n = v.len();
    if n > 0 && v[n - 1] == '\r' {
        v.pop();
    }
    v
}

/// Splits characters into lines as `str::lines` does.
pub fn split_lines(cs: &Vec<char>) -> (r: Vec<Vec<char>>)
    ensures
        vlines(r@) == lines_of(cs@),
{
    let mut done: Vec<Vec<char>> = Vec::new();
    let mut cur: Vec<char> = Vec::new();
    let mut i: usize = 0;
    proof {
        assert(cs@.take(0) =~= Seq::<char>::empty());
        assert(vlines(done@) =~= split_nl(cs@.take(0)).drop_last().map_values(
            |l: Seq<char>| strip_cr(l),
        ));
    }
    while i < cs.len()
        invariant
            i <= cs@.len(),
            split_nl(cs@.take(i as int)).len() >= 1,
            vlines(done@) == split_nl(cs@.take(i as int)).drop_last().map_values(
                |l: Seq<char>| strip_cr(l),
            ),
            cur@ == split_nl(cs@.take(i as int)).last(),
        decreases cs@.len() - i,
    {
        let c = cs[i];
        let ghost p = split_nl(cs@.take(i as int));
        let ghost before = done@;
        proof {
            assert(cs@.take(i + 1).drop_last() =~= cs@.take(i as int));
            assert(cs@.take(i + 1).last() == c);
        }
        if c == '\n' {
            let line = strip_cr_vec(cur);
            done.push(line);
            cur = Vec::new();
            proof {
                let q = split_nl(cs@.take(i + 1));
                assert(q == p.push(Seq::<char>::empty()));
                assert(q.drop_last() =~= p);
                assert(p =~= p.drop_last().push(p.last()));
                assert(vlines(done@) =~= vlines(before).push(strip_cr(p.last())));
                assert(vlines(done@) =~= q.drop_last().map_values(|l: Seq<char>| strip_cr(l)));
            }
        } else {
            cur.push(c);
            proof {
                let q = split_nl(cs@.take(i + 1));
                assert(q == p.update(p.len() - 1, p.last().push(c)));
                assert(q.drop_last() =~= p.drop_last());
            }
        }
        i += 1;
    }
    proof {
        assert(cs@.take(cs@.len() as int) =~= cs@);
    }
    if cur.len() == 0 {
        done
    } else {
        let ghost before = done@;
        done.push(cur);
        proof {
            assert(vlines(done@) =~= vlines(before).push(split_nl(cs@).last()));
        }
        done
    }
}

// ---------------------------------------------------------------------
// Markers.
// ---------------------------------------------------------------------
/// Whether a line begins with seven copies of `c`.
pub open spec fn is_marker(l: Seq<char>, c: char) -> bool {
    l.len() >= 7 && forall|i: int| 0 <= i < 7 ==> l[i] == c
}

/// What a scan over lines looks for.
#[derive(Clone, Copy)]
pub enum Seek {
    /// `<<<<<<<`
    Ours,
    /// `|||||||` or `=======`
    BaseOrSeparator,
    /// `=======`
    Separator,
    /// `>>>>>>>`
    Theirs,
}

pub open spec fn seek_matches(l: Seq<char>, k: Seek) -> bool {
    match k {
        Seek::Ours => is_marker(l, '<'),
        Seek::BaseOrSeparator => is_marker(l, '|') || is_marker(l, '='),
        Seek::Separator => is_marker(l, '='),
        Seek::Theirs => is_marker(l, '>'),
    }
}

/// The first index at or after `from` whose line matches `k`, or the
/// number of lines if there is none.
pub open spec fn first_with(ls: Seq<Seq<char>>, from: int, k: Seek) -> int
    decreases ls.len() - from,
{
    if from >= ls.len() {
        ls.len() as int
    } else if seek_matches(ls[from], k) {
        from
    } else {
        first_with(ls, from + 1, k)
    }
}

pub proof fn lemma_first_with(ls: Seq<Seq<char>>, from: int, k: Seek)
    requires
        0 <= from <= ls.len(),
    ensures
        from <= first_with(ls, from, k) <= ls.len(),
        first_with(ls, from, k) < ls.len() ==> seek_matches(ls[first_with(ls, from, k)], k),
        forall|i: int| from <= i < first_with(ls, from, k) ==> !seek_matches(ls[i], k),
    decreases ls.len() - from,
{
    if from < ls.len() && !seek_matches(ls[from], k) {
        lemma_first_with(ls, from + 1, k);
    }
}

pub(crate) fn line_is_marker(l: &Vec<char>, c: char) -> (r: bool)
    ensures
        r == is_marker(l@, c),
{
    if l.len() < 7 {
        return false;
    }
    let mut i: usize = 0;
    while i < 7
        invariant
            l@.len() >= 7,
            i <= 7,
            forall|j: int| 0 <= j < i ==> l@[j] == c,
        decreases 7 - i,
    {
        if l[i] != c {
            return false;
        }
        i += 1;
    }
    true
}

fn line_matches(l: &Vec<char>, k: Seek) -> (r: bool)
    ensures
        r == seek_matches(l@, k),
{
    match k {
        Seek::Ours => line_is_marker(l, '<'),
        Seek::BaseOrSeparator => line_is_marker(l, '|') || line_is_marker(l, '='),
        Seek::Separator => line_is_marker(l, '='),
        Seek::Theirs => line_is_marker(l, '>'),
    }
}

fn find_line(lines: &Vec<Vec<char>>, from: usize, k: Seek) -> (r: usize)
    requires
        from <= lines@.len(),
    ensures
        r == first_with(vlines(lines@), from as int, k),
{
    let ghost ls = vlines(lines@);
    let mut i = from;
    while i < lines.len()
        invariant
            from <= i <= lines@.len(),
            ls == vlines(lines@),
            first_with(ls, i as int, k) == first_with(ls, from as int, k),
        decreases lines@.len() - i,
    {
        if line_matches(&lines[i], k) {
            return i;
        }
        i += 1;
    }
    i
}

// ---------------------------------------------------------------------
// The parse.
// ---------------------------------------------------------------------
/// The text given to a base marker that a conflict lacks.
pub open spec fn no_base_marker() -> Seq<char> {
    seq!['|', '|', '|', '|', '|', '|', '|', ' ', '(', 'n', 'o', ' ', 'b', 'a', 's', 'e', ')']
}

/// The conflict whose `<<<<<<<` marker is line `k`: the conflict, the
/// index of the line after it, and whether it has a base section.
pub open spec fn conflict_at(ls: Seq<Seq<char>>, k: int) -> Result<(ConflictView, int, bool), ParseError> {
    let start = (k + 1) as usize;
    let j = first_with(ls, k + 1, Seek::BaseOrSeparator);
    if j >= ls.len() {
        Err(ParseError::UnterminatedConflict { line: j as usize, start_line: start })
    } else {
        let has_base = is_marker(ls[j], '|');
        let s = if has_base {
            first_with(ls, j + 1, Seek::Separator)
        } else {
            j
        };
        if s >= ls.len() {
            Err(ParseError::UnterminatedConflict { line: s as usize, start_line: start })
        } else {
            let t = first_with(ls, s + 1, Seek::Theirs);
            if t >= ls.len() {
                Err(ParseError::UnterminatedConflict { line: t as usize, start_line: start })
            } else {
                let markers = MarkersView {
                    ours: (start, ls[k]),
                    base: if has_base {
                        ((j + 1) as usize, ls[j])
                    } else {
                        ((j + 1) as usize, no_base_marker())
                    },
                    separator: ((s + 1) as usize, ls[s]),
                    theirs: ((t + 1) as usize, ls[t]),
                };
                let bodies = ConflictSides {
                    ours: ls.subrange(k + 1, j),
                    base: if has_base {
                        ls.subrange(j + 1, s)
                    } else {
                        Seq::empty()
                    },
                    theirs: ls.subrange(s + 1, t),
                };
                Ok((ConflictView { markers, bodies }, t + 1, has_base))
            }
        }
    }
}

/// The trailing plain chunk made of the lines `ls`.
pub open spec fn final_plain(ls: Seq<Seq<char>>, ends_nl: bool) -> Seq<char> {
    if ends_nl {
        text_of(ls)
    } else {
        joined(ls)
    }
}

/// The chunks of the lines from `p` on, and whether every conflict among
/// them has a base section.
pub open spec fn chunks_from(ls: Seq<Seq<char>>, p: int, ends_nl: bool) -> Result<
    (Seq<ChunkView>, bool),
    ParseError,
>
    decreases ls.len() - p,
{
    if p < 0 || p > ls.len() {
        Ok((Seq::empty(), true))
    } else {
        let k = first_with(ls, p, Seek::Ours);
        if k >= ls.len() {
            if p < ls.len() {
                Ok((seq![ChunkView::Plain(final_plain(ls.subrange(p, ls.len() as int), ends_nl))], true))
            } else {
                Ok((Seq::empty(), true))
            }
        } else {
            let pre = if k > p {
                seq![ChunkView::Plain(text_of(ls.subrange(p, k)))]
            } else {
                Seq::empty()
            };
            match conflict_at(ls, k) {
                Err(e) => Err(e),
                Ok((c, next, hb)) => {
                    if next <= p {
                        Ok((Seq::empty(), true))
                    } else {
                        match chunks_from(ls, next, ends_nl) {
                            Err(e) => Err(e),
                            Ok((rest, hb2)) => Ok((pre + seq![ChunkView::Conflict(c)] + rest, hb && hb2)),
                        }
                    }
                }
            }
        }
    }
}

/// What parsing `s` yields.
pub open spec fn parse_spec(s: Seq<char>) -> Result<Seq<ChunkView>, ParseError> {
    match chunks_from(lines_of(s), 0, ends_with_nl(s)) {
        Err(e) => Err(e),
        Ok((cs, all_base)) => if all_base {
            Ok(cs)
        } else {
            Err(ParseError::NoDiff3Style)
        },
    }
}

/// Whether an exec parse result matches a spec one.
pub open spec fn parse_result_matches(
    r: Result<Vec<Chunk>, ParseError>,
    s: Result<Seq<ChunkView>, ParseError>,
) -> bool {
    match r {
        Ok(cs) => s matches Ok(v) && chunks_view(cs@) == v,
        Err(e) => s matches Err(e2) && e == e2,
    }
}

/// The text of an error, as it is shown to the user.
pub open spec fn parse_error_text(e: ParseError) -> Seq<char> {
    match e {
        ParseError::UnexpectedMarker { line, expected, found } => "line "@ + decimal(line as nat)
            + ": expected '"@ + expected@ + "' marker but found '"@ + found@ + "'"@,
        ParseError::UnterminatedConflict { line, start_line } => "line "@ + decimal(line as nat)
            + ": unterminated conflict (started at line "@ + decimal(start_line as nat) + ")"@,
        ParseError::NoDiff3Style => "file has no diff3 base markers (|||||||). Set merge.conflictstyle=diff3"@,
    }
}

impl ParseError {
    /// The text of the error, as it is shown to the user.
    pub fn message(&self) -> (r: String)
        ensures
            r@ == parse_error_text(*self),
    {
        match self {
            ParseError::UnexpectedMarker { line, expected, found } => {
                let mut s = literal("line ");
                append_decimal(&mut s, *line);
                append_str(&mut s, ": expected '");
                append_str(&mut s, expected.as_str());
                append_str(&mut s, "' marker but found '");
                append_str(&mut s, found.as_str());
                append_str(&mut s, "'");
                s
            },
            ParseError::UnterminatedConflict { line, start_line } => {
                let mut s = literal("line ");
                append_decimal(&mut s, *line);
                append_str(&mut s, ": unterminated conflict (started at line ");
                append_decimal(&mut s, *start_line);
                append_str(&mut s, ")");
                s
            },
            ParseError::NoDiff3Style => literal(
                "file has no diff3 base markers (|||||||). Set merge.conflictstyle=diff3",
            ),
        }
    }
}

} // verus!

verus! {

/// Chunks gathered so far, glued in front of the rest of a parse.
pub open spec fn glue(
    acc: Seq<ChunkView>,
    hb: bool,
    r: Result<(Seq<ChunkView>, bool), ParseError>,
) -> Result<(Seq<ChunkView>, bool), ParseError> {
    match r {
        Err(e) => Err(e),
        Ok((rest, hb2)) => Ok((acc + rest, hb && hb2)),
    }
}

fn range_strings(lines: &Vec<Vec<char>>, a: usize, b: usize) -> (r: Vec<String>)
    requires
        a <= b <= lines@.len(),
    ensures
        lines_view(r@) == vlines(lines@).subrange(a as int, b as int),
{
    let mut out: Vec<String> = Vec::new();
    let mut i = a;
    while i < b
        invariant
            a <= i <= b <= lines@.len(),
            lines_view(out@) == vlines(lines@).subrange(a as int, i as int),
        decreases b - i,
    {
        let ghost before = out@;
        let s = string_from_chars(lines[i].as_slice());
        out.push(s);
        proof {
            assert(lines_view(out@) =~= lines_view(before).push(s@));
            assert(vlines(lines@).subrange(a as int, i + 1) =~= vlines(lines@).subrange(
                a as int,
                i as int,
            ).push(lines@[i as int]@));
        }
        i += 1;
    }
    out
}

/// The plain text of lines `a..b`: each line followed by a line feed,
/// except that the last one has none when `last_nl` is false.
fn range_text(lines: &Vec<Vec<char>>, a: usize, b: usize, last_nl: bool) -> (r: String)
    requires
        a < b <= lines@.len(),
    ensures
        r@ == final_plain(vlines(lines@).subrange(a as int, b as int), last_nl),
{
    let ghost ls = vlines(lines@);
    let mut out = String::new();
    let mut i = a;
    while i + 1 < b
        invariant
            a <= i < b <= lines@.len(),
            ls == vlines(lines@),
            out@ == text_of(ls.subrange(a as int, i as int)),
        decreases b - i,
    {
        let s = string_from_chars(lines[i].as_slice());
        append_str(&mut out, s.as_str());
        crate::text::push_char(&mut out, '\n');
        proof {
            assert(ls.subrange(a as int, i + 1).drop_last() =~= ls.subrange(a as int, i as int));
        }
        i += 1;
    }
    let s = string_from_chars(lines[i].as_slice());
    append_str(&mut out, s.as_str());
    if last_nl {
        crate::text::push_char(&mut out, '\n');
    }
    proof {
        assert(ls.subrange(a as int, b as int).drop_last() =~= ls.subrange(a as int, i as int));
    }
    out
}

pub proof fn lemma_conflict_at_next(ls: Seq<Seq<char>>, k: int)
    requires
        0 <= k < ls.len(),
    ensures
        conflict_at(ls, k) matches Ok((c, next, hb)) ==> k < next <= ls.len(),
{
    lemma_first_with(ls, k + 1, Seek::BaseOrSeparator);
    let j = first_with(ls, k + 1, Seek::BaseOrSeparator);
    if j < ls.len() {
        lemma_first_with(ls, j + 1, Seek::Separator);
        let s = if is_marker(ls[j], '|') { first_with(ls, j + 1, Seek::Separator) } else { j };
        if s < ls.len() {
            lemma_first_with(ls, s + 1, Seek::Theirs);
        }
    }
}

/// One step of the parse: the plain lines before a conflict, then the
/// conflict, then the rest.
pub proof fn lemma_chunks_from_step(ls: Seq<Seq<char>>, p: int, e: bool)
    requires
        0 <= p <= ls.len(),
        first_with(ls, p, Seek::Ours) < ls.len(),
    ensures
        ({
            let k = first_with(ls, p, Seek::Ours);
            let pre = if k > p {
                seq![ChunkView::Plain(text_of(ls.subrange(p, k)))]
            } else {
                Seq::<ChunkView>::empty()
            };
            match conflict_at(ls, k) {
                Err(err) => chunks_from(ls, p, e) == Err::<(Seq<ChunkView>, bool), ParseError>(err),
                Ok((c, next, hb)) => p < next <= ls.len() && chunks_from(ls, p, e) == glue(
                    pre + seq![ChunkView::Conflict(c)],
                    hb,
                    chunks_from(ls, next, e),
                ),
            }
        }),
{
    let k = first_with(ls, p, Seek::Ours);
    lemma_first_with(ls, p, Seek::Ours);
    lemma_conflict_at_next(ls, k);
}

fn no_base_text() -> (r: String)
    ensures
        r@ == no_base_marker(),
{
    let r = String::from_str("||||||| (no base)");
    proof {
        reveal_strlit("||||||| (no base)");
        assert(r@ =~= no_base_marker());
    }
    r
}

fn conflict_at_exec(lines: &Vec<Vec<char>>, k: usize) -> (r: Result<(Conflict, usize, bool), ParseError>)
    requires
        k < lines@.len(),
    ensures
        match r {
            Ok((c, next, hb)) => conflict_at(vlines(lines@), k as int) matches Ok((cv, n2, hb2))
                && c@ == cv && next == n2 && hb == hb2 && k < next <= lines@.len(),
            Err(e) => conflict_at(vlines(lines@), k as int) matches Err(e2) && e == e2,
        },
{
    let ghost ls = vlines(lines@);
    let n = lines.len();
    let start = k + 1;
    let j = find_line(lines, k + 1, Seek::BaseOrSeparator);
    proof {
        lemma_first_with(ls, k + 1, Seek::BaseOrSeparator);
    }
    if j >= n {
        return Err(ParseError::UnterminatedConflict { line: j, start_line: start });
    }
    let has_base = line_is_marker(&lines[j], '|');
    let s = if has_base {
        proof {
            lemma_first_with(ls, j + 1, Seek::Separator);
        }
        find_line(lines, j + 1, Seek::Separator)
    } else {
        j
    };
    if s >= n {
        return Err(ParseError::UnterminatedConflict { line: s, start_line: start });
    }
    let t = find_line(lines, s + 1, Seek::Theirs);
    proof {
        lemma_first_with(ls, s + 1, Seek::Theirs);
    }
    if t >= n {
        return Err(ParseError::UnterminatedConflict { line: t, start_line: start });
    }
    let ours_marker = SrcContent::new(start, string_from_chars(lines[k].as_slice()));
    let base_marker = if has_base {
        SrcContent::new(j + 1, string_from_chars(lines[j].as_slice()))
    } else {
        SrcContent::new(j + 1, no_base_text())
    };
    let separator_marker = SrcContent::new(s + 1, string_from_chars(lines[s].as_slice()));
    let theirs_marker = SrcContent::new(t + 1, string_from_chars(lines[t].as_slice()));
    let ours_body = range_strings(lines, k + 1, j);
    let base_body = if has_base {
        range_strings(lines, j + 1, s)
    } else {
        Vec::new()
    };
    let theirs_body = range_strings(lines, s + 1, t);
    let c = Conflict {
        markers: ConflictMarkers::new(ours_marker, base_marker, separator_marker, theirs_marker),
        bodies: ConflictSides::new(
            ConflictBody::new(ours_body),
            ConflictBody::new(base_body),
            ConflictBody::new(theirs_body),
        ),
    };
    proof {
        if !has_base {
            assert(lines_view(base_body@) =~= Seq::<Seq<char>>::empty());
        }
    }
    proof {
        lemma_conflict_at_next(ls, k as int);
    }
    Ok((c, t + 1, has_base))
}

/// Parse a file's content into a sequence of plain text and conflict chunks.
///
/// The file must use diff3 conflict style (with `|||||||` base markers).
pub fn parse_conflicts(content: &str) -> (r: Result<Vec<Chunk>, ParseError>)
    ensures
        parse_result_matches(r, parse_spec(content@)),
{
    let cs = chars_of(content);
    let lines = split_lines(&cs);
    let ends_nl = cs.len() > 0 && cs[cs.len() - 1] == '\n';
    let ghost ls = vlines(lines@);
    let n = lines.len();
    let mut chunks: Vec<Chunk> = Vec::new();
    let mut all_base = true;
    let mut p: usize = 0;
    proof {
        assert(ends_nl == ends_with_nl(content@));
        let r0 = chunks_from(ls, 0, ends_nl);
        match r0 {
            Ok((rest, hb2)) => {
                assert(Seq::<ChunkView>::empty() + rest =~= rest);
            },
            Err(_) => {},
        }
    }
    loop
        invariant
            p <= n,
            n == lines@.len(),
            ls == vlines(lines@),
            ls == lines_of(content@),
            ends_nl == ends_with_nl(content@),
            chunks_from(ls, 0, ends_nl) == glue(chunks_view(chunks@), all_base, chunks_from(ls, p as int, ends_nl)),
        decreases n - p,
    {
        let ghost before = chunks@;
        let k = find_line(&lines, p, Seek::Ours);
        proof {
            lemma_first_with(ls, p as int, Seek::Ours);
        }
        if k >= n {
            if p < n {
                let t = range_text(&lines, p, n, ends_nl);
                chunks.push(Chunk::Plain(t));
                proof {
                    assert(chunks_view(chunks@) =~= chunks_view(before).push(ChunkView::Plain(t@)));
                }
            } else {
                proof {
                    assert(chunks_view(before) + Seq::<ChunkView>::empty() =~= chunks_view(before));
                }
            }
            proof {
                let fin = if p < n {
                    seq![ChunkView::Plain(final_plain(ls.subrange(p as int, n as int), ends_nl))]
                } else {
                    Seq::<ChunkView>::empty()
                };
                assert(chunks_from(ls, p as int, ends_nl) == Ok::<(Seq<ChunkView>, bool), ParseError>((fin, true)));
                assert(chunks_view(chunks@) =~= chunks_view(before) + fin);
            }
            if !all_base {
                return Err(ParseError::NoDiff3Style);
            }
            return Ok(chunks);
        }
        if k > p {
            let t = range_text(&lines, p, k, true);
            chunks.push(Chunk::Plain(t));
        }
        let ghost after_pre = chunks@;
        proof {
            lemma_chunks_from_step(ls, p as int, ends_nl);
        }
        match conflict_at_exec(&lines, k) {
            Err(e) => {
                return Err(e);
            },
            Ok((c, next, hb)) => {
                let ghost cv = c@;
                chunks.push(Chunk::Conflict(c));
                all_base = all_base && hb;
                proof {
                    let pre = if k > p {
                        seq![ChunkView::Plain(text_of(ls.subrange(p as int, k as int)))]
                    } else {
                        Seq::<ChunkView>::empty()
                    };
                    assert(chunks_view(after_pre) =~= chunks_view(before) + pre);
                    assert(chunks_view(chunks@) =~= chunks_view(before) + pre + seq![ChunkView::Conflict(cv)]);
                    match chunks_from(ls, next as int, ends_nl) {
                        Ok((rest, hb2)) => {
                            assert(chunks_view(before) + (pre + seq![ChunkView::Conflict(cv)] + rest)
                                =~= chunks_view(chunks@) + rest);
                        },
                        Err(_) => {},
                    }
                }
                p = next;
            },
        }
    }
}

} // verus!

verus! {

// ---------------------------------------------------------------------
// Printing.
// ---------------------------------------------------------------------
/// The text of one chunk: plain text as it is, a conflict as its marker
/// and body lines, each followed by a line feed.
pub open spec fn chunk_text(c: ChunkView) -> Seq<char> {
    match c {
        ChunkView::Plain(t) => t,
        ChunkView::Conflict(cv) => text_of(cv.conflict_lines()),
    }
}

/// The texts of the chunks, concatenated.
pub open spec fn chunks_text(cs: Seq<ChunkView>) -> Seq<char>
    decreases cs.len(),
{
    if cs.len() == 0 {
        Seq::empty()
    } else {
        chunks_text(cs.drop_last()) + chunk_text(cs.last())
    }
}

pub proof fn lemma_chunks_text_concat(a: Seq<ChunkView>, b: Seq<ChunkView>)
    ensures
        chunks_text(a + b) == chunks_text(a) + chunks_text(b),
    decreases b.len(),
{
    if b.len() == 0 {
        assert(a + b =~= a);
        assert(chunks_text(a) + chunks_text(b) =~= chunks_text(a));
    } else {
        lemma_chunks_text_concat(a, b.drop_last());
        assert((a + b).drop_last() =~= a + b.drop_last());
        assert(chunks_text(a) + chunks_text(b) =~= chunks_text(a) + chunks_text(b.drop_last())
            + chunk_text(b.last()));
    }
}

pub proof fn lemma_chunks_text_single(c: ChunkView)
    ensures
        chunks_text(seq![c]) == chunk_text(c),
{
    assert(seq![c].drop_last() =~= Seq::<ChunkView>::empty());
    assert(chunks_text(Seq::<ChunkView>::empty()) =~= Seq::<char>::empty());
    assert(Seq::<char>::empty() + chunk_text(c) =~= chunk_text(c));
}

/// Reconstruct file content from parsed chunks (resolved or not).
pub fn chunks_to_string(chunks: &[Chunk]) -> (r: String)
    ensures
        r@ == chunks_text(chunks_view(chunks@)),
{
    let mut out = String::new();
    let mut i: usize = 0;
    while i < chunks.len()
        invariant
            i <= chunks@.len(),
            out@ == chunks_text(chunks_view(chunks@.take(i as int))),
        decreases chunks@.len() - i,
    {
        match &chunks[i] {
            Chunk::Plain(text) => append_str(&mut out, text.as_str()),
            Chunk::Conflict(conflict) => {
                let t = conflict.to_conflict_text();
                append_str(&mut out, t.as_str());
            },
        }
        proof {
            assert(chunks_view(chunks@.take(i + 1)).drop_last() =~= chunks_view(
                chunks@.take(i as int),
            ));
        }
        i += 1;
    }
    assert(chunks@.take(chunks@.len() as int) =~= chunks@);
    out
}

// ---------------------------------------------------------------------
// Printing a parse gives the text back.
// ---------------------------------------------------------------------
/// Whether no carriage return is directly followed by a line feed.
pub open spec fn no_crlf(s: Seq<char>) -> bool {
    forall|i: int| 0 <= i < s.len() - 1 ==> !(#[trigger] s[i] == '\r' && s[i + 1] == '\n')
}

proof fn lemma_split_nl_facts(s: Seq<char>)
    ensures
        split_nl(s).len() >= 1,
        joined(split_nl(s)) == s,
        split_nl(s).last().len() > 0 ==> s.len() > 0 && split_nl(s).last().last() == s.last(),
        ends_with_nl(s) ==> split_nl(s).last().len() == 0,
        s.len() > 0 && !ends_with_nl(s) ==> split_nl(s).last().len() > 0,
        no_crlf(s) ==> forall|i: int|
            0 <= i < split_nl(s).len() - 1 ==> strip_cr(#[trigger] split_nl(s)[i]) == split_nl(s)[i],
    decreases s.len(),
{
    if s.len() == 0 {
        assert(split_nl(s).drop_last() =~= Seq::<Seq<char>>::empty());
        assert(joined(split_nl(s)) =~= s);
    } else {
        let t = s.drop_last();
        let c = s.last();
        lemma_split_nl_facts(t);
        let p = split_nl(t);
        let q = split_nl(s);
        assert(no_crlf(s) ==> no_crlf(t)) by {
            if no_crlf(s) {
                assert forall|i: int| 0 <= i < t.len() - 1 implies !(#[trigger] t[i] == '\r' && t[i + 1] == '\n') by {
                    assert(t[i] == s[i] && t[i + 1] == s[i + 1]);
                }
            }
        }
        if c == '\n' {
            assert(q == p.push(Seq::<char>::empty()));
            assert(q.drop_last() =~= p);
            assert(joined(q) =~= text_of(p) + Seq::<char>::empty());
            assert(text_of(p) == text_of(p.drop_last()) + p.last() + seq!['\n']);
            assert(joined(q) =~= s);
            if no_crlf(s) {
                assert forall|i: int| 0 <= i < q.len() - 1 implies strip_cr(#[trigger] q[i]) == q[i] by {
                    if i < p.len() - 1 {
                        assert(q[i] == p[i]);
                    } else {
                        assert(q[i] == p.last());
                        if p.last().len() > 0 && p.last().last() == '\r' {
                            assert(t.last() == '\r');
                            assert(s[t.len() - 1] == '\r' && s[t.len() as int] == '\n');
                            assert(false);
                        }
                    }
                }
            }
        } else {
            assert(q == p.update(p.len() - 1, p.last().push(c)));
            assert(q.drop_last() =~= p.drop_last());
            assert(joined(q) =~= joined(p) + seq![c]);
            assert(joined(q) =~= s);
            if no_crlf(s) {
                assert forall|i: int| 0 <= i < q.len() - 1 implies strip_cr(#[trigger] q[i]) == q[i] by {
                    assert(q[i] == p[i]);
                }
            }
        }
    }
}

/// A text without carriage-return line feeds is its lines, each followed
/// by a line feed, except that a final line without one stays without.
proof fn lemma_lines_of_text(s: Seq<char>)
    requires
        no_crlf(s),
    ensures
        ends_with_nl(s) || s.len() == 0 ==> text_of(lines_of(s)) == s,
        !(ends_with_nl(s) || s.len() == 0) ==> joined(lines_of(s)) == s && lines_of(s).len() > 0,
{
    lemma_split_nl_facts(s);
    let p = split_nl(s);
    let complete = p.drop_last().map_values(|l: Seq<char>| strip_cr(l));
    assert(complete =~= p.drop_last());
    if ends_with_nl(s) || s.len() == 0 {
        if s.len() == 0 {
            assert(p.last().len() == 0);
        }
        assert(lines_of(s) == p.drop_last());
        assert(text_of(p.drop_last()) + p.last() =~= text_of(p.drop_last()));
    } else {
        assert(lines_of(s) =~= p);
    }
}

proof fn lemma_text_joined_concat(a: Seq<Seq<char>>, b: Seq<Seq<char>>)
    requires
        b.len() > 0,
    ensures
        text_of(a) + joined(b) == joined(a + b),
{
    lemma_text_of_concat(a, b.drop_last());
    assert((a + b).drop_last() =~= a + b.drop_last());
    assert((a + b).last() == b.last());
}

/// The text of what is parsed from line `p` on is the text of those lines.
proof fn lemma_chunks_from_text(ls: Seq<Seq<char>>, p: int, e: bool)
    requires
        0 <= p <= ls.len(),
        chunks_from(ls, p, e) matches Ok((cs, hb)) && hb,
    ensures
        chunks_from(ls, p, e) matches Ok((cs, hb)) && (if e || cs.len() == 0
            || cs.last() is Conflict {
            chunks_text(cs) == text_of(ls.subrange(p, ls.len() as int))
        } else {
            chunks_text(cs) == joined(ls.subrange(p, ls.len() as int))
        }),
    decreases ls.len() - p,
{
    let k = first_with(ls, p, Seek::Ours);
    lemma_first_with(ls, p, Seek::Ours);
    let n = ls.len() as int;
    if k >= n {
        if p < n {
            let cs = seq![ChunkView::Plain(final_plain(ls.subrange(p, n), e))];
            assert(chunks_from(ls, p, e) == Ok::<(Seq<ChunkView>, bool), ParseError>((cs, true)));
            lemma_chunks_text_single(cs[0]);
            assert(cs =~= seq![cs[0]]);
        } else {
            assert(ls.subrange(p, n) =~= Seq::<Seq<char>>::empty());
        }
    } else {
        lemma_chunks_from_step(ls, p, e);
        let pre = if k > p {
            seq![ChunkView::Plain(text_of(ls.subrange(p, k)))]
        } else {
            Seq::<ChunkView>::empty()
        };
        let (c, next, hb) = conflict_at(ls, k)->Ok_0;
        let (rest, hb2) = chunks_from(ls, next, e)->Ok_0;
        lemma_chunks_from_text(ls, next, e);
        let cs = pre + seq![ChunkView::Conflict(c)] + rest;
        // The conflict's lines are exactly lines `k..next`.
        assert(hb);
        lemma_first_with(ls, k + 1, Seek::BaseOrSeparator);
        let j = first_with(ls, k + 1, Seek::BaseOrSeparator);
        lemma_first_with(ls, j + 1, Seek::Separator);
        let s = first_with(ls, j + 1, Seek::Separator);
        lemma_first_with(ls, s + 1, Seek::Theirs);
        assert(c.conflict_lines() =~= ls.subrange(k, next));
        lemma_chunks_text_concat(pre, seq![ChunkView::Conflict(c)]);
        lemma_chunks_text_concat(pre + seq![ChunkView::Conflict(c)], rest);
        let single = seq![ChunkView::Conflict(c)];
        lemma_chunks_text_single(ChunkView::Conflict(c));
        let before_text = text_of(ls.subrange(p, k));
        if k > p {
            lemma_chunks_text_single(pre[0]);
            assert(pre =~= seq![pre[0]]);
        } else {
            assert(ls.subrange(p, k) =~= Seq::<Seq<char>>::empty());
            assert(chunks_text(pre) =~= before_text);
        }
        lemma_text_of_concat(ls.subrange(p, k), ls.subrange(k, next));
        assert(ls.subrange(p, k) + ls.subrange(k, next) =~= ls.subrange(p, next));
        assert(ls.subrange(p, next) + ls.subrange(next, n) =~= ls.subrange(p, n));
        if rest.len() > 0 {
            assert(cs.last() == rest.last());
        } else {
            assert(cs.last() == ChunkView::Conflict(c));
        }
        if e || cs.len() == 0 || cs.last() is Conflict {
            lemma_text_of_concat(ls.subrange(p, next), ls.subrange(next, n));
            if rest.len() == 0 {
                assert(chunks_text(rest) =~= Seq::<char>::empty());
                assert(next == n) by {
                    if next < n {
                        // a non-empty remainder always yields a chunk
                        let k2 = first_with(ls, next, Seek::Ours);
                        lemma_first_with(ls, next, Seek::Ours);
                        if k2 < n {
                            lemma_chunks_from_step(ls, next, e);
                        }
                    }
                }
                assert(ls.subrange(next, n) =~= Seq::<Seq<char>>::empty());
            }
        } else {
            assert(rest.len() > 0);
            assert(rest.last() is Plain);
            assert(next < n) by {
                if next == n {
                    assert(ls.subrange(n, n) =~= Seq::<Seq<char>>::empty());
                    let k2 = first_with(ls, next, Seek::Ours);
                    lemma_first_with(ls, next, Seek::Ours);
                }
            }
            lemma_text_joined_concat(ls.subrange(p, next), ls.subrange(next, n));
        }
    }
}

/// Printing what was parsed gives back the text, for every text in which
/// no carriage return is directly followed by a line feed, unless the
/// text ends, without a final line feed, in a conflict's last marker.
pub proof fn law_print_parse_roundtrip(s: Seq<char>)
    requires
        no_crlf(s),
        parse_spec(s) is Ok,
        ends_with_nl(s) || parse_spec(s)->Ok_0.len() == 0 || parse_spec(s)->Ok_0.last() is Plain,
    ensures
        chunks_text(parse_spec(s)->Ok_0) == s,
{
    let ls = lines_of(s);
    let e = ends_with_nl(s);
    lemma_chunks_from_text(ls, 0, e);
    lemma_lines_of_text(s);
    assert(ls.subrange(0, ls.len() as int) =~= ls);
    let cs = parse_spec(s)->Ok_0;
    if !(e || s.len() == 0) && cs.len() == 0 {
        // a non-empty text without conflicts is one plain chunk
        lemma_first_with(ls, 0, Seek::Ours);
        if first_with(ls, 0, Seek::Ours) < ls.len() {
            lemma_chunks_from_step(ls, 0, e);
        }
    }
}

} // verus!

verus! {

/// Whether every chunk's text is empty or ends with a line feed.
pub open spec fn chunks_terminated(cs: Seq<ChunkView>) -> bool {
    forall|i: int| 0 <= i < cs.len() ==> line_terminated(#[trigger] chunk_text(cs[i]))
}

pub proof fn lemma_chunks_text_terminated(cs: Seq<ChunkView>)
    requires
        chunks_terminated(cs),
    ensures
        line_terminated(chunks_text(cs)),
    decreases cs.len(),
{
    if cs.len() > 0 {
        let init = cs.drop_last();
        assert forall|i: int| 0 <= i < init.len() implies line_terminated(#[trigger] chunk_text(init[i])) by {
            assert(init[i] == cs[i]);
        }
        lemma_chunks_text_terminated(init);
        assert(line_terminated(chunk_text(cs[cs.len() - 1])));
        lemma_terminated_concat(chunks_text(init), chunk_text(cs.last()));
    }
}

proof fn lemma_chunks_from_terminated(ls: Seq<Seq<char>>, p: int, e: bool)
    requires
        e || p >= ls.len(),
    ensures
        chunks_from(ls, p, e) matches Ok((cs, _)) ==> chunks_terminated(cs),
    decreases ls.len() - p,
{
    if p < 0 || p > ls.len() {
    } else {
        let k = first_with(ls, p, Seek::Ours);
        if k >= ls.len() {
            if p < ls.len() {
                let c = ChunkView::Plain(final_plain(ls.subrange(p, ls.len() as int), e));
                lemma_text_of_terminated(ls.subrange(p, ls.len() as int));
                assert(chunk_text(seq![c][0]) == chunk_text(c));
            }
        } else {
            let pre = if k > p {
                seq![ChunkView::Plain(text_of(ls.subrange(p, k)))]
            } else {
                Seq::empty()
            };
            lemma_text_of_terminated(ls.subrange(p, k));
            match conflict_at(ls, k) {
                Err(_) => {},
                Ok((c, next, hb)) => {
                    if next > p {
                        lemma_chunks_from_terminated(ls, next, e);
                        match chunks_from(ls, next, e) {
                            Err(_) => {},
                            Ok((rest, hb2)) => {
                                let all = pre + seq![ChunkView::Conflict(c)] + rest;
                                lemma_text_of_terminated(c.conflict_lines());
                                assert forall|i: int| 0 <= i < all.len() implies line_terminated(
                                    #[trigger] chunk_text(all[i]),
                                ) by {
                                    if i < pre.len() {
                                        assert(all[i] == pre[i]);
                                    } else if i == pre.len() {
                                        assert(all[i] == ChunkView::Conflict(c));
                                    } else {
                                        assert(all[i] == rest[i - pre.len() - 1]);
                                    }
                                }
                            },
                        }
                    }
                },
            }
        }
    }
}

/// Every chunk of a text that is empty or ends with a line feed is empty
/// or ends with a line feed.
pub proof fn lemma_parse_terminated(s: Seq<char>)
    requires
        line_terminated(s),
        parse_spec(s) is Ok,
    ensures
        chunks_terminated(parse_spec(s)->Ok_0),
{
    if s.len() == 0 {
        assert(split_nl(s) == seq![Seq::<char>::empty()]);
        assert(lines_of(s).len() == 0);
    }
    lemma_chunks_from_terminated(lines_of(s), 0, ends_with_nl(s));
}

} // verus!

verus! {

pub proof fn lemma_split_nl_concat(a: Seq<char>, b: Seq<char>)
    requires
        line_terminated(a),
    ensures
        split_nl(a + b) == split_nl(a).drop_last() + split_nl(b),
    decreases b.len(),
{
    lemma_split_nl_len(a);
    if b.len() == 0 {
        assert(a + b =~= a);
        if a.len() > 0 {
            assert(a.drop_last() + seq![a.last()] =~= a);
        }
        assert(split_nl(a).last() =~= Seq::<char>::empty());
        assert(split_nl(a).drop_last() + split_nl(b) =~= split_nl(a));
    } else {
        let b2 = b.drop_last();
        lemma_split_nl_concat(a, b2);
        lemma_split_nl_len(b2);
        assert((a + b).drop_last() =~= a + b2);
        assert((a + b).last() == b.last());
        let p = split_nl(a).drop_last();
        let q = split_nl(b2);
        if b.last() == '\n' {
            assert((p + q).push(Seq::<char>::empty()) =~= p + q.push(Seq::<char>::empty()));
        } else {
            let c = b.last();
            assert((p + q).update((p + q).len() - 1, (p + q).last().push(c)) =~= p + q.update(
                q.len() - 1,
                q.last().push(c),
            ));
        }
    }
}

pub proof fn lemma_lines_of_concat(a: Seq<char>, b: Seq<char>)
    requires
        line_terminated(a),
    ensures
        lines_of(a + b) == lines_of(a) + lines_of(b),
{
    lemma_split_nl_concat(a, b);
    lemma_split_nl_len(a);
    lemma_split_nl_len(b);
    let p = split_nl(a).drop_last();
    let q = split_nl(b);
    let f = |l: Seq<char>| strip_cr(l);
    assert(split_nl(a).last() =~= Seq::<char>::empty()) by {
        lemma_split_nl_concat(a, Seq::<char>::empty());
        assert(a + Seq::<char>::empty() =~= a);
        if a.len() > 0 {
            assert(a.drop_last() + seq![a.last()] =~= a);
        }
    }
    assert(lines_of(a) =~= p.map_values(f));
    assert((p + q).drop_last() =~= p + q.drop_last());
    assert((p + q).drop_last().map_values(f) =~= p.map_values(f) + q.drop_last().map_values(f));
    assert((p + q).last() == q.last());
    if q.last().len() == 0 {
        assert(lines_of(a + b) =~= lines_of(a) + lines_of(b));
    } else {
        assert(lines_of(a + b) =~= lines_of(a) + lines_of(b));
    }
}

pub proof fn lemma_split_nl_single(l: Seq<char>)
    requires
        !l.contains('\n'),
    ensures
        split_nl(l) == seq![l],
    decreases l.len(),
{
    if l.len() > 0 {
        assert(!l.drop_last().contains('\n')) by {
            if l.drop_last().contains('\n') {
                let i = choose|i: int| 0 <= i < l.drop_last().len() && l.drop_last()[i] == '\n';
                assert(l[i] == '\n');
            }
        }
        lemma_split_nl_single(l.drop_last());
        assert(l.last() != '\n') by {
            assert(l[l.len() - 1] == l.last());
        }
        assert(l.drop_last().push(l.last()) =~= l);
        assert(seq![l.drop_last()].update(0, l.drop_last().push(l.last())) =~= seq![l]);
    } else {
        assert(l =~= Seq::<char>::empty());
    }
}

/// The one line of a text made of a line without line feeds and a line
/// feed.
pub proof fn lemma_lines_of_line(l: Seq<char>)
    requires
        !l.contains('\n'),
    ensures
        lines_of(l + seq!['\n']) == seq![strip_cr(l)],
{
    lemma_split_nl_single(l);
    let s = l + seq!['\n'];
    assert(s.drop_last() =~= l);
    assert(split_nl(s) =~= seq![l, Seq::<char>::empty()]);
    assert(seq![l].map_values(|x: Seq<char>| strip_cr(x)) =~= seq![strip_cr(l)]);
}

pub proof fn lemma_first_with_at(ls: Seq<Seq<char>>, from: int, k: Seek, j: int)
    requires
        0 <= from <= j <= ls.len(),
        forall|i: int| from <= i < j ==> !seek_matches(#[trigger] ls[i], k),
        j == ls.len() || seek_matches(ls[j], k),
    ensures
        first_with(ls, from, k) == j,
    decreases j - from,
{
    if from < j {
        lemma_first_with_at(ls, from + 1, k, j);
    }
}

} // verus!

verus! {

/// A line that reads back as it is: no line feed in it and no carriage
/// return at its end.
pub open spec fn plain_line(l: Seq<char>) -> bool {
    !l.contains('\n') && !(l.len() > 0 && l.last() == '\r')
}

/// Lines that each read back as they are, printed with a line feed after
/// each, read back as the same lines.
pub proof fn lemma_lines_of_text_of(ls: Seq<Seq<char>>)
    requires
        forall|i: int| 0 <= i < ls.len() ==> plain_line(#[trigger] ls[i]),
    ensures
        lines_of(text_of(ls)) == ls,
    decreases ls.len(),
{
    if ls.len() == 0 {
        assert(split_nl(Seq::<char>::empty()) == seq![Seq::<char>::empty()]);
        assert(lines_of(text_of(ls)) =~= ls);
    } else {
        let init = ls.drop_last();
        assert forall|i: int| 0 <= i < init.len() implies plain_line(#[trigger] init[i]) by {
            assert(init[i] == ls[i]);
        }
        lemma_lines_of_text_of(init);
        assert(plain_line(ls[ls.len() - 1]));
        lemma_text_of_terminated(init);
        lemma_lines_of_concat(text_of(init), ls.last() + seq!['\n']);
        assert(text_of(ls) =~= text_of(init) + (ls.last() + seq!['\n']));
        lemma_lines_of_line(ls.last());
        assert(ls =~= init + seq![ls.last()]);
    }
}

/// Whether a conflict, printed, reads back as itself: its markers are
/// markers of their kind, every line reads back as it is, and no line of a
/// side would end that side early (a base or separator marker in ours, a
/// separator marker in the base, an end marker in theirs).
pub open spec fn reads_back(c: ConflictView) -> bool {
    &&& is_marker(c.markers.ours.1, '<')
    &&& is_marker(c.markers.base.1, '|')
    &&& is_marker(c.markers.separator.1, '=')
    &&& is_marker(c.markers.theirs.1, '>')
    &&& forall|i: int| 0 <= i < c.conflict_lines().len() ==> plain_line(#[trigger] c.conflict_lines()[i])
    &&& forall|i: int|
        0 <= i < c.bodies.ours.len() ==> !is_marker(#[trigger] c.bodies.ours[i], '|') && !is_marker(
            c.bodies.ours[i],
            '=',
        )
    &&& forall|i: int| 0 <= i < c.bodies.base.len() ==> !is_marker(#[trigger] c.bodies.base[i], '=')
    &&& forall|i: int| 0 <= i < c.bodies.theirs.len() ==> !is_marker(#[trigger] c.bodies.theirs[i], '>')
}

/// The conflict with its markers numbered as the lines of its printed text:
/// 1, then after ours, after the base, after theirs.
pub open spec fn renumbered(c: ConflictView) -> ConflictView {
    let o = c.bodies.ours.len();
    let b = c.bodies.base.len();
    let t = c.bodies.theirs.len();
    ConflictView {
        markers: MarkersView {
            ours: (1usize, c.markers.ours.1),
            base: ((o + 2) as usize, c.markers.base.1),
            separator: ((o + b + 3) as usize, c.markers.separator.1),
            theirs: ((o + b + t + 4) as usize, c.markers.theirs.1),
        },
        bodies: c.bodies,
    }
}

/// Parsing a printed conflict gives it back: its bodies and marker texts,
/// with the markers numbered as lines of the printed text, when no line of
/// it would be read otherwise (`reads_back`).
pub proof fn law_conflict_text_reads_back(c: ConflictView)
    requires
        reads_back(c),
    ensures
        parse_spec(text_of(c.conflict_lines())) == Ok::<Seq<ChunkView>, ParseError>(
            seq![ChunkView::Conflict(renumbered(c))],
        ),
{
    let ls = c.conflict_lines();
    let text = text_of(ls);
    lemma_lines_of_text_of(ls);
    let o = c.bodies.ours;
    let b = c.bodies.base;
    let t = c.bodies.theirs;
    let j: int = 1int + o.len();
    let s: int = j + 1 + b.len();
    let te: int = s + 1 + t.len();
    assert(ls.len() == te + 1);
    assert(ls[0] == c.markers.ours.1);
    assert(ls[j] == c.markers.base.1);
    assert(ls[s] == c.markers.separator.1);
    assert(ls[te] == c.markers.theirs.1);
    assert(seek_matches(ls[0], Seek::Ours));
    lemma_first_with_at(ls, 0, Seek::Ours, 0);
    assert forall|i: int| 1 <= i < j implies !seek_matches(#[trigger] ls[i], Seek::BaseOrSeparator) by {
        assert(ls[i] == o[i - 1]);
    }
    lemma_first_with_at(ls, 1, Seek::BaseOrSeparator, j);
    assert forall|i: int| j + 1 <= i < s implies !seek_matches(#[trigger] ls[i], Seek::Separator) by {
        assert(ls[i] == b[i - j - 1]);
    }
    lemma_first_with_at(ls, j + 1, Seek::Separator, s);
    assert forall|i: int| s + 1 <= i < te implies !seek_matches(#[trigger] ls[i], Seek::Theirs) by {
        assert(ls[i] == t[i - s - 1]);
    }
    lemma_first_with_at(ls, s + 1, Seek::Theirs, te);
    lemma_first_with_at(ls, te + 1, Seek::Ours, te + 1);
    assert(ls.subrange(1, j) =~= o);
    assert(ls.subrange(j + 1, s) =~= b);
    assert(ls.subrange(s + 1, te) =~= t);
    assert(text =~= text_of(ls.drop_last()) + ls.last() + seq!['\n']);
    assert(ends_with_nl(text));
    let cv = renumbered(c);
    assert(chunks_from(ls, te + 1, true) == Ok::<(Seq<ChunkView>, bool), ParseError>(
        (Seq::<ChunkView>::empty(), true),
    ));
    assert(conflict_at(ls, 0) == Ok::<(ConflictView, int, bool), ParseError>((cv, te + 1, true)));
    assert(seq![ChunkView::Conflict(cv)] =~= Seq::<ChunkView>::empty() + seq![ChunkView::Conflict(cv)]
        + Seq::<ChunkView>::empty());
    assert(chunks_from(ls, 0, true) == Ok::<(Seq<ChunkView>, bool), ParseError>(
        (seq![ChunkView::Conflict(cv)], true),
    ));
}

} // verus!
