//! Preprocessing a conflict before resolution: expanding tabs and making
//! the line endings of the three sides agree.
use vstd::prelude::*;

use crate::resolve::ResolveOptions;
use crate::resolve::strategies::{law_pick_symmetric, pick};
use crate::resolve::window::swap_bodies;
use crate::text::{chars_of, lines_view, push_char};
use crate::types::{Conflict, ConflictBody, ConflictSides, ConflictView};

verus! {

// ---------------------------------------------------------------------
// Tabs.
// ---------------------------------------------------------------------
/// Tab expansion from column `col` of a tab stop of width `tabsize`: a
/// tab becomes the spaces up to the next tab stop.
pub open spec fn untab_from(l: Seq<char>, col: nat, tabsize: nat) -> Seq<char>
    decreases l.len(),
{
    if l.len() == 0 {
        Seq::empty()
    } else if l[0] == '\t' {
        let spaces = (tabsize - col) as nat;
        Seq::new(spaces, |i: int| ' ') + untab_from(l.skip(1), 0, tabsize)
    } else {
        let next = if col + 1 >= tabsize {
            0
        } else {
            col + 1
        };
        seq![l[0]] + untab_from(l.skip(1), next, tabsize)
    }
}

/// A line with its tabs expanded to tab stops of width `tabsize`.
pub open spec fn untabify_spec(l: Seq<char>, tabsize: nat) -> Seq<char> {
    untab_from(l, 0, tabsize)
}

/// Whether some line holds a tab.
pub open spec fn has_tab(ls: Seq<Seq<char>>) -> bool {
    exists|i: int, j: int| 0 <= i < ls.len() && 0 <= j < ls[i].len() && #[trigger] ls[i][j] == '\t'
}

/// Expands the tabs of a line to tab stops of width `tabsize`.
pub fn untabify_str(input: &str, tabsize: usize) -> (r: String)
    requires
        tabsize > 0 || !input@.contains('\t'),
    ensures
        r@ == untabify_spec(input@, tabsize as nat),
{
    let cs = chars_of(input);
    let mut out = String::new();
    let mut col: usize = 0;
    let mut i: usize = 0;
    proof {
        assert(cs@.skip(0) =~= cs@);
        assert(out@ + untab_from(cs@, 0, tabsize as nat) =~= untab_from(cs@, 0, tabsize as nat));
    }
    while i < cs.len()
        invariant
            i <= cs@.len(),
            cs@ == input@,
            tabsize > 0 || !input@.contains('\t'),
            tabsize > 0 ==> col < tabsize,
            tabsize == 0 ==> col == 0,
            out@ + untab_from(cs@.skip(i as int), col as nat, tabsize as nat) == untabify_spec(input@, tabsize as nat),
        decreases cs@.len() - i,
    {
        let ch = cs[i];
        let ghost rest = cs@.skip(i as int);
        proof {
            assert(rest[0] == ch);
            assert(rest.skip(1) =~= cs@.skip(i + 1));
        }
        if ch == '\t' {
            proof {
                if tabsize == 0 {
                    assert(input@[i as int] == '\t');
                    assert(input@.contains('\t'));
                }
            }
            let spaces = tabsize - col;
            let ghost before = out@;
            let mut k: usize = 0;
            while k < spaces
                invariant
                    k <= spaces,
                    out@ == before + Seq::new(k as nat, |j: int| ' '),
                decreases spaces - k,
            {
                push_char(&mut out, ' ');
                assert(before + Seq::new((k + 1) as nat, |j: int| ' ') =~= (before + Seq::new(k as nat, |j: int| ' ')).push(' '));
                k += 1;
            }
            proof {
                assert(before + (Seq::new(spaces as nat, |j: int| ' ') + untab_from(cs@.skip(i + 1), 0, tabsize as nat))
                    =~= out@ + untab_from(cs@.skip(i + 1), 0, tabsize as nat));
            }
            col = 0;
        } else {
            let ghost before = out@;
            push_char(&mut out, ch);
            let next = if tabsize == 0 || col + 1 >= tabsize {
                0
            } else {
                col + 1
            };
            proof {
                assert(before + (seq![ch] + untab_from(cs@.skip(i + 1), next as nat, tabsize as nat))
                    =~= out@ + untab_from(cs@.skip(i + 1), next as nat, tabsize as nat));
            }
            col = next;
        }
        i += 1;
    }
    proof {
        assert(cs@.skip(cs@.len() as int) =~= Seq::<char>::empty());
        assert(out@ + Seq::<char>::empty() =~= out@);
    }
    out
}

// ---------------------------------------------------------------------
// Line endings.
// ---------------------------------------------------------------------
/// The line ending a body uses.
#[derive(Clone, Copy, Debug, PartialEq, Eq, Structural)]
pub enum LineEnding {
    Lf,
    Crlf,
    Mixed,
    Unknown,
}

pub open spec fn ends_with_cr(l: Seq<char>) -> bool {
    l.len() > 0 && l.last() == '\r'
}

/// The line ending of a body: unknown when all lines are empty, CRLF or
/// LF when all non-empty lines end (or do not end) with a carriage return,
/// mixed otherwise.
pub open spec fn infer_line_endings_spec(ls: Seq<Seq<char>>) -> LineEnding {
    if forall|i: int| 0 <= i < ls.len() ==> #[trigger] ls[i].len() == 0 {
        LineEnding::Unknown
    } else if forall|i: int| 0 <= i < ls.len() && #[trigger] ls[i].len() > 0 ==> ends_with_cr(ls[i]) {
        LineEnding::Crlf
    } else if forall|i: int| 0 <= i < ls.len() && #[trigger] ls[i].len() > 0 ==> !ends_with_cr(ls[i]) {
        LineEnding::Lf
    } else {
        LineEnding::Mixed
    }
}

pub open spec fn is_known(e: LineEnding) -> bool {
    e is Lf || e is Crlf
}

/// The ending the three sides are normalized to: the trivial pick of
/// their endings when that is LF or CRLF; otherwise, when exactly two of
/// them are known, the first known one among base, ours, theirs.
pub open spec fn target_line_ending_spec(e: ConflictSides<LineEnding>) -> Option<LineEnding> {
    match pick(e.ours, e.base, e.theirs) {
        Some(LineEnding::Lf) => Some(LineEnding::Lf),
        Some(LineEnding::Crlf) => Some(LineEnding::Crlf),
        _ => {
            let known = (if is_known(e.ours) { 1int } else { 0 }) + (if is_known(e.base) { 1int } else { 0 })
                + (if is_known(e.theirs) { 1int } else { 0 });
            if known != 2 {
                None
            } else if is_known(e.base) {
                Some(e.base)
            } else if is_known(e.ours) {
                Some(e.ours)
            } else if is_known(e.theirs) {
                Some(e.theirs)
            } else {
                None
            }
        },
    }
}

/// A line without any of its trailing carriage returns.
pub open spec fn trim_crs(l: Seq<char>) -> Seq<char>
    decreases l.len(),
{
    if l.len() > 0 && l.last() == '\r' {
        trim_crs(l.drop_last())
    } else {
        l
    }
}

/// A line ending with a carriage return.
pub open spec fn add_cr(l: Seq<char>) -> Seq<char> {
    if ends_with_cr(l) {
        l
    } else {
        l.push('\r')
    }
}

/// A change applied to every line of a conflict.
#[derive(Clone, Copy)]
pub enum LineMap {
    Untabify(usize),
    TrimCr,
    AddCr,
}

pub open spec fn line_map_spec(m: LineMap, l: Seq<char>) -> Seq<char> {
    match m {
        LineMap::Untabify(t) => untabify_spec(l, t as nat),
        LineMap::TrimCr => trim_crs(l),
        LineMap::AddCr => add_cr(l),
    }
}

pub open spec fn map_lines_spec(m: LineMap, ls: Seq<Seq<char>>) -> Seq<Seq<char>> {
    ls.map_values(|l: Seq<char>| line_map_spec(m, l))
}

pub open spec fn map_conflict_spec(m: LineMap, c: ConflictView) -> ConflictView {
    c.with_bodies(
        ConflictSides {
            ours: map_lines_spec(m, c.bodies.ours),
            base: map_lines_spec(m, c.bodies.base),
            theirs: map_lines_spec(m, c.bodies.theirs),
        },
    )
}

/// The conflict with the line endings of its sides made to agree.
pub open spec fn line_break_fix_spec(c: ConflictView) -> ConflictView {
    let e = ConflictSides {
        ours: infer_line_endings_spec(c.bodies.ours),
        base: infer_line_endings_spec(c.bodies.base),
        theirs: infer_line_endings_spec(c.bodies.theirs),
    };
    if e.ours == e.base && e.base == e.theirs {
        c
    } else {
        match target_line_ending_spec(e) {
            Some(LineEnding::Lf) => map_conflict_spec(LineMap::TrimCr, c),
            Some(LineEnding::Crlf) => map_conflict_spec(LineMap::AddCr, c),
            _ => c,
        }
    }
}

/// The conflict as the resolver sees it: tabs expanded when asked, then
/// line endings made to agree when asked.
pub open spec fn preprocess_spec(c: ConflictView, o: ResolveOptions) -> ConflictView {
    let c1 = match o.untabify {
        Some(t) => map_conflict_spec(LineMap::Untabify(t), c),
        None => c,
    };
    if o.line_endings {
        line_break_fix_spec(c1)
    } else {
        c1
    }
}

/// What the options ask of a conflict to be processed without a fault:
/// tab expansion to width zero only of lines that hold no tab.
pub open spec fn options_fit(c: ConflictView, o: ResolveOptions) -> bool {
    o.untabify == Some(0usize) ==> !has_tab(c.bodies.ours) && !has_tab(c.bodies.base) && !has_tab(
        c.bodies.theirs,
    )
}

} // verus!

verus! {

fn line_ends_with_cr(l: &String) -> (r: bool)
    ensures
        r == ends_with_cr(l@),
{
    let cs = chars_of(l.as_str());
    cs.len() > 0 && cs[cs.len() - 1] == '\r'
}

/// The line ending a body uses.
pub fn infer_line_endings(lines: &ConflictBody) -> (r: LineEnding)
    ensures
        r == infer_line_endings_spec(lines@),
{
    let ls = lines.lines();
    let ghost v = lines@;
    let mut current: Option<LineEnding> = None;
    let mut i: usize = 0;
    while i < ls.len()
        invariant
            i <= ls@.len(),
            lines_view(ls@) == v,
            v == lines@,
            current is None <==> forall|j: int| 0 <= j < i ==> #[trigger] v[j].len() == 0,
            current == Some(LineEnding::Crlf) ==> forall|j: int|
                0 <= j < i && #[trigger] v[j].len() > 0 ==> ends_with_cr(v[j]),
            current == Some(LineEnding::Lf) ==> forall|j: int|
                0 <= j < i && #[trigger] v[j].len() > 0 ==> !ends_with_cr(v[j]),
            current is Some ==> current == Some(LineEnding::Crlf) || current == Some(LineEnding::Lf),
            current is Some ==> exists|j: int| 0 <= j < i && #[trigger] v[j].len() > 0 && (ends_with_cr(v[j]) <==> current == Some(LineEnding::Crlf)),
        decreases ls@.len() - i,
    {
        let line = &ls[i];
        if line.as_str().unicode_len() == 0 {
            i += 1;
            continue;
        }
        let ending = if line_ends_with_cr(line) {
            LineEnding::Crlf
        } else {
            LineEnding::Lf
        };
        match current {
            None => {
                current = Some(ending);
            },
            Some(existing) => {
                if existing != ending {
                    proof {
                        let j = choose|j: int| 0 <= j < i && #[trigger] v[j].len() > 0 && (ends_with_cr(v[j]) <==> current == Some(LineEnding::Crlf));
                        assert(v[i as int] == ls@[i as int]@);
                        assert(v[i as int].len() > 0);
                        assert(ends_with_cr(v[i as int]) != ends_with_cr(v[j]));
                        if ends_with_cr(v[i as int]) {
                            assert(v[j].len() > 0 && !ends_with_cr(v[j]));
                        } else {
                            assert(v[j].len() > 0 && ends_with_cr(v[j]));
                        }
                        assert(!(forall|k: int| 0 <= k < v.len() ==> #[trigger] v[k].len() == 0));
                        assert(!(forall|k: int| 0 <= k < v.len() && #[trigger] v[k].len() > 0 ==> ends_with_cr(v[k])));
                        assert(!(forall|k: int| 0 <= k < v.len() && #[trigger] v[k].len() > 0 ==> !ends_with_cr(v[k])));
                        assert(infer_line_endings_spec(v) == LineEnding::Mixed);
                    }
                    return LineEnding::Mixed;
                }
            },
        }
        i += 1;
    }
    match current {
        None => LineEnding::Unknown,
        Some(e) => {
            proof {
                let j = choose|j: int| 0 <= j < ls@.len() && #[trigger] v[j].len() > 0 && (ends_with_cr(v[j]) <==> current == Some(LineEnding::Crlf));
                assert(v[j].len() > 0);
            }
            e
        },
    }
}

fn pick_ending(ours: LineEnding, base: LineEnding, theirs: LineEnding) -> (r: Option<LineEnding>)
    ensures
        r == pick(ours, base, theirs),
{
    if ours == base {
        Some(theirs)
    } else if theirs == base {
        Some(ours)
    } else if ours == theirs {
        Some(ours)
    } else {
        None
    }
}

fn known(e: LineEnding) -> (r: bool)
    ensures
        r == is_known(e),
{
    match e {
        LineEnding::Lf | LineEnding::Crlf => true,
        _ => false,
    }
}

/// The ending the three sides are normalized to.
pub fn target_line_ending(endings: &ConflictSides<LineEnding>) -> (r: Option<LineEnding>)
    ensures
        r == target_line_ending_spec(*endings),
{
    match pick_ending(endings.ours, endings.base, endings.theirs) {
        Some(LineEnding::Lf) => return Some(LineEnding::Lf),
        Some(LineEnding::Crlf) => return Some(LineEnding::Crlf),
        _ => {},
    }
    let mut count: usize = 0;
    if known(endings.ours) {
        count += 1;
    }
    if known(endings.base) {
        count += 1;
    }
    if known(endings.theirs) {
        count += 1;
    }
    if count != 2 {
        return None;
    }
    if known(endings.base) {
        Some(endings.base)
    } else if known(endings.ours) {
        Some(endings.ours)
    } else if known(endings.theirs) {
        Some(endings.theirs)
    } else {
        None
    }
}

/// A line without its trailing carriage returns.
pub fn normalize_lf(line: &str) -> (r: String)
    ensures
        r@ == trim_crs(line@),
{
    let cs = chars_of(line);
    let mut end = cs.len();
    assert(cs@.take(end as int) =~= cs@);
    while end > 0 && cs[end - 1] == '\r'
        invariant
            end <= cs@.len(),
            trim_crs(cs@.take(end as int)) == trim_crs(cs@),
        decreases end,
    {
        proof {
            assert(cs@.take(end as int).drop_last() =~= cs@.take(end - 1));
        }
        end -= 1;
    }
    proof {
        assert(cs@.take(cs@.len() as int) =~= cs@);
    }
    crate::text::string_from_range(cs.as_slice(), 0, end)
}

fn with_cr(line: &String) -> (r: String)
    ensures
        r@ == add_cr(line@),
{
    if line_ends_with_cr(line) {
        crate::text::copy_string(line)
    } else {
        let mut s = crate::text::copy_string(line);
        push_char(&mut s, '\r');
        s
    }
}

fn apply_line_map(m: LineMap, line: &String) -> (r: String)
    requires
        m matches LineMap::Untabify(t) ==> t > 0 || !line@.contains('\t'),
    ensures
        r@ == line_map_spec(m, line@),
{
    match m {
        LineMap::Untabify(t) => untabify_str(line.as_str(), t),
        LineMap::TrimCr => normalize_lf(line.as_str()),
        LineMap::AddCr => with_cr(line),
    }
}

pub open spec fn map_fits(m: LineMap, ls: Seq<Seq<char>>) -> bool {
    m matches LineMap::Untabify(t) ==> t > 0 || !has_tab(ls)
}

/// Every line of a body changed by `m`.
pub fn map_body_lines(body: &ConflictBody, m: LineMap) -> (r: ConflictBody)
    requires
        map_fits(m, body@),
    ensures
        r@ == map_lines_spec(m, body@),
{
    let ls = body.lines();
    let mut out: Vec<String> = Vec::new();
    let mut i: usize = 0;
    while i < ls.len()
        invariant
            i <= ls@.len(),
            lines_view(ls@) == body@,
            map_fits(m, body@),
            lines_view(out@) =~= map_lines_spec(m, body@.take(i as int)),
        decreases ls@.len() - i,
    {
        proof {
            if let LineMap::Untabify(t) = m {
                if t == 0 && body@[i as int].contains('\t') {
                    let j = choose|j: int| 0 <= j < body@[i as int].len() && body@[i as int][j] == '\t';
                    assert(body@[i as int][j] == '\t');
                    assert(has_tab(body@));
                }
            }
        }
        let s = apply_line_map(m, &ls[i]);
        let ghost before = out@;
        out.push(s);
        proof {
            assert(lines_view(out@) =~= lines_view(before).push(s@));
            assert(body@.take(i + 1) =~= body@.take(i as int).push(body@[i as int]));
        }
        i += 1;
    }
    proof {
        assert(body@.take(ls@.len() as int) =~= body@);
    }
    ConflictBody::new(out)
}

/// Every body line of a conflict changed by `m`.
pub fn map_conflict_lines(conflict: &Conflict, m: LineMap) -> (r: Conflict)
    requires
        map_fits(m, conflict@.bodies.ours),
        map_fits(m, conflict@.bodies.base),
        map_fits(m, conflict@.bodies.theirs),
    ensures
        r@ == map_conflict_spec(m, conflict@),
{
    conflict.with_bodies(
        ConflictSides::new(
            map_body_lines(&conflict.bodies.ours, m),
            map_body_lines(&conflict.bodies.base, m),
            map_body_lines(&conflict.bodies.theirs, m),
        ),
    )
}

/// The conflict with the line endings of its sides made to agree.
pub fn line_break_fix(conflict: &Conflict) -> (r: Conflict)
    ensures
        r@ == line_break_fix_spec(conflict@),
{
    let endings = ConflictSides::new(
        infer_line_endings(&conflict.bodies.ours),
        infer_line_endings(&conflict.bodies.base),
        infer_line_endings(&conflict.bodies.theirs),
    );
    if endings.ours == endings.base && endings.base == endings.theirs {
        return conflict.duplicate();
    }
    match target_line_ending(&endings) {
        Some(LineEnding::Lf) => map_conflict_lines(conflict, LineMap::TrimCr),
        Some(LineEnding::Crlf) => map_conflict_lines(conflict, LineMap::AddCr),
        _ => conflict.duplicate(),
    }
}

/// A conflict as the resolver sees it after preprocessing.
pub struct PreprocessedConflict(pub Conflict);

impl PreprocessedConflict {
    pub fn new(conflict: &Conflict, options: &ResolveOptions) -> (r: Self)
        requires
            options_fit(conflict@, *options),
        ensures
            r.0@ == preprocess_spec(conflict@, *options),
    {
        let mut c = conflict.duplicate();
        if let Some(tabsize) = options.untabify {
            c = map_conflict_lines(&c, LineMap::Untabify(tabsize));
        }
        if options.line_endings {
            c = line_break_fix(&c);
        }
        PreprocessedConflict(c)
    }

    pub fn as_conflict(&self) -> (r: &Conflict)
        ensures
            r == &self.0,
    {
        &self.0
    }
}

} // verus!

verus! {

/// The conflict with ours and theirs exchanged, markers kept.
pub open spec fn swap_conflict(c: ConflictView) -> ConflictView {
    c.with_bodies(swap_bodies(c.bodies))
}

/// The conflict with its tabs expanded, when the options ask for that.
pub open spec fn untabified(c: ConflictView, o: ResolveOptions) -> ConflictView {
    match o.untabify {
        Some(t) => map_conflict_spec(LineMap::Untabify(t), c),
        None => c,
    }
}

/// The one case where the ending the sides are brought to depends on which
/// side is ours: the base's ending is not known, and the two sides have
/// known endings that differ (ours is then followed).
pub open spec fn ending_tie(c: ConflictView) -> bool {
    let eo = infer_line_endings_spec(c.bodies.ours);
    let eb = infer_line_endings_spec(c.bodies.base);
    let et = infer_line_endings_spec(c.bodies.theirs);
    !is_known(eb) && is_known(eo) && is_known(et) && eo != et
}

proof fn lemma_map_swap(m: LineMap, c: ConflictView)
    ensures
        map_conflict_spec(m, swap_conflict(c)) == swap_conflict(map_conflict_spec(m, c)),
{
}

proof fn lemma_line_break_fix_swap(c: ConflictView)
    requires
        !ending_tie(c),
    ensures
        line_break_fix_spec(swap_conflict(c)) == swap_conflict(line_break_fix_spec(c)),
{
    let e = ConflictSides {
        ours: infer_line_endings_spec(c.bodies.ours),
        base: infer_line_endings_spec(c.bodies.base),
        theirs: infer_line_endings_spec(c.bodies.theirs),
    };
    law_pick_symmetric(e.ours, e.base, e.theirs);
    assert(target_line_ending_spec(swap_bodies(e)) == target_line_ending_spec(e));
    lemma_map_swap(LineMap::TrimCr, c);
    lemma_map_swap(LineMap::AddCr, c);
}

/// Exchanging ours and theirs commutes with preprocessing, but where the
/// line endings are brought to ours's (`ending_tie`).
pub proof fn lemma_preprocess_swap(c: ConflictView, o: ResolveOptions)
    requires
        o.line_endings ==> !ending_tie(untabified(c, o)),
    ensures
        preprocess_spec(swap_conflict(c), o) == swap_conflict(preprocess_spec(c, o)),
{
    if let Some(t) = o.untabify {
        lemma_map_swap(LineMap::Untabify(t), c);
    }
    assert(untabified(swap_conflict(c), o) == swap_conflict(untabified(c, o)));
    if o.line_endings {
        lemma_line_break_fix_swap(untabified(c, o));
    }
}

} // verus!

verus! {

/// The line endings of the three sides of a conflict.
pub open spec fn endings_spec(b: ConflictSides<Seq<Seq<char>>>) -> ConflictSides<LineEnding> {
    ConflictSides {
        ours: infer_line_endings_spec(b.ours),
        base: infer_line_endings_spec(b.base),
        theirs: infer_line_endings_spec(b.theirs),
    }
}

/// Two bodies with the same lines once trailing carriage returns are
/// dropped.
pub open spec fn same_but_line_ends(a: Seq<Seq<char>>, b: Seq<Seq<char>>) -> bool {
    a.len() == b.len() && forall|i: int| 0 <= i < a.len() ==> #[trigger] trim_crs(a[i]) == trim_crs(b[i])
}

/// Two lines that are equal, or equal but for a carriage return that ends
/// one of them after a non-empty line.
pub open spec fn same_but_cr(a: Seq<char>, b: Seq<char>) -> bool {
    ||| a == b
    ||| b.len() > 0 && !ends_with_cr(b) && a == b.push('\r')
    ||| a.len() > 0 && !ends_with_cr(a) && b == a.push('\r')
}

/// Two bodies whose lines are pairwise `same_but_cr`.
pub open spec fn same_but_crs(a: Seq<Seq<char>>, b: Seq<Seq<char>>) -> bool {
    a.len() == b.len() && forall|i: int| 0 <= i < a.len() ==> #[trigger] same_but_cr(a[i], b[i])
}

proof fn lemma_trim_crs(l: Seq<char>)
    ensures
        !ends_with_cr(trim_crs(l)),
        trim_crs(trim_crs(l)) == trim_crs(l),
        trim_crs(l.push('\r')) == trim_crs(l),
        trim_crs(add_cr(l)) == trim_crs(l),
    decreases l.len(),
{
    assert(l.push('\r').drop_last() =~= l);
    if l.len() > 0 && l.last() == '\r' {
        lemma_trim_crs(l.drop_last());
    }
}

/// After carriage returns are trimmed, a body's ending is LF, or unknown
/// when all its lines are empty.
proof fn lemma_trimmed_ending(ls: Seq<Seq<char>>)
    ensures
        infer_line_endings_spec(map_lines_spec(LineMap::TrimCr, ls)) == LineEnding::Lf
            || infer_line_endings_spec(map_lines_spec(LineMap::TrimCr, ls)) == LineEnding::Unknown,
{
    let m = map_lines_spec(LineMap::TrimCr, ls);
    assert forall|i: int| 0 <= i < m.len() implies !ends_with_cr(#[trigger] m[i]) by {
        lemma_trim_crs(ls[i]);
    }
    if !(forall|i: int| 0 <= i < m.len() ==> #[trigger] m[i].len() == 0) {
        let i = choose|i: int| 0 <= i < m.len() && #[trigger] m[i].len() != 0;
        assert(m[i].len() > 0 && !ends_with_cr(m[i]));
    }
}

/// After a carriage return is put at the end of each line, a body's ending
/// is CRLF, or unknown when it has no line.
proof fn lemma_crlf_ending(ls: Seq<Seq<char>>)
    ensures
        infer_line_endings_spec(map_lines_spec(LineMap::AddCr, ls)) == LineEnding::Crlf
            || infer_line_endings_spec(map_lines_spec(LineMap::AddCr, ls)) == LineEnding::Unknown,
{
    let m = map_lines_spec(LineMap::AddCr, ls);
    assert forall|i: int| 0 <= i < m.len() implies #[trigger] m[i].len() > 0 && ends_with_cr(m[i]) by {
    }
    if m.len() > 0 {
        assert(m[0].len() > 0);
    }
}

proof fn lemma_map_same_content(m: LineMap, ls: Seq<Seq<char>>)
    requires
        m is TrimCr || m is AddCr,
    ensures
        same_but_line_ends(map_lines_spec(m, ls), ls),
{
    assert forall|i: int| 0 <= i < ls.len() implies #[trigger] trim_crs(map_lines_spec(m, ls)[i])
        == trim_crs(ls[i]) by {
        lemma_trim_crs(ls[i]);
    }
}

proof fn lemma_map_same_but_crs(m: LineMap, a: Seq<Seq<char>>, b: Seq<Seq<char>>)
    requires
        m is TrimCr || m is AddCr,
        same_but_crs(a, b),
    ensures
        map_lines_spec(m, a) == map_lines_spec(m, b),
{
    assert forall|i: int| 0 <= i < a.len() implies map_lines_spec(m, a)[i] == map_lines_spec(m, b)[i] by {
        assert(same_but_cr(a[i], b[i]));
        lemma_trim_crs(a[i]);
        lemma_trim_crs(b[i]);
    }
    assert(map_lines_spec(m, a) =~= map_lines_spec(m, b));
}

/// A side whose ending is LF or CRLF is equal to another with the same
/// ending that differs from it only in `same_but_cr` lines.
proof fn lemma_same_ending_same_but_crs(a: Seq<Seq<char>>, b: Seq<Seq<char>>)
    requires
        same_but_crs(a, b),
        infer_line_endings_spec(a) == infer_line_endings_spec(b),
        is_known(infer_line_endings_spec(a)),
    ensures
        a == b,
{
    assert forall|i: int| 0 <= i < a.len() implies a[i] == b[i] by {
        assert(same_but_cr(a[i], b[i]));
        if a[i] != b[i] {
            if b[i].len() > 0 && !ends_with_cr(b[i]) && a[i] == b[i].push('\r') {
                assert(a[i].len() > 0 && ends_with_cr(a[i]));
            } else {
                assert(b[i].len() > 0 && ends_with_cr(b[i]));
            }
        }
    }
    assert(a =~= b);
}

/// Line-ending normalization changes nothing but carriage returns at the
/// ends of lines. When it settles on an ending, every side takes that
/// ending (or has no non-empty line), and a side that differs from the base
/// only in carriage returns ending its lines then matches the base.
pub proof fn law_line_endings_agree(c: ConflictView)
    ensures
        ({
            let b = c.bodies;
            let f = line_break_fix_spec(c).bodies;
            let t = target_line_ending_spec(endings_spec(b));
            &&& line_break_fix_spec(c) == c.with_bodies(f)
            &&& same_but_line_ends(f.ours, b.ours)
            &&& same_but_line_ends(f.base, b.base)
            &&& same_but_line_ends(f.theirs, b.theirs)
            &&& t is Some ==> {
                let x = t->Some_0;
                &&& is_known(x)
                &&& infer_line_endings_spec(f.ours) == x || infer_line_endings_spec(f.ours) is Unknown
                &&& infer_line_endings_spec(f.base) == x || infer_line_endings_spec(f.base) is Unknown
                &&& infer_line_endings_spec(f.theirs) == x || infer_line_endings_spec(f.theirs)
                    is Unknown
                &&& same_but_crs(b.ours, b.base) ==> f.ours == f.base
                &&& same_but_crs(b.theirs, b.base) ==> f.theirs == f.base
            }
        }),
{
    let b = c.bodies;
    let e = endings_spec(b);
    let f = line_break_fix_spec(c).bodies;
    let t = target_line_ending_spec(e);
    assert(c.with_bodies(c.bodies) == c);
    assert forall|ls: Seq<Seq<char>>| #[trigger] same_but_line_ends(ls, ls) by {
    }
    if e.ours == e.base && e.base == e.theirs {
        if t is Some {
            if same_but_crs(b.ours, b.base) {
                lemma_same_ending_same_but_crs(b.ours, b.base);
            }
            if same_but_crs(b.theirs, b.base) {
                lemma_same_ending_same_but_crs(b.theirs, b.base);
            }
        }
    } else {
        match t {
            Some(LineEnding::Lf) => {
                lemma_map_same_content(LineMap::TrimCr, b.ours);
                lemma_map_same_content(LineMap::TrimCr, b.base);
                lemma_map_same_content(LineMap::TrimCr, b.theirs);
                lemma_trimmed_ending(b.ours);
                lemma_trimmed_ending(b.base);
                lemma_trimmed_ending(b.theirs);
                if same_but_crs(b.ours, b.base) {
                    lemma_map_same_but_crs(LineMap::TrimCr, b.ours, b.base);
                }
                if same_but_crs(b.theirs, b.base) {
                    lemma_map_same_but_crs(LineMap::TrimCr, b.theirs, b.base);
                }
            },
            Some(LineEnding::Crlf) => {
                lemma_map_same_content(LineMap::AddCr, b.ours);
                lemma_map_same_content(LineMap::AddCr, b.base);
                lemma_map_same_content(LineMap::AddCr, b.theirs);
                lemma_crlf_ending(b.ours);
                lemma_crlf_ending(b.base);
                lemma_crlf_ending(b.theirs);
                if same_but_crs(b.ours, b.base) {
                    lemma_map_same_but_crs(LineMap::AddCr, b.ours, b.base);
                }
                if same_but_crs(b.theirs, b.base) {
                    lemma_map_same_but_crs(LineMap::AddCr, b.theirs, b.base);
                }
            },
            _ => {},
        }
    }
}

} // verus!
