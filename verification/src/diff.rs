//! Showing the sides of a conflict as line diffs, through the `similar` crate.
use similar::{ChangeTag, TextDiff};
use vstd::prelude::*;

use crate::resolve::internal::{char_is_ws, is_ws};
use crate::style::{is_painting, paint_green, paint_red};
use crate::text::{
    append_decimal, append_str, chars_of, decimal, joined, lines_view, push_char, string_from_range,
    text_of,
};
use crate::types::{Conflict, ConflictBody};

verus! {

/// The changes of the line diff of `old` to `new` that
/// `similar::TextDiff::from_lines(old, new).iter_all_changes()` yields, in
/// order: each line's sign (`-` deleted, `+` inserted, a space when kept)
/// and its text, with its line feed when it has one.
pub uninterp spec fn line_changes(old: Seq<char>, new: Seq<char>) -> Seq<(char, Seq<char>)>;

/// The views of a sequence of changes.
pub open spec fn changes_view(v: Seq<(char, String)>) -> Seq<(char, Seq<char>)> {
    v.map_values(|p: (char, String)| (p.0, p.1@))
}

/// `similar::TextDiff::from_lines` and `iter_all_changes`: the changes of
/// the line diff, each as its sign and its text. The diff has no deadline,
/// so it depends on the two texts alone; what it is, is named and not
/// stated here.
#[verifier::external_body]
fn diff_lines(old: &str, new: &str) -> (r: Vec<(char, String)>)
    ensures
        changes_view(r@) == line_changes(old@, new@),
{
    let diff = TextDiff::from_lines(old, new);
    diff.iter_all_changes().map(
        |change| {
            let sign = match change.tag() {
                ChangeTag::Delete => '-',
                ChangeTag::Insert => '+',
                ChangeTag::Equal => ' ',
            };
            (sign, change.value().to_string())
        },
    ).collect()
}

// ---------------------------------------------------------------------
// Trimming the kept lines around the changes.
// ---------------------------------------------------------------------
/// The number of kept lines before the first change.
pub open spec fn leading_kept(cs: Seq<(char, Seq<char>)>) -> nat
    decreases cs.len(),
{
    if cs.len() == 0 || cs[0].0 != ' ' {
        0
    } else {
        1 + leading_kept(cs.skip(1))
    }
}

/// The number of kept lines after the last change.
pub open spec fn trailing_kept(cs: Seq<(char, Seq<char>)>) -> nat
    decreases cs.len(),
{
    if cs.len() == 0 || cs.last().0 != ' ' {
        0
    } else {
        1 + trailing_kept(cs.drop_last())
    }
}

/// Where the shown changes start: `context` kept lines before the first change.
pub open spec fn trim_start(cs: Seq<(char, Seq<char>)>, context: nat) -> int {
    if leading_kept(cs) >= context {
        leading_kept(cs) - context
    } else {
        0
    }
}

/// Where the shown changes end: `context` kept lines after the last change.
pub open spec fn trim_end(cs: Seq<(char, Seq<char>)>, context: nat) -> int {
    let e = cs.len() - trailing_kept(cs) + context;
    if e <= cs.len() {
        e
    } else {
        cs.len() as int
    }
}

/// Whether the trimmed range is well formed. It is not when all lines are
/// kept and there are more than twice `context` of them.
pub open spec fn trim_fits(cs: Seq<(char, Seq<char>)>, context: nat) -> bool {
    cs.len() == 0 || trim_start(cs, context) <= trim_end(cs, context)
}

/// The changes shown: all kept lines dropped but `context` of them around
/// the changes.
pub open spec fn trimmed(cs: Seq<(char, Seq<char>)>, context: nat) -> Seq<(char, Seq<char>)> {
    if cs.len() == 0 {
        cs
    } else {
        cs.subrange(trim_start(cs, context), trim_end(cs, context))
    }
}

proof fn lemma_leading_kept(cs: Seq<(char, Seq<char>)>, k: int)
    requires
        0 <= k <= cs.len(),
        forall|i: int| 0 <= i < k ==> #[trigger] cs[i].0 == ' ',
        k == cs.len() || cs[k].0 != ' ',
    ensures
        leading_kept(cs) == k,
    decreases k,
{
    if k > 0 {
        assert forall|i: int| 0 <= i < k - 1 implies #[trigger] cs.skip(1)[i].0 == ' ' by {
            assert(cs[i + 1].0 == ' ');
        }
        lemma_leading_kept(cs.skip(1), k - 1);
    }
}

/// The sign of the `i`-th change from the end.
pub open spec fn sign_from_end(cs: Seq<(char, Seq<char>)>, i: int) -> char {
    cs[cs.len() - 1 - i].0
}

proof fn lemma_trailing_kept(cs: Seq<(char, Seq<char>)>, k: int)
    requires
        0 <= k <= cs.len(),
        forall|i: int| 0 <= i < k ==> #[trigger] sign_from_end(cs, i) == ' ',
        k == cs.len() || sign_from_end(cs, k) != ' ',
    ensures
        trailing_kept(cs) == k,
    decreases k,
{
    if k > 0 {
        let d = cs.drop_last();
        assert forall|i: int| 0 <= i < k - 1 implies #[trigger] sign_from_end(d, i) == ' ' by {
            assert(sign_from_end(cs, i + 1) == ' ');
        }
        assert(sign_from_end(cs, 0) == ' ');
        lemma_trailing_kept(d, k - 1);
    }
}

/// The numbers of kept lines before the first and after the last change.
fn kept_counts(changes: &[(char, String)]) -> (r: (usize, usize))
    ensures
        r.0 == leading_kept(changes_view(changes@)),
        r.1 == trailing_kept(changes_view(changes@)),
        r.0 <= changes@.len(),
        r.1 <= changes@.len(),
{
    let ghost cs = changes_view(changes@);
    let n = changes.len();
    let mut start_equal: usize = 0;
    while start_equal < n && changes[start_equal].0 == ' '
        invariant
            start_equal <= n,
            n == changes@.len(),
            cs == changes_view(changes@),
            forall|i: int| 0 <= i < start_equal ==> #[trigger] cs[i].0 == ' ',
        decreases n - start_equal,
    {
        start_equal += 1;
    }
    proof {
        lemma_leading_kept(cs, start_equal as int);
    }
    let mut end_equal: usize = 0;
    while end_equal < n && changes[n - 1 - end_equal].0 == ' '
        invariant
            end_equal <= n,
            n == changes@.len(),
            cs == changes_view(changes@),
            forall|i: int| 0 <= i < end_equal ==> #[trigger] sign_from_end(cs, i) == ' ',
        decreases n - end_equal,
    {
        end_equal += 1;
    }
    proof {
        lemma_trailing_kept(cs, end_equal as int);
    }
    (start_equal, end_equal)
}

fn trim_bounds(n: usize, start_equal: usize, end_equal: usize, context: usize) -> (r: (usize, usize))
    requires
        end_equal <= n,
    ensures
        r.0 == (if start_equal >= context { start_equal - context } else { 0 }),
        r.1 == (if n - end_equal + context <= n { n - end_equal + context } else { n as int }),
{
    let start = start_equal.saturating_sub(context);
    let e = (n - end_equal).saturating_add(context);
    let end = if e <= n {
        e
    } else {
        n
    };
    (start, end)
}

/// Whether the changes can be trimmed to `context` kept lines around them.
fn fits_context(changes: &[(char, String)], context: usize) -> (r: bool)
    ensures
        r == trim_fits(changes_view(changes@), context as nat),
{
    if changes.len() == 0 {
        return true;
    }
    let (start_equal, end_equal) = kept_counts(changes);
    let (start, end) = trim_bounds(changes.len(), start_equal, end_equal, context);
    start <= end
}

/// The bounds of the changes shown.
fn trim_changes(changes: &[(char, String)], context: usize) -> (r: (usize, usize))
    requires
        trim_fits(changes_view(changes@), context as nat),
    ensures
        r.0 <= r.1 <= changes@.len(),
        changes_view(changes@).subrange(r.0 as int, r.1 as int) == trimmed(
            changes_view(changes@),
            context as nat,
        ),
{
    let ghost cs = changes_view(changes@);
    let n = changes.len();
    if n == 0 {
        assert(cs.subrange(0, 0) =~= cs);
        return (0, 0);
    }
    let (start_equal, end_equal) = kept_counts(changes);
    trim_bounds(n, start_equal, end_equal, context)
}

// ---------------------------------------------------------------------
// Rendering.
// ---------------------------------------------------------------------
/// A text without its trailing line feeds.
pub open spec fn trim_nls(s: Seq<char>) -> Seq<char>
    decreases s.len(),
{
    if s.len() > 0 && s.last() == '\n' {
        trim_nls(s.drop_last())
    } else {
        s
    }
}

/// A change shown as a line: its sign, then its text.
pub open spec fn change_line(c: (char, Seq<char>)) -> Seq<char> {
    seq![c.0] + trim_nls(c.1)
}

/// The colour of a change's line: red for deleted, green for inserted.
pub open spec fn change_color(sign: char) -> Option<char> {
    if sign == '-' {
        Some('1')
    } else if sign == '+' {
        Some('2')
    } else {
        None
    }
}

/// Whether `p` shows the change `c`, coloured when `color` is set.
pub open spec fn piece_ok(p: Seq<char>, c: (char, Seq<char>), color: bool) -> bool {
    if color && change_color(c.0) is Some {
        is_painting(p, change_line(c), change_color(c.0)->Some_0)
    } else {
        p == change_line(c)
    }
}

/// Whether `out` shows the changes, one line each.
pub open spec fn rendering_of(out: Seq<char>, cs: Seq<(char, Seq<char>)>, color: bool) -> bool {
    exists|pieces: Seq<Seq<char>>|
        pieces.len() == cs.len() && out == text_of(pieces) && forall|i: int|
            0 <= i < cs.len() ==> #[trigger] piece_ok(pieces[i], cs[i], color)
}

/// The changes shown without colour.
pub open spec fn plain_rendering(cs: Seq<(char, Seq<char>)>) -> Seq<char> {
    text_of(cs.map_values(|c: (char, Seq<char>)| change_line(c)))
}

pub proof fn lemma_plain_rendering(out: Seq<char>, cs: Seq<(char, Seq<char>)>)
    requires
        rendering_of(out, cs, false),
    ensures
        out == plain_rendering(cs),
{
    let pieces = choose|pieces: Seq<Seq<char>>|
        pieces.len() == cs.len() && out == text_of(pieces) && forall|i: int|
            0 <= i < cs.len() ==> #[trigger] piece_ok(pieces[i], cs[i], false);
    assert forall|i: int| 0 <= i < cs.len() implies pieces[i] == cs.map_values(|c: (char, Seq<char>)| change_line(c))[i] by {
        assert(piece_ok(pieces[i], cs[i], false));
    }
    assert(pieces =~= cs.map_values(|c: (char, Seq<char>)| change_line(c)));
}

fn render_change(c: &(char, String), color: bool) -> (r: String)
    ensures
        piece_ok(r@, (c.0, c.1@), color),
{
    let cs = chars_of(c.1.as_str());
    let mut end = cs.len();
    assert(cs@.take(end as int) =~= cs@);
    while end > 0 && cs[end - 1] == '\n'
        invariant
            end <= cs@.len(),
            trim_nls(cs@.take(end as int)) == trim_nls(cs@),
        decreases end,
    {
        proof {
            assert(cs@.take(end as int).drop_last() =~= cs@.take(end - 1));
        }
        end -= 1;
    }
    let mut line = String::new();
    push_char(&mut line, c.0);
    let body = string_from_range(cs.as_slice(), 0, end);
    append_str(&mut line, body.as_str());
    proof {
        assert(cs@.subrange(0, end as int) =~= cs@.take(end as int));
        assert(line@ =~= change_line((c.0, c.1@)));
    }
    if color && c.0 == '-' {
        paint_red(line.as_str())
    } else if color && c.0 == '+' {
        paint_green(line.as_str())
    } else {
        line
    }
}

/// The changes shown, trimmed to `context` kept lines around them, one
/// line each (coloured when `color` is set); `None` when the trimmed range
/// is not well formed (all lines kept, more than twice `context` of them).
pub fn render_changes(changes: &[(char, String)], color: bool, context: usize) -> (r: Option<String>)
    ensures
        r is Some <==> trim_fits(changes_view(changes@), context as nat),
        r matches Some(t) ==> rendering_of(t@, trimmed(changes_view(changes@), context as nat), color),
        r matches Some(t) ==> (!color ==> t@ == plain_rendering(
            trimmed(changes_view(changes@), context as nat),
        )),
{
    if !fits_context(changes, context) {
        return None;
    }
    let (start, end) = trim_changes(changes, context);
    let ghost shown = trimmed(changes_view(changes@), context as nat);
    let mut out = String::new();
    let ghost mut pieces: Seq<Seq<char>> = Seq::empty();
    let mut i = start;
    while i < end
        invariant
            start <= i <= end <= changes@.len(),
            shown == changes_view(changes@).subrange(start as int, end as int),
            pieces.len() == i - start,
            out@ == text_of(pieces),
            forall|k: int| 0 <= k < pieces.len() ==> #[trigger] piece_ok(pieces[k], shown[k], color),
        decreases end - i,
    {
        let piece = render_change(&changes[i], color);
        append_str(&mut out, piece.as_str());
        push_char(&mut out, '\n');
        proof {
            let old_pieces = pieces;
            pieces = pieces.push(piece@);
            assert(pieces.drop_last() =~= old_pieces);
            assert(shown[i - start] == (changes@[i as int].0, changes@[i as int].1@));
            assert forall|k: int| 0 <= k < pieces.len() implies #[trigger] piece_ok(pieces[k], shown[k], color) by {
                if k < old_pieces.len() {
                    assert(pieces[k] == old_pieces[k]);
                }
            }
        }
        i += 1;
    }
    proof {
        assert(rendering_of(out@, shown, color));
        if !color {
            lemma_plain_rendering(out@, shown);
        }
    }
    Some(out)
}

/// The changes of the line diff of `old` to `new`, trimmed to `context`
/// kept lines around them, one line each.
fn format_diff(old: &str, new: &str, color: bool, context: usize) -> (r: String)
    requires
        trim_fits(line_changes(old@, new@), context as nat),
    ensures
        rendering_of(r@, trimmed(line_changes(old@, new@), context as nat), color),
{
    let changes = diff_lines(old, new);
    match render_changes(changes.as_slice(), color, context) {
        Some(t) => t,
        None => {
            proof {
                assert(false);
            }
            String::new()
        },
    }
}

// ---------------------------------------------------------------------
// Headers.
// ---------------------------------------------------------------------
/// A text without its leading copies of `c`.
pub open spec fn drop_leading(s: Seq<char>, c: char) -> Seq<char>
    decreases s.len(),
{
    if s.len() > 0 && s[0] == c {
        drop_leading(s.skip(1), c)
    } else {
        s
    }
}

/// A text without its leading white space.
pub open spec fn trim_start_ws(s: Seq<char>) -> Seq<char>
    decreases s.len(),
{
    if s.len() > 0 && is_ws(s[0]) {
        trim_start_ws(s.skip(1))
    } else {
        s
    }
}

/// A text without its trailing white space.
pub open spec fn trim_end_ws(s: Seq<char>) -> Seq<char>
    decreases s.len(),
{
    if s.len() > 0 && is_ws(s.last()) {
        trim_end_ws(s.drop_last())
    } else {
        s
    }
}

/// The label a marker line gives a side: its text after the marker
/// characters, trimmed; `default` when that is empty.
pub open spec fn side_label(text: Seq<char>, marker: char, default: Seq<char>) -> Seq<char> {
    let l = trim_end_ws(trim_start_ws(drop_leading(text, marker)));
    if l.len() == 0 {
        default
    } else {
        l
    }
}

pub open spec fn ours_word() -> Seq<char> {
    seq!['o', 'u', 'r', 's']
}

pub open spec fn theirs_word() -> Seq<char> {
    seq!['t', 'h', 'e', 'i', 'r', 's']
}

/// `--- {label}, line {n}` and a line feed.
pub open spec fn side_header(label: Seq<char>, n: nat) -> Seq<char> {
    seq!['-', '-', '-', ' '] + label + seq![',', ' ', 'l', 'i', 'n', 'e', ' '] + decimal(n) + seq!['\n']
}

/// `--- line {n}` and a line feed.
pub open spec fn line_header(n: nat) -> Seq<char> {
    seq!['-', '-', '-', ' ', 'l', 'i', 'n', 'e', ' '] + decimal(n) + seq!['\n']
}

fn label_of(text: &String, marker: char, default: &str) -> (r: String)
    ensures
        r@ == side_label(text@, marker, default@),
{
    let cs = chars_of(text.as_str());
    let n = cs.len();
    let mut a: usize = 0;
    assert(cs@.skip(0) =~= cs@);
    while a < n && cs[a] == marker
        invariant
            a <= n,
            n == cs@.len(),
            drop_leading(cs@.skip(a as int), marker) == drop_leading(cs@, marker),
        decreases n - a,
    {
        assert(cs@.skip(a as int).skip(1) =~= cs@.skip(a + 1));
        a += 1;
    }
    assert(drop_leading(cs@.skip(a as int), marker) == cs@.skip(a as int));
    let mut b = a;
    while b < n && char_is_ws(cs[b])
        invariant
            a <= b <= n,
            n == cs@.len(),
            trim_start_ws(cs@.skip(b as int)) == trim_start_ws(cs@.skip(a as int)),
        decreases n - b,
    {
        assert(cs@.skip(b as int).skip(1) =~= cs@.skip(b + 1));
        b += 1;
    }
    assert(trim_start_ws(cs@.skip(b as int)) == cs@.skip(b as int));
    let mut e = n;
    assert(cs@.subrange(b as int, n as int) =~= cs@.skip(b as int));
    while e > b && char_is_ws(cs[e - 1])
        invariant
            b <= e <= n,
            n == cs@.len(),
            trim_end_ws(cs@.subrange(b as int, e as int)) == trim_end_ws(cs@.skip(b as int)),
        decreases e,
    {
        assert(cs@.subrange(b as int, e as int).drop_last() =~= cs@.subrange(b as int, e - 1));
        e -= 1;
    }
    if e == b {
        assert(cs@.subrange(b as int, e as int) =~= Seq::<char>::empty());
        return String::from_str(default);
    }
    string_from_range(cs.as_slice(), b, e)
}

fn side_header_text(label: &String, n: usize) -> (r: String)
    ensures
        r@ == side_header(label@, n as nat),
{
    let mut s = String::from_str("--- ");
    proof {
        reveal_strlit("--- ");
    }
    append_str(&mut s, label.as_str());
    append_str(&mut s, ", line ");
    proof {
        reveal_strlit(", line ");
    }
    append_decimal(&mut s, n);
    push_char(&mut s, '\n');
    proof {
        assert(s@ =~= side_header(label@, n as nat));
    }
    s
}

fn join_body(body: &ConflictBody) -> (r: String)
    ensures
        r@ == joined(body@),
{
    let ls = body.lines();
    if ls.len() == 0 {
        return String::new();
    }
    let n = ls.len();
    let mut out = String::new();
    let mut i: usize = 0;
    while i + 1 < n
        invariant
            i < n,
            n == ls@.len(),
            lines_view(ls@) == body@,
            out@ == text_of(body@.take(i as int)),
        decreases n - i,
    {
        append_str(&mut out, ls[i].as_str());
        push_char(&mut out, '\n');
        proof {
            assert(body@.take(i + 1).drop_last() =~= body@.take(i as int));
        }
        i += 1;
    }
    append_str(&mut out, ls[i].as_str());
    proof {
        assert(body@.drop_last() =~= body@.take(i as int));
    }
    out
}

/// Whether both side diffs of a conflict can be shown with `context`
/// lines of context.
pub open spec fn side_diffs_fit(c: crate::types::ConflictView, context: nat) -> bool {
    &&& trim_fits(line_changes(joined(c.bodies.base), joined(c.bodies.ours)), context)
    &&& trim_fits(line_changes(joined(c.bodies.base), joined(c.bodies.theirs)), context)
}

/// Whether the diff between the two sides can be shown with `context`
/// lines of context.
pub open spec fn diff2_fits(c: crate::types::ConflictView, context: nat) -> bool {
    trim_fits(line_changes(joined(c.bodies.ours), joined(c.bodies.theirs)), context)
}

/// The header of ours' diff against the base.
pub open spec fn ours_header(c: crate::types::ConflictView) -> Seq<char> {
    side_header(side_label(c.markers.ours.1, '<', ours_word()), c.markers.ours.0 as nat)
}

/// The header of theirs' diff against the base; it names the conflict's
/// first line too.
pub open spec fn theirs_header(c: crate::types::ConflictView) -> Seq<char> {
    side_header(side_label(c.markers.theirs.1, '>', theirs_word()), c.markers.ours.0 as nat)
}

/// Ours' changes against the base, as shown.
pub open spec fn ours_changes(c: crate::types::ConflictView, context: nat) -> Seq<(char, Seq<char>)> {
    trimmed(line_changes(joined(c.bodies.base), joined(c.bodies.ours)), context)
}

/// Theirs' changes against the base, as shown.
pub open spec fn theirs_changes(c: crate::types::ConflictView, context: nat) -> Seq<(char, Seq<char>)> {
    trimmed(line_changes(joined(c.bodies.base), joined(c.bodies.theirs)), context)
}

/// Display diffs of each side against the base for a conflict: a header
/// naming the side and the conflict's first line, then the side's diff
/// against the base, for ours and then for theirs.
pub fn show_side_diffs(conflict: &Conflict, color: bool, context: usize) -> (r: String)
    requires
        side_diffs_fit(conflict@, context as nat),
    ensures
        exists|a: Seq<char>, b: Seq<char>|
            r@ == ours_header(conflict@) + a + theirs_header(conflict@) + b && rendering_of(
                a,
                ours_changes(conflict@, context as nat),
                color,
            ) && rendering_of(b, theirs_changes(conflict@, context as nat), color),
        !color ==> r@ == ours_header(conflict@) + plain_rendering(ours_changes(conflict@, context as nat))
            + theirs_header(conflict@) + plain_rendering(theirs_changes(conflict@, context as nat)),
{
    let base_text = join_body(&conflict.bodies.base);
    let ours_text = join_body(&conflict.bodies.ours);
    let theirs_text = join_body(&conflict.bodies.theirs);
    let ours_label = label_of(&conflict.markers.ours.text, '<', "ours");
    let theirs_label = label_of(&conflict.markers.theirs.text, '>', "theirs");
    proof {
        reveal_strlit("ours");
        reveal_strlit("theirs");
        assert("ours"@ =~= ours_word());
        assert("theirs"@ =~= theirs_word());
    }
    let mut out = side_header_text(&ours_label, conflict.start_line());
    let ghost ho = out@;
    let a = format_diff(base_text.as_str(), ours_text.as_str(), color, context);
    append_str(&mut out, a.as_str());
    let h = side_header_text(&theirs_label, conflict.start_line());
    append_str(&mut out, h.as_str());
    let b = format_diff(base_text.as_str(), theirs_text.as_str(), color, context);
    append_str(&mut out, b.as_str());
    proof {
        let c = conflict@;
        assert(out@ =~= ho + a@ + h@ + b@);
        assert(ho == ours_header(c));
        assert(h@ == theirs_header(c));
        assert(out@ == ours_header(c) + a@ + theirs_header(c) + b@);
        let co = trimmed(line_changes(joined(c.bodies.base), joined(c.bodies.ours)), context as nat);
        let ct = trimmed(line_changes(joined(c.bodies.base), joined(c.bodies.theirs)), context as nat);
        assert(rendering_of(a@, co, color) && rendering_of(b@, ct, color));
        assert(exists|x: Seq<char>, y: Seq<char>|
            out@ == ho + x + h@ + y && rendering_of(x, co, color) && rendering_of(y, ct, color));
        if !color {
            lemma_plain_rendering(a@, co);
            lemma_plain_rendering(b@, ct);
        }
    }
    out
}

/// Display a direct diff between the two sides: a header with the
/// conflict's first line, then the diff of ours to theirs.
pub fn show_diff2(conflict: &Conflict, color: bool, context: usize) -> (r: String)
    requires
        diff2_fits(conflict@, context as nat),
    ensures
        ({
            let c = conflict@;
            let h = line_header(c.markers.ours.0 as nat);
            let cs = trimmed(line_changes(joined(c.bodies.ours), joined(c.bodies.theirs)), context as nat);
            &&& exists|a: Seq<char>| r@ == h + a && rendering_of(a, cs, color)
            &&& !color ==> r@ == h + plain_rendering(cs)
        }),
{
    let ours_text = join_body(&conflict.bodies.ours);
    let theirs_text = join_body(&conflict.bodies.theirs);
    let mut out = String::from_str("--- line ");
    proof {
        reveal_strlit("--- line ");
    }
    append_decimal(&mut out, conflict.start_line());
    push_char(&mut out, '\n');
    let a = format_diff(ours_text.as_str(), theirs_text.as_str(), color, context);
    let ghost h = out@;
    append_str(&mut out, a.as_str());
    proof {
        let c = conflict@;
        assert(h =~= line_header(c.markers.ours.0 as nat));
        let cs = trimmed(line_changes(joined(c.bodies.ours), joined(c.bodies.theirs)), context as nat);
        if !color {
            lemma_plain_rendering(a@, cs);
        }
    }
    out
}

/// `t` shows the diffs of each side of `c` against the base, as
/// `show_side_diffs` writes them.
pub open spec fn is_side_diffs(t: Seq<char>, c: crate::types::ConflictView, color: bool, context: nat) -> bool {
    &&& exists|a: Seq<char>, b: Seq<char>|
        t == ours_header(c) + a + theirs_header(c) + b && rendering_of(a, ours_changes(c, context), color)
            && rendering_of(b, theirs_changes(c, context), color)
    &&& !color ==> t == ours_header(c) + plain_rendering(ours_changes(c, context)) + theirs_header(c)
        + plain_rendering(theirs_changes(c, context))
}

/// `t` shows the diff between the two sides of `c`, as `show_diff2`
/// writes it.
pub open spec fn is_diff2(t: Seq<char>, c: crate::types::ConflictView, color: bool, context: nat) -> bool {
    let h = line_header(c.markers.ours.0 as nat);
    let cs = trimmed(line_changes(joined(c.bodies.ours), joined(c.bodies.theirs)), context);
    &&& exists|a: Seq<char>| t == h + a && rendering_of(a, cs, color)
    &&& !color ==> t == h + plain_rendering(cs)
}

/// The diffs of each side against the base, when both can be shown with
/// `context` lines of context; nothing otherwise.
pub fn try_show_side_diffs(conflict: &Conflict, color: bool, context: usize) -> (r: Option<String>)
    ensures
        r is Some <==> side_diffs_fit(conflict@, context as nat),
        r matches Some(t) ==> (exists|a: Seq<char>, b: Seq<char>|
            t@ == ours_header(conflict@) + a + theirs_header(conflict@) + b && rendering_of(
                a,
                ours_changes(conflict@, context as nat),
                color,
            ) && rendering_of(b, theirs_changes(conflict@, context as nat), color)),
        r matches Some(t) ==> (!color ==> t@ == ours_header(conflict@) + plain_rendering(
            ours_changes(conflict@, context as nat),
        ) + theirs_header(conflict@) + plain_rendering(theirs_changes(conflict@, context as nat))),
{
    let base_text = join_body(&conflict.bodies.base);
    let ours_text = join_body(&conflict.bodies.ours);
    let theirs_text = join_body(&conflict.bodies.theirs);
    let ours_changes = diff_lines(base_text.as_str(), ours_text.as_str());
    let theirs_changes = diff_lines(base_text.as_str(), theirs_text.as_str());
    if fits_context(ours_changes.as_slice(), context) && fits_context(theirs_changes.as_slice(), context) {
        Some(show_side_diffs(conflict, color, context))
    } else {
        None
    }
}

/// The diff between the two sides, when it can be shown with `context`
/// lines of context; nothing otherwise.
pub fn try_show_diff2(conflict: &Conflict, color: bool, context: usize) -> (r: Option<String>)
    ensures
        r is Some <==> diff2_fits(conflict@, context as nat),
        r matches Some(t) ==> ({
            let c = conflict@;
            let h = line_header(c.markers.ours.0 as nat);
            let cs = trimmed(line_changes(joined(c.bodies.ours), joined(c.bodies.theirs)), context as nat);
            &&& exists|a: Seq<char>| t@ == h + a && rendering_of(a, cs, color)
            &&& !color ==> t@ == h + plain_rendering(cs)
        }),
{
    let ours_text = join_body(&conflict.bodies.ours);
    let theirs_text = join_body(&conflict.bodies.theirs);
    let changes = diff_lines(ours_text.as_str(), theirs_text.as_str());
    if fits_context(changes.as_slice(), context) {
        Some(show_diff2(conflict, color, context))
    } else {
        None
    }
}

} // verus!
