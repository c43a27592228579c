//! A resolver with a fixed sequence of strategies and no options: line
//! ending normalization, the trivial merge, indentation-aware merge, and
//! reduction by the lines all sides share at the start and end.
use vstd::prelude::*;

use crate::resolve::internal::{char_is_ws, is_ws};
use crate::resolve::strategies::{
    bodies_equal, common_prefix_spec, common_string_prefix, opt_body_view, pick,
};
use crate::resolve::window::min_nat;
use crate::text::{
    chars_of, concat_strings, copy_string, has_prefix, has_prefix_spec, lines_view, push_char,
    string_from_range, text_of,
};
use crate::types::{
    Chunk, ChunkView, Conflict, ConflictBody, ConflictSides, ConflictView, FileResult, Resolution,
    ResolutionView, chunks_view,
};

verus! {

/// A line without any carriage return.
pub open spec fn remove_crs(l: Seq<char>) -> Seq<char>
    decreases l.len(),
{
    if l.len() == 0 {
        Seq::empty()
    } else if l.last() == '\r' {
        remove_crs(l.drop_last())
    } else {
        remove_crs(l.drop_last()).push(l.last())
    }
}

pub open spec fn remove_crs_body(ls: Seq<Seq<char>>) -> Seq<Seq<char>> {
    ls.map_values(|l: Seq<char>| remove_crs(l))
}

/// Whether a line holds only white space.
pub open spec fn is_blank(l: Seq<char>) -> bool {
    forall|i: int| 0 <= i < l.len() ==> is_ws(#[trigger] l[i])
}

/// The number of leading white-space characters of a line.
pub open spec fn leading_ws(l: Seq<char>) -> nat
    decreases l.len(),
{
    if l.len() == 0 || !is_ws(l[0]) {
        0
    } else {
        1 + leading_ws(l.skip(1))
    }
}

pub open spec fn ws_prefix(l: Seq<char>) -> Seq<char> {
    l.take(leading_ws(l) as int)
}

/// The longest white-space prefix shared by the lines that are not blank;
/// nothing when all are blank.
pub open spec fn common_indent_opt(ls: Seq<Seq<char>>) -> Option<Seq<char>>
    decreases ls.len(),
{
    if ls.len() == 0 {
        None
    } else {
        let p = common_indent_opt(ls.drop_last());
        if is_blank(ls.last()) {
            p
        } else {
            match p {
                None => Some(ws_prefix(ls.last())),
                Some(e) => Some(common_prefix_spec(e, ws_prefix(ls.last()))),
            }
        }
    }
}

pub open spec fn common_indent_spec(ls: Seq<Seq<char>>) -> Seq<char> {
    match common_indent_opt(ls) {
        Some(p) => p,
        None => Seq::empty(),
    }
}

pub open spec fn strip_indent(l: Seq<char>, indent: Seq<char>) -> Seq<char> {
    if indent.len() == 0 {
        l
    } else if has_prefix_spec(l, indent) {
        l.skip(indent.len() as int)
    } else {
        l
    }
}

pub open spec fn reindent(l: Seq<char>, indent: Seq<char>) -> Seq<char> {
    if is_blank(l) {
        l
    } else {
        indent + l
    }
}

/// Normalization of line endings: every carriage return removed, then the
/// trivial merge, when the removal changed anything.
pub open spec fn try_line_endings_spec(b: ConflictSides<Seq<Seq<char>>>) -> Option<Seq<Seq<char>>> {
    let na = remove_crs_body(b.ours);
    let nb = remove_crs_body(b.base);
    let nt = remove_crs_body(b.theirs);
    if na == b.ours && nb == b.base && nt == b.theirs {
        None
    } else {
        pick(na, nb, nt)
    }
}

/// Indentation-aware merge: indentations and the lines without them are
/// merged trivially, each on its own, and recombined.
pub open spec fn try_indentation_spec(b: ConflictSides<Seq<Seq<char>>>) -> Option<Seq<Seq<char>>> {
    let ia = common_indent_spec(b.ours);
    let ib = common_indent_spec(b.base);
    let it = common_indent_spec(b.theirs);
    if ia == ib && ib == it {
        None
    } else {
        match pick(ia, ib, it) {
            None => None,
            Some(indent) => match pick(
                b.ours.map_values(|l: Seq<char>| strip_indent(l, ia)),
                b.base.map_values(|l: Seq<char>| strip_indent(l, ib)),
                b.theirs.map_values(|l: Seq<char>| strip_indent(l, it)),
            ) {
                None => None,
                Some(content) => Some(content.map_values(|l: Seq<char>| reindent(l, indent))),
            },
        }
    }
}

/// The number of leading lines all three sides share.
pub open spec fn common_prefix3(a: Seq<Seq<char>>, b: Seq<Seq<char>>, c: Seq<Seq<char>>) -> nat
    decreases a.len(),
{
    if a.len() == 0 || b.len() == 0 || c.len() == 0 || a[0] != b[0] || b[0] != c[0] {
        0
    } else {
        1 + common_prefix3(a.skip(1), b.skip(1), c.skip(1))
    }
}

/// The number of trailing lines all three sides share.
pub open spec fn common_suffix3(a: Seq<Seq<char>>, b: Seq<Seq<char>>, c: Seq<Seq<char>>) -> nat
    decreases a.len(),
{
    if a.len() == 0 || b.len() == 0 || c.len() == 0 || a.last() != b.last() || b.last() != c.last() {
        0
    } else {
        1 + common_suffix3(a.drop_last(), b.drop_last(), c.drop_last())
    }
}

/// Reduction by the shared leading and trailing lines, then the trivial
/// merge of what remains.
pub open spec fn try_reduce_spec(c: ConflictView) -> ResolutionView {
    let a = c.bodies.ours;
    let base = c.bodies.base;
    let b = c.bodies.theirs;
    let p = common_prefix3(a, base, b);
    let max_suffix = min_nat(min_nat(a.len(), base.len()), b.len()) - p;
    let s = min_nat(common_suffix3(a, base, b), max_suffix as nat);
    if p == 0 && s == 0 {
        ResolutionView::Unchanged
    } else {
        let na = a.subrange(p as int, a.len() - s);
        let nbase = base.subrange(p as int, base.len() - s);
        let nb = b.subrange(p as int, b.len() - s);
        let prefix = a.take(p as int);
        let suffix = a.skip(a.len() - s);
        match pick(na, nbase, nb) {
            Some(x) => ResolutionView::Resolved(text_of(prefix + x + suffix)),
            None => ResolutionView::PartiallyReduced(
                c.with_bodies(ConflictSides { ours: na, base: nbase, theirs: nb }),
            ),
        }
    }
}

/// How the fixed sequence of strategies resolves a conflict.
pub open spec fn simple_resolve_spec(c: ConflictView) -> ResolutionView {
    match try_line_endings_spec(c.bodies) {
        Some(x) => ResolutionView::Resolved(text_of(x)),
        None => match pick(c.bodies.ours, c.bodies.base, c.bodies.theirs) {
            Some(x) => ResolutionView::Resolved(text_of(x)),
            None => match try_indentation_spec(c.bodies) {
                Some(x) => ResolutionView::Resolved(text_of(x)),
                None => try_reduce_spec(c),
            },
        },
    }
}

} // verus!

verus! {

fn remove_crs_line(l: &String) -> (r: String)
    ensures
        r@ == remove_crs(l@),
{
    let cs = chars_of(l.as_str());
    let mut out = String::new();
    let mut i: usize = 0;
    while i < cs.len()
        invariant
            i <= cs@.len(),
            out@ == remove_crs(cs@.take(i as int)),
        decreases cs@.len() - i,
    {
        proof {
            assert(cs@.take(i + 1).drop_last() =~= cs@.take(i as int));
        }
        if cs[i] != '\r' {
            push_char(&mut out, cs[i]);
        }
        i += 1;
    }
    proof {
        assert(cs@.take(cs@.len() as int) =~= cs@);
    }
    out
}

fn remove_crs_lines(body: &ConflictBody) -> (r: ConflictBody)
    ensures
        r@ == remove_crs_body(body@),
{
    let ls = body.lines();
    let mut out: Vec<String> = Vec::new();
    let mut i: usize = 0;
    while i < ls.len()
        invariant
            i <= ls@.len(),
            lines_view(ls@) == body@,
            lines_view(out@) =~= remove_crs_body(body@.take(i as int)),
        decreases ls@.len() - i,
    {
        let s = remove_crs_line(&ls[i]);
        let ghost before = out@;
        out.push(s);
        proof {
            assert(lines_view(out@) =~= lines_view(before).push(s@));
            assert(body@.take(i + 1) =~= body@.take(i as int).push(body@[i as int]));
        }
        i += 1;
    }
    proof {
        assert(body@.take(ls@.len() as int) =~= body@);
    }
    ConflictBody::new(out)
}

/// The trivial three-way pick of three bodies.
fn trivial_pick(a: &ConflictBody, base: &ConflictBody, b: &ConflictBody) -> (r: Option<ConflictBody>)
    ensures
        opt_body_view(r) == pick(a@, base@, b@),
{
    if bodies_equal(a, base) && bodies_equal(base, b) {
        Some(a.duplicate())
    } else if bodies_equal(a, base) {
        Some(b.duplicate())
    } else if bodies_equal(b, base) {
        Some(a.duplicate())
    } else if bodies_equal(a, b) {
        Some(a.duplicate())
    } else {
        None
    }
}

/// The trivial merge of the bodies.
fn try_trivial(conflict: &Conflict) -> (r: Option<Resolution>)
    ensures
        match r {
            Some(res) => pick(conflict@.bodies.ours, conflict@.bodies.base, conflict@.bodies.theirs) matches Some(x)
                && res@ == ResolutionView::Resolved(text_of(x)),
            None => pick(conflict@.bodies.ours, conflict@.bodies.base, conflict@.bodies.theirs) is None,
        },
{
    match trivial_pick(&conflict.bodies.ours, &conflict.bodies.base, &conflict.bodies.theirs) {
        Some(body) => Some(Resolution::Resolved(lines_to_string(&body))),
        None => None,
    }
}

/// The trivial merge after every carriage return is removed, when the
/// removal changed anything.
fn try_line_endings(conflict: &Conflict) -> (r: Option<Resolution>)
    ensures
        match r {
            Some(res) => try_line_endings_spec(conflict@.bodies) matches Some(x) && res@
                == ResolutionView::Resolved(text_of(x)),
            None => try_line_endings_spec(conflict@.bodies) is None,
        },
{
    let norm_a = remove_crs_lines(&conflict.bodies.ours);
    let norm_base = remove_crs_lines(&conflict.bodies.base);
    let norm_b = remove_crs_lines(&conflict.bodies.theirs);
    if bodies_equal(&norm_a, &conflict.bodies.ours) && bodies_equal(&norm_base, &conflict.bodies.base)
        && bodies_equal(&norm_b, &conflict.bodies.theirs) {
        return None;
    }
    let normalized = conflict.with_bodies(ConflictSides::new(norm_a, norm_base, norm_b));
    try_trivial(&normalized)
}

fn is_blank_line(l: &String) -> (r: bool)
    ensures
        r == is_blank(l@),
{
    let cs = chars_of(l.as_str());
    let mut i: usize = 0;
    while i < cs.len()
        invariant
            i <= cs@.len(),
            cs@ == l@,
            forall|j: int| 0 <= j < i ==> is_ws(#[trigger] cs@[j]),
        decreases cs@.len() - i,
    {
        if !char_is_ws(cs[i]) {
            return false;
        }
        i += 1;
    }
    true
}

proof fn lemma_leading_ws(s: Seq<char>, k: int)
    requires
        0 <= k <= s.len(),
        forall|i: int| 0 <= i < k ==> is_ws(#[trigger] s[i]),
        k == s.len() || !is_ws(s[k]),
    ensures
        leading_ws(s) == k,
    decreases k,
{
    if k > 0 {
        assert forall|i: int| 0 <= i < k - 1 implies is_ws(#[trigger] s.skip(1)[i]) by {
            assert(is_ws(s[i + 1]));
        }
        lemma_leading_ws(s.skip(1), k - 1);
    }
}

fn ws_prefix_of(l: &String) -> (r: String)
    ensures
        r@ == ws_prefix(l@),
{
    let cs = chars_of(l.as_str());
    let mut k: usize = 0;
    while k < cs.len() && char_is_ws(cs[k])
        invariant
            k <= cs@.len(),
            forall|j: int| 0 <= j < k ==> is_ws(#[trigger] cs@[j]),
        decreases cs@.len() - k,
    {
        k += 1;
    }
    proof {
        lemma_leading_ws(cs@, k as int);
    }
    string_from_range(cs.as_slice(), 0, k)
}

/// The longest white-space prefix shared by the lines that are not blank.
pub fn common_indent(lines: &ConflictBody) -> (r: String)
    ensures
        r@ == common_indent_spec(lines@),
{
    let ls = lines.lines();
    let ghost v = lines@;
    let mut prefix: Option<String> = None;
    let mut i: usize = 0;
    while i < ls.len()
        invariant
            i <= ls@.len(),
            lines_view(ls@) == v,
            v == lines@,
            match prefix {
                Some(p) => common_indent_opt(v.take(i as int)) == Some(p@),
                None => common_indent_opt(v.take(i as int)) is None,
            },
        decreases ls@.len() - i,
    {
        proof {
            assert(v.take(i + 1).drop_last() =~= v.take(i as int));
            assert(v.take(i + 1).last() == v[i as int]);
        }
        let line = &ls[i];
        if !is_blank_line(line) {
            let ws = ws_prefix_of(line);
            prefix = match prefix {
                None => Some(ws),
                Some(existing) => Some(common_string_prefix(existing.as_str(), ws.as_str())),
            };
        }
        i += 1;
    }
    proof {
        assert(v.take(ls@.len() as int) =~= v);
    }
    match prefix {
        Some(p) => p,
        None => String::new(),
    }
}

fn strip_indent_body(lines: &ConflictBody, indent: &String) -> (r: ConflictBody)
    ensures
        r@ == lines@.map_values(|l: Seq<char>| strip_indent(l, indent@)),
{
    let ls = lines.lines();
    let n = indent.as_str().unicode_len();
    let mut out: Vec<String> = Vec::new();
    let mut i: usize = 0;
    while i < ls.len()
        invariant
            i <= ls@.len(),
            lines_view(ls@) == lines@,
            n == indent@.len(),
            lines_view(out@) =~= lines@.take(i as int).map_values(|l: Seq<char>| strip_indent(l, indent@)),
        decreases ls@.len() - i,
    {
        let l = &ls[i];
        let s = if n == 0 {
            copy_string(l)
        } else if has_prefix(l.as_str(), indent.as_str()) {
            let cs = chars_of(l.as_str());
            let r = string_from_range(cs.as_slice(), n, cs.len());
            assert(cs@.subrange(n as int, cs@.len() as int) =~= cs@.skip(n as int));
            r
        } else {
            copy_string(l)
        };
        let ghost before = out@;
        out.push(s);
        proof {
            assert(lines_view(out@) =~= lines_view(before).push(s@));
            assert(lines@.take(i + 1) =~= lines@.take(i as int).push(lines@[i as int]));
        }
        i += 1;
    }
    proof {
        assert(lines@.take(ls@.len() as int) =~= lines@);
    }
    ConflictBody::new(out)
}

fn reindent_body(lines: &ConflictBody, indent: &String) -> (r: ConflictBody)
    ensures
        r@ == lines@.map_values(|l: Seq<char>| reindent(l, indent@)),
{
    let ls = lines.lines();
    let mut out: Vec<String> = Vec::new();
    let mut i: usize = 0;
    while i < ls.len()
        invariant
            i <= ls@.len(),
            lines_view(ls@) == lines@,
            lines_view(out@) =~= lines@.take(i as int).map_values(|l: Seq<char>| reindent(l, indent@)),
        decreases ls@.len() - i,
    {
        let l = &ls[i];
        let s = if is_blank_line(l) {
            copy_string(l)
        } else {
            concat_strings(indent.as_str(), l.as_str())
        };
        let ghost before = out@;
        out.push(s);
        proof {
            assert(lines_view(out@) =~= lines_view(before).push(s@));
            assert(lines@.take(i + 1) =~= lines@.take(i as int).push(lines@[i as int]));
        }
        i += 1;
    }
    proof {
        assert(lines@.take(ls@.len() as int) =~= lines@);
    }
    ConflictBody::new(out)
}

/// The indentation-aware merge.
fn try_indentation(conflict: &Conflict) -> (r: Option<Resolution>)
    ensures
        match r {
            Some(res) => try_indentation_spec(conflict@.bodies) matches Some(x) && res@
                == ResolutionView::Resolved(text_of(x)),
            None => try_indentation_spec(conflict@.bodies) is None,
        },
{
    let indents = ConflictSides::new(
        common_indent(&conflict.bodies.ours),
        common_indent(&conflict.bodies.base),
        common_indent(&conflict.bodies.theirs),
    );
    if indents.ours == indents.base && indents.base == indents.theirs {
        return None;
    }
    let stripped_a = strip_indent_body(&conflict.bodies.ours, &indents.ours);
    let stripped_base = strip_indent_body(&conflict.bodies.base, &indents.base);
    let stripped_b = strip_indent_body(&conflict.bodies.theirs, &indents.theirs);
    let resolved_indent = match indents.resolve_value() {
        Some(i) => i,
        None => return None,
    };
    let resolved_content = match trivial_pick(&stripped_a, &stripped_base, &stripped_b) {
        Some(c) => c,
        None => return None,
    };
    let result = reindent_body(&resolved_content, &resolved_indent);
    Some(Resolution::Resolved(lines_to_string(&result)))
}

fn common_prefix3_exec(a: &[String], b: &[String], c: &[String]) -> (r: usize)
    ensures
        r == common_prefix3(lines_view(a@), lines_view(b@), lines_view(c@)),
{
    let ghost x = lines_view(a@);
    let ghost y = lines_view(b@);
    let ghost z = lines_view(c@);
    let mut i: usize = 0;
    proof {
        assert(x.skip(0) =~= x);
        assert(y.skip(0) =~= y);
        assert(z.skip(0) =~= z);
    }
    while i < a.len() && i < b.len() && i < c.len() && a[i] == b[i] && b[i] == c[i]
        invariant
            i <= a@.len(),
            i <= b@.len(),
            i <= c@.len(),
            x == lines_view(a@),
            y == lines_view(b@),
            z == lines_view(c@),
            common_prefix3(x.skip(i as int), y.skip(i as int), z.skip(i as int)) + i == common_prefix3(x, y, z),
        decreases a@.len() - i,
    {
        proof {
            assert(x.skip(i as int).skip(1) =~= x.skip(i + 1));
            assert(y.skip(i as int).skip(1) =~= y.skip(i + 1));
            assert(z.skip(i as int).skip(1) =~= z.skip(i + 1));
            assert(x.skip(i as int)[0] == x[i as int]);
            assert(y.skip(i as int)[0] == y[i as int]);
            assert(z.skip(i as int)[0] == z[i as int]);
        }
        i += 1;
    }
    proof {
        if i < a@.len() && i < b@.len() && i < c@.len() {
            assert(x.skip(i as int)[0] == x[i as int]);
            assert(y.skip(i as int)[0] == y[i as int]);
            assert(z.skip(i as int)[0] == z[i as int]);
        }
    }
    i
}

fn common_suffix3_exec(a: &[String], b: &[String], c: &[String]) -> (r: usize)
    ensures
        r == common_suffix3(lines_view(a@), lines_view(b@), lines_view(c@)),
{
    let ghost x = lines_view(a@);
    let ghost y = lines_view(b@);
    let ghost z = lines_view(c@);
    let la = a.len();
    let lb = b.len();
    let lc = c.len();
    let mut i: usize = 0;
    proof {
        assert(x.take(la as int) =~= x);
        assert(y.take(lb as int) =~= y);
        assert(z.take(lc as int) =~= z);
    }
    while i < la && i < lb && i < lc && a[la - 1 - i] == b[lb - 1 - i] && b[lb - 1 - i] == c[lc - 1 - i]
        invariant
            la == a@.len(),
            lb == b@.len(),
            lc == c@.len(),
            i <= la,
            i <= lb,
            i <= lc,
            x == lines_view(a@),
            y == lines_view(b@),
            z == lines_view(c@),
            common_suffix3(x.take(la - i), y.take(lb - i), z.take(lc - i)) + i == common_suffix3(x, y, z),
        decreases la - i,
    {
        proof {
            assert(x.take(la - i).drop_last() =~= x.take(la - i - 1));
            assert(y.take(lb - i).drop_last() =~= y.take(lb - i - 1));
            assert(z.take(lc - i).drop_last() =~= z.take(lc - i - 1));
            assert(x.take(la - i).last() == x[la - 1 - i]);
            assert(y.take(lb - i).last() == y[lb - 1 - i]);
            assert(z.take(lc - i).last() == z[lc - 1 - i]);
        }
        i += 1;
    }
    proof {
        assert(x.take(la as int) =~= x);
        assert(y.take(lb as int) =~= y);
        assert(z.take(lc as int) =~= z);
        if i < la && i < lb && i < lc {
            assert(x.take(la - i).last() == x[la - 1 - i]);
            assert(y.take(lb - i).last() == y[lb - 1 - i]);
            assert(z.take(lc - i).last() == z[lc - 1 - i]);
        }
    }
    i
}

} // verus!

verus! {

/// The lines, each followed by a line feed; empty for no lines.
fn lines_to_string(lines: &ConflictBody) -> (r: String)
    ensures
        r@ == text_of(lines@),
{
    if lines.is_empty() {
        return String::new();
    }
    lines.to_text()
}

} // verus!

verus! {

proof fn lemma_common_prefix3_bound(a: Seq<Seq<char>>, b: Seq<Seq<char>>, c: Seq<Seq<char>>)
    ensures
        common_prefix3(a, b, c) <= a.len(),
        common_prefix3(a, b, c) <= b.len(),
        common_prefix3(a, b, c) <= c.len(),
    decreases a.len(),
{
    if !(a.len() == 0 || b.len() == 0 || c.len() == 0 || a[0] != b[0] || b[0] != c[0]) {
        lemma_common_prefix3_bound(a.skip(1), b.skip(1), c.skip(1));
    }
}

fn min3(a: usize, b: usize, c: usize) -> (r: usize)
    ensures
        r == min_nat(min_nat(a as nat, b as nat), c as nat),
{
    let m = if a <= b {
        a
    } else {
        b
    };
    if m <= c {
        m
    } else {
        c
    }
}

/// Reduction by the lines all sides share at the start and end.
fn try_reduce(conflict: &Conflict) -> (r: Resolution)
    ensures
        r@ == try_reduce_spec(conflict@),
{
    let a = conflict.bodies.ours.lines();
    let base = conflict.bodies.base.lines();
    let b = conflict.bodies.theirs.lines();
    let prefix_len = common_prefix3_exec(a, base, b);
    proof {
        lemma_common_prefix3_bound(conflict@.bodies.ours, conflict@.bodies.base, conflict@.bodies.theirs);
    }
    let max_suffix = min3(a.len(), base.len(), b.len()) - prefix_len;
    let common_suffix = common_suffix3_exec(a, base, b);
    let suffix_len = if common_suffix <= max_suffix {
        common_suffix
    } else {
        max_suffix
    };
    if prefix_len == 0 && suffix_len == 0 {
        return Resolution::Unchanged;
    }
    let new_a = conflict.bodies.ours.slice(prefix_len, a.len() - suffix_len);
    let new_base = conflict.bodies.base.slice(prefix_len, base.len() - suffix_len);
    let new_b = conflict.bodies.theirs.slice(prefix_len, b.len() - suffix_len);
    match trivial_pick(&new_a, &new_base, &new_b) {
        Some(middle) => {
            let mut result = conflict.bodies.ours.slice(0, prefix_len);
            result.extend(middle.into_lines());
            let suffix = conflict.bodies.ours.slice(a.len() - suffix_len, a.len());
            result.extend(suffix.into_lines());
            proof {
                assert(conflict@.bodies.ours.subrange(0, prefix_len as int) =~= conflict@.bodies.ours.take(
                    prefix_len as int,
                ));
                assert(conflict@.bodies.ours.subrange(a@.len() - suffix_len, a@.len() as int)
                    =~= conflict@.bodies.ours.skip(a@.len() - suffix_len));
            }
            Resolution::Resolved(lines_to_string(&result))
        },
        None => Resolution::PartiallyReduced(
            conflict.with_bodies(ConflictSides::new(new_a, new_base, new_b)),
        ),
    }
}

/// Attempt to resolve a single conflict by applying, in order: line-ending
/// normalization, the trivial merge, the indentation-aware merge, and
/// reduction by the lines all sides share at the start and end.
pub fn resolve_conflict(conflict: &Conflict) -> (r: Resolution)
    ensures
        r@ == simple_resolve_spec(conflict@),
{
    if let Some(res) = try_line_endings(conflict) {
        return res;
    }
    if let Some(res) = try_trivial(conflict) {
        return res;
    }
    if let Some(res) = try_indentation(conflict) {
        return res;
    }
    try_reduce(conflict)
}

/// The chunk a chunk becomes: plain text stays, a resolved conflict becomes
/// plain text, a reduced conflict the reduced one, another stays.
pub open spec fn simple_chunk_spec(c: ChunkView) -> ChunkView {
    match c {
        ChunkView::Plain(t) => ChunkView::Plain(t),
        ChunkView::Conflict(cv) => match simple_resolve_spec(cv) {
            ResolutionView::Resolved(t) => ChunkView::Plain(t),
            ResolutionView::PartiallyReduced(r) => ChunkView::Conflict(r),
            ResolutionView::Unchanged => ChunkView::Conflict(cv),
        },
    }
}

/// The counts of resolved, reduced and remaining conflicts.
pub open spec fn simple_tally(cs: Seq<ChunkView>) -> (int, int, int)
    decreases cs.len(),
{
    if cs.len() == 0 {
        (0, 0, 0)
    } else {
        let (a, b, c) = simple_tally(cs.drop_last());
        match cs.last() {
            ChunkView::Plain(_) => (a, b, c),
            ChunkView::Conflict(cv) => match simple_resolve_spec(cv) {
                ResolutionView::Resolved(_) => (a + 1, b, c),
                ResolutionView::PartiallyReduced(_) => (a, b + 1, c),
                ResolutionView::Unchanged => (a, b, c + 1),
            },
        }
    }
}

proof fn lemma_simple_tally_bound(cs: Seq<ChunkView>)
    ensures
        simple_tally(cs).0 + simple_tally(cs).1 + simple_tally(cs).2 <= cs.len(),
        simple_tally(cs).0 >= 0 && simple_tally(cs).1 >= 0 && simple_tally(cs).2 >= 0,
    decreases cs.len(),
{
    if cs.len() > 0 {
        lemma_simple_tally_bound(cs.drop_last());
    }
}

/// Resolve all conflicts in a list of chunks, returning the new chunks and
/// the counts.
pub fn resolve_chunks(chunks: Vec<Chunk>) -> (r: (Vec<Chunk>, FileResult))
    ensures
        chunks_view(r.0@) == chunks_view(chunks@).map_values(|c: ChunkView| simple_chunk_spec(c)),
        (r.1.resolved as int, r.1.partially_resolved as int, r.1.failed as int) == simple_tally(
            chunks_view(chunks@),
        ),
{
    let ghost cs = chunks_view(chunks@);
    let mut result: Vec<Chunk> = Vec::new();
    let mut stats = FileResult { resolved: 0, partially_resolved: 0, failed: 0 };
    let mut i: usize = 0;
    while i < chunks.len()
        invariant
            i <= chunks@.len(),
            cs == chunks_view(chunks@),
            chunks_view(result@) =~= cs.take(i as int).map_values(|c: ChunkView| simple_chunk_spec(c)),
            (stats.resolved as int, stats.partially_resolved as int, stats.failed as int)
                == simple_tally(cs.take(i as int)),
        decreases chunks@.len() - i,
    {
        proof {
            let t = cs.take(i + 1);
            assert(t.drop_last() =~= cs.take(i as int));
            assert(t.last() == chunks@[i as int]@);
            lemma_simple_tally_bound(cs.take(i as int));
        }
        let ghost before = result@;
        let produced = match &chunks[i] {
            Chunk::Plain(text) => Chunk::Plain(copy_string(text)),
            Chunk::Conflict(conflict) => match resolve_conflict(conflict) {
                Resolution::Resolved(text) => {
                    stats.resolved = stats.resolved + 1;
                    Chunk::Plain(text)
                },
                Resolution::PartiallyReduced(reduced) => {
                    stats.partially_resolved = stats.partially_resolved + 1;
                    Chunk::Conflict(reduced)
                },
                Resolution::Unchanged => {
                    stats.failed = stats.failed + 1;
                    Chunk::Conflict(conflict.duplicate())
                },
            },
        };
        result.push(produced);
        proof {
            assert(chunks_view(result@) =~= chunks_view(before).push(produced@));
            assert(cs.take(i + 1).map_values(|c: ChunkView| simple_chunk_spec(c)) =~= cs.take(
                i as int,
            ).map_values(|c: ChunkView| simple_chunk_spec(c)).push(simple_chunk_spec(cs[i as int])));
        }
        i += 1;
    }
    proof {
        assert(cs.take(chunks@.len() as int) =~= cs);
    }
    (result, stats)
}

} // verus!

verus! {

/// Trivial resolution, in the resolver with fixed strategies: a conflict
/// where one side matches the base resolves to the other side, and one
/// where both sides agree resolves to them; carriage returns are dropped
/// from the lines taken.
pub proof fn law_simple_trivial_resolution(c: ConflictView)
    ensures
        c.bodies.ours == c.bodies.base ==> simple_resolve_spec(c) == ResolutionView::Resolved(
            text_of(remove_crs_body(c.bodies.theirs)),
        ),
        c.bodies.theirs == c.bodies.base ==> simple_resolve_spec(c) == ResolutionView::Resolved(
            text_of(remove_crs_body(c.bodies.ours)),
        ),
        c.bodies.ours == c.bodies.theirs ==> simple_resolve_spec(c) == ResolutionView::Resolved(
            text_of(remove_crs_body(c.bodies.ours)),
        ),
{
}

} // verus!
