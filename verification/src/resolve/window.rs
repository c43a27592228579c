//! The window of a conflict: the lines all sides share at its start and
//! end, and the smaller conflict between them.
use vstd::prelude::*;

use crate::text::{copy_lines, copy_string, lines_view, text_of};
use crate::types::{Conflict, ConflictBody, ConflictSides, ConflictView};

verus! {

/// The length of the longest common prefix of two sequences.
pub open spec fn common_prefix_len<A>(a: Seq<A>, b: Seq<A>) -> nat
    decreases a.len(),
{
    if a.len() == 0 || b.len() == 0 || a[0] != b[0] {
        0
    } else {
        1 + common_prefix_len(a.skip(1), b.skip(1))
    }
}

/// The length of the longest common suffix of two sequences.
pub open spec fn common_suffix_len<A>(a: Seq<A>, b: Seq<A>) -> nat
    decreases a.len(),
{
    if a.len() == 0 || b.len() == 0 || a.last() != b.last() {
        0
    } else {
        1 + common_suffix_len(a.drop_last(), b.drop_last())
    }
}

pub proof fn lemma_common_prefix_len<A>(a: Seq<A>, b: Seq<A>, k: int)
    requires
        0 <= k <= a.len(),
        k <= b.len(),
        forall|i: int| 0 <= i < k ==> a[i] == b[i],
        k == a.len() || k == b.len() || a[k] != b[k],
    ensures
        common_prefix_len(a, b) == k,
    decreases k,
{
    if k > 0 {
        lemma_common_prefix_len(a.skip(1), b.skip(1), k - 1);
    }
}

/// The `i`-th element from the end.
pub open spec fn rev_at<A>(s: Seq<A>, i: int) -> A {
    s[s.len() - 1 - i]
}

pub proof fn lemma_common_suffix_len<A>(a: Seq<A>, b: Seq<A>, k: int)
    requires
        0 <= k <= a.len(),
        k <= b.len(),
        forall|i: int| 0 <= i < k ==> #[trigger] rev_at(a, i) == rev_at(b, i),
        k == a.len() || k == b.len() || a[a.len() - 1 - k] != b[b.len() - 1 - k],
    ensures
        common_suffix_len(a, b) == k,
    decreases k,
{
    if k > 0 {
        let a2 = a.drop_last();
        let b2 = b.drop_last();
        assert forall|i: int| 0 <= i < k - 1 implies #[trigger] rev_at(a2, i) == rev_at(b2, i) by {
            assert(rev_at(a, i + 1) == rev_at(b, i + 1));
        }
        assert(rev_at(a, 0) == rev_at(b, 0));
        lemma_common_suffix_len(a2, b2, k - 1);
    }
}

pub open spec fn min_nat(a: nat, b: nat) -> nat {
    if a <= b {
        a
    } else {
        b
    }
}

/// How many leading lines all sides share; with an empty base, how many
/// the two sides share; none when one side (but not the base) is empty.
pub open spec fn shared_prefix_spec(base: Seq<Seq<char>>, ours: Seq<Seq<char>>, theirs: Seq<Seq<char>>) -> nat {
    if base.len() == 0 {
        common_prefix_len(ours, theirs)
    } else if ours.len() == 0 {
        0
    } else if theirs.len() == 0 {
        0
    } else {
        min_nat(common_prefix_len(base, ours), common_prefix_len(base, theirs))
    }
}

/// The lines after the first `p`.
pub open spec fn after_prefix(ls: Seq<Seq<char>>, p: nat) -> Seq<Seq<char>> {
    ls.skip(min_nat(p, ls.len()) as int)
}

/// How many trailing lines all sides share after the shared prefix.
pub open spec fn shared_suffix_spec(base: Seq<Seq<char>>, ours: Seq<Seq<char>>, theirs: Seq<Seq<char>>, p: nat) -> nat {
    let o = after_prefix(ours, p);
    let b = after_prefix(base, p);
    let t = after_prefix(theirs, p);
    if b.len() == 0 {
        common_suffix_len(o, t)
    } else if o.len() == 0 {
        0
    } else if t.len() == 0 {
        0
    } else {
        min_nat(common_suffix_len(b, o), common_suffix_len(b, t))
    }
}

/// The first of ours, base, theirs that has at least `n` lines; ours if none has.
pub open spec fn boundary_source_spec(base: Seq<Seq<char>>, ours: Seq<Seq<char>>, theirs: Seq<Seq<char>>, n: nat) -> Seq<Seq<char>> {
    if ours.len() >= n {
        ours
    } else if base.len() >= n {
        base
    } else if theirs.len() >= n {
        theirs
    } else {
        ours
    }
}

/// The lines of `ls` without the first `p` and the last `s`.
pub open spec fn trimmed_spec(ls: Seq<Seq<char>>, p: nat, s: nat) -> Seq<Seq<char>> {
    let end: int = if s <= ls.len() {
        ls.len() - s
    } else {
        0
    };
    let start: int = if p <= end {
        p as int
    } else {
        end
    };
    ls.subrange(start, end)
}

/// The view of a conflict window.
pub struct WindowView {
    pub prefix: Seq<Seq<char>>,
    pub core: ConflictSides<Seq<Seq<char>>>,
    pub suffix: Seq<Seq<char>>,
}

/// The window of three bodies.
pub open spec fn window_spec(b: ConflictSides<Seq<Seq<char>>>) -> WindowView {
    let p = shared_prefix_spec(b.base, b.ours, b.theirs);
    let s = shared_suffix_spec(b.base, b.ours, b.theirs, p);
    let src_p = boundary_source_spec(b.base, b.ours, b.theirs, p);
    let src_s = boundary_source_spec(b.base, b.ours, b.theirs, s);
    WindowView {
        prefix: src_p.take(min_nat(p, src_p.len()) as int),
        core: ConflictSides {
            ours: trimmed_spec(b.ours, p, s),
            base: trimmed_spec(b.base, p, s),
            theirs: trimmed_spec(b.theirs, p, s),
        },
        suffix: src_s.skip(src_s.len() - min_nat(s, src_s.len())),
    }
}

impl WindowView {
    pub open spec fn is_reduced(self) -> bool {
        self.prefix.len() > 0 || self.suffix.len() > 0
    }

    /// Lines in the window: the prefix, the given lines, the suffix.
    pub open spec fn surround(self, body: Seq<Seq<char>>) -> Seq<Seq<char>> {
        self.prefix + body + self.suffix
    }

    /// The text of the reduced conflict in its window.
    pub open spec fn reduced_text(self, template: ConflictView) -> Seq<char> {
        text_of(self.surround(template.with_bodies(self.core).conflict_lines()))
    }
}

/// The lines a conflict's sides share at its start and end, and the
/// conflict that remains between them.
#[derive(Debug, Clone, PartialEq, Eq)]
pub struct ConflictWindow {
    pub prefix: ConflictBody,
    pub core: ConflictSides<ConflictBody>,
    pub suffix: ConflictBody,
}

impl View for ConflictWindow {
    type V = WindowView;

    open spec fn view(&self) -> WindowView {
        WindowView { prefix: self.prefix@, core: self.core@, suffix: self.suffix@ }
    }
}

fn lines_equal(a: &String, b: &String) -> (r: bool)
    ensures
        r == (a@ == b@),
{
    *a == *b
}

/// The length of the longest common prefix of two line sequences.
pub fn common_prefix_len_lines(left: &[String], right: &[String]) -> (r: usize)
    ensures
        r == common_prefix_len(lines_view(left@), lines_view(right@)),
{
    let mut i: usize = 0;
    while i < left.len() && i < right.len() && lines_equal(&left[i], &right[i])
        invariant
            i <= left@.len(),
            i <= right@.len(),
            forall|j: int| 0 <= j < i ==> lines_view(left@)[j] == lines_view(right@)[j],
        decreases left@.len() - i,
    {
        i += 1;
    }
    proof {
        lemma_common_prefix_len(lines_view(left@), lines_view(right@), i as int);
    }
    i
}

/// The length of the longest common suffix of two line sequences.
pub fn common_suffix_len_lines(left: &[String], right: &[String]) -> (r: usize)
    ensures
        r == common_suffix_len(lines_view(left@), lines_view(right@)),
{
    let ghost a = lines_view(left@);
    let ghost b = lines_view(right@);
    let ln = left.len();
    let rn = right.len();
    let mut i: usize = 0;
    while i < ln && i < rn && lines_equal(&left[ln - 1 - i], &right[rn - 1 - i])
        invariant
            ln == left@.len(),
            rn == right@.len(),
            a == lines_view(left@),
            b == lines_view(right@),
            i <= ln,
            i <= rn,
            forall|j: int| 0 <= j < i ==> #[trigger] rev_at(a, j) == rev_at(b, j),
        decreases ln - i,
    {
        i += 1;
    }
    proof {
        lemma_common_suffix_len(a, b, i as int);
    }
    i
}

fn min_usize(a: usize, b: usize) -> (r: usize)
    ensures
        r == min_nat(a as nat, b as nat),
{
    if a <= b {
        a
    } else {
        b
    }
}

fn shared_prefix(base: &[String], ours: &[String], theirs: &[String]) -> (r: usize)
    ensures
        r == shared_prefix_spec(lines_view(base@), lines_view(ours@), lines_view(theirs@)),
{
    if base.len() == 0 {
        common_prefix_len_lines(ours, theirs)
    } else if ours.len() == 0 {
        0
    } else if theirs.len() == 0 {
        0
    } else {
        min_usize(common_prefix_len_lines(base, ours), common_prefix_len_lines(base, theirs))
    }
}

fn skip_lines(ls: &[String], p: usize) -> (r: Vec<String>)
    ensures
        lines_view(r@) == after_prefix(lines_view(ls@), p as nat),
{
    let start = min_usize(p, ls.len());
    let mut out: Vec<String> = Vec::new();
    let mut i = start;
    while i < ls.len()
        invariant
            start <= i <= ls@.len(),
            start == min_nat(p as nat, ls@.len()),
            lines_view(out@) =~= lines_view(ls@).subrange(start as int, i as int),
        decreases ls@.len() - i,
    {
        let ghost before = out@;
        let s = copy_string(&ls[i]);
        out.push(s);
        proof {
            assert(lines_view(out@) =~= lines_view(before).push(s@));
        }
        i += 1;
    }
    out
}

fn shared_suffix_after_prefix(base: &[String], ours: &[String], theirs: &[String], prefix_len: usize) -> (r: usize)
    ensures
        r == shared_suffix_spec(lines_view(base@), lines_view(ours@), lines_view(theirs@), prefix_len as nat),
{
    let o = skip_lines(ours, prefix_len);
    let b = skip_lines(base, prefix_len);
    let t = skip_lines(theirs, prefix_len);
    if b.len() == 0 {
        common_suffix_len_lines(o.as_slice(), t.as_slice())
    } else if o.len() == 0 {
        0
    } else if t.len() == 0 {
        0
    } else {
        min_usize(
            common_suffix_len_lines(b.as_slice(), o.as_slice()),
            common_suffix_len_lines(b.as_slice(), t.as_slice()),
        )
    }
}

fn boundary_source<'a>(base: &'a [String], ours: &'a [String], theirs: &'a [String], len: usize) -> (r: &'a [String])
    ensures
        lines_view(r@) == boundary_source_spec(lines_view(base@), lines_view(ours@), lines_view(theirs@), len as nat),
{
    if ours.len() >= len {
        ours
    } else if base.len() >= len {
        base
    } else if theirs.len() >= len {
        theirs
    } else {
        ours
    }
}

fn range_lines(ls: &[String], a: usize, b: usize) -> (r: ConflictBody)
    requires
        a <= b <= ls@.len(),
    ensures
        r@ == lines_view(ls@).subrange(a as int, b as int),
{
    let mut out: Vec<String> = Vec::new();
    let mut i = a;
    while i < b
        invariant
            a <= i <= b <= ls@.len(),
            lines_view(out@) =~= lines_view(ls@).subrange(a as int, i as int),
        decreases b - i,
    {
        let ghost before = out@;
        let s = copy_string(&ls[i]);
        out.push(s);
        proof {
            assert(lines_view(out@) =~= lines_view(before).push(s@));
        }
        i += 1;
    }
    ConflictBody::new(out)
}

fn boundary_prefix(base: &[String], ours: &[String], theirs: &[String], prefix_len: usize) -> (r: ConflictBody)
    ensures
        r@ == ({
            let src = boundary_source_spec(lines_view(base@), lines_view(ours@), lines_view(theirs@), prefix_len as nat);
            src.take(min_nat(prefix_len as nat, src.len()) as int)
        }),
{
    let lines = boundary_source(base, ours, theirs, prefix_len);
    let n = min_usize(prefix_len, lines.len());
    let r = range_lines(lines, 0, n);
    assert(lines_view(lines@).subrange(0, n as int) =~= lines_view(lines@).take(n as int));
    r
}

fn boundary_suffix(base: &[String], ours: &[String], theirs: &[String], suffix_len: usize) -> (r: ConflictBody)
    ensures
        r@ == ({
            let src = boundary_source_spec(lines_view(base@), lines_view(ours@), lines_view(theirs@), suffix_len as nat);
            src.skip(src.len() - min_nat(suffix_len as nat, src.len()))
        }),
{
    let lines = boundary_source(base, ours, theirs, suffix_len);
    let start = lines.len() - min_usize(suffix_len, lines.len());
    let r = range_lines(lines, start, lines.len());
    assert(lines_view(lines@).subrange(start as int, lines@.len() as int) =~= lines_view(lines@).skip(start as int));
    r
}

fn trimmed_body(lines: &[String], prefix_len: usize, suffix_len: usize) -> (r: ConflictBody)
    ensures
        r@ == trimmed_spec(lines_view(lines@), prefix_len as nat, suffix_len as nat),
{
    let end = lines.len().saturating_sub(suffix_len);
    let start = min_usize(prefix_len, end);
    range_lines(lines, start, end)
}

impl ConflictWindow {
    /// The window of a conflict.
    pub fn from_conflict(conflict: &Conflict) -> (r: Self)
        ensures
            r@ == window_spec(conflict@.bodies),
    {
        let ours = conflict.bodies.ours.lines();
        let base = conflict.bodies.base.lines();
        let theirs = conflict.bodies.theirs.lines();
        let prefix_len = shared_prefix(base, ours, theirs);
        let suffix_len = shared_suffix_after_prefix(base, ours, theirs, prefix_len);
        ConflictWindow {
            prefix: boundary_prefix(base, ours, theirs, prefix_len),
            core: ConflictSides::new(
                trimmed_body(ours, prefix_len, suffix_len),
                trimmed_body(base, prefix_len, suffix_len),
                trimmed_body(theirs, prefix_len, suffix_len),
            ),
            suffix: boundary_suffix(base, ours, theirs, suffix_len),
        }
    }

    pub fn is_reduced(&self) -> (r: bool)
        ensures
            r == self@.is_reduced(),
    {
        !self.prefix.is_empty() || !self.suffix.is_empty()
    }

    pub fn core_sides(&self) -> (r: &ConflictSides<ConflictBody>)
        ensures
            r == &self.core,
    {
        &self.core
    }

    /// The template's markers around the window's core.
    pub fn reduced_conflict(&self, template: &Conflict) -> (r: Conflict)
        ensures
            r@ == template@.with_bodies(self@.core),
    {
        template.with_bodies(self.core.duplicate())
    }

    /// The prefix, the given lines, the suffix.
    pub fn surround(&self, body: ConflictBody) -> (r: ConflictBody)
        ensures
            r@ == self@.surround(body@),
    {
        let mut lines = copy_lines(self.prefix.lines());
        let mut rest = body.into_lines();
        let ghost b = lines_view(rest@);
        lines.append(&mut rest);
        let mut suffix = copy_lines(self.suffix.lines());
        lines.append(&mut suffix);
        let r = ConflictBody::new(lines);
        assert(r@ =~= self@.surround(b));
        r
    }

    /// The text of the reduced conflict inside its window.
    pub fn render_reduced_conflict_text(&self, template: &Conflict) -> (r: String)
        ensures
            r@ == self@.reduced_text(template@),
    {
        let reduced = self.reduced_conflict(template);
        self.surround(reduced.to_conflict_lines()).to_text()
    }
}

} // verus!

verus! {

proof fn lemma_common_prefix_facts<A>(a: Seq<A>, b: Seq<A>)
    ensures
        common_prefix_len(a, b) <= a.len(),
        common_prefix_len(a, b) <= b.len(),
        forall|i: int| 0 <= i < common_prefix_len(a, b) ==> a[i] == b[i],
    decreases a.len(),
{
    if !(a.len() == 0 || b.len() == 0 || a[0] != b[0]) {
        lemma_common_prefix_facts(a.skip(1), b.skip(1));
        assert forall|i: int| 0 <= i < common_prefix_len(a, b) implies a[i] == b[i] by {
            if i > 0 {
                assert(a.skip(1)[i - 1] == b.skip(1)[i - 1]);
            }
        }
    }
}

proof fn lemma_common_suffix_facts<A>(a: Seq<A>, b: Seq<A>)
    ensures
        common_suffix_len(a, b) <= a.len(),
        common_suffix_len(a, b) <= b.len(),
        forall|i: int| 0 <= i < common_suffix_len(a, b) ==> #[trigger] rev_at(a, i) == rev_at(b, i),
    decreases a.len(),
{
    if !(a.len() == 0 || b.len() == 0 || a.last() != b.last()) {
        lemma_common_suffix_facts(a.drop_last(), b.drop_last());
        assert forall|i: int| 0 <= i < common_suffix_len(a, b) implies #[trigger] rev_at(a, i) == rev_at(b, i) by {
            if i > 0 {
                assert(rev_at(a.drop_last(), i - 1) == rev_at(b.drop_last(), i - 1));
            }
        }
    }
}

/// `x` is the first `p` lines of `src`, then `core`, then the last `s`
/// lines of `src`, whenever `x` agrees with `src` on those lines.
proof fn lemma_surround_side(x: Seq<Seq<char>>, src: Seq<Seq<char>>, p: nat, s: nat)
    requires
        p + s <= x.len(),
        p <= src.len(),
        s <= src.len(),
        forall|i: int| 0 <= i < p ==> x[i] == src[i],
        forall|i: int| 0 <= i < s ==> #[trigger] rev_at(x, i) == rev_at(src, i),
    ensures
        src.take(p as int) + trimmed_spec(x, p, s) + src.skip(src.len() - s) == x,
{
    let t = trimmed_spec(x, p, s);
    assert(t == x.subrange(p as int, x.len() - s));
    let whole = src.take(p as int) + t + src.skip(src.len() - s);
    assert forall|i: int| 0 <= i < x.len() implies whole[i] == x[i] by {
        if i < p {
        } else if i < x.len() - s {
        } else {
            let k = x.len() - 1 - i;
            assert(rev_at(x, k) == rev_at(src, k));
        }
    }
    assert(whole =~= x);
}

/// The lines the window takes from the sides: the shared prefix of `p`
/// lines and the shared suffix of `s` lines are the same in ours and
/// theirs (and in the base when it goes on past the prefix), and the
/// window's prefix and suffix are those lines.
pub proof fn lemma_window_sides_agree(b: ConflictSides<Seq<Seq<char>>>)
    ensures
        ({
            let p = shared_prefix_spec(b.base, b.ours, b.theirs);
            let s = shared_suffix_spec(b.base, b.ours, b.theirs, p);
            let w = window_spec(b);
            &&& p + s <= b.ours.len()
            &&& p + s <= b.theirs.len()
            &&& forall|i: int| 0 <= i < p ==> b.theirs[i] == b.ours[i]
            &&& forall|i: int| 0 <= i < s ==> #[trigger] rev_at(b.theirs, i) == rev_at(b.ours, i)
            &&& b.base.len() > p ==> {
                &&& p + s <= b.base.len()
                &&& forall|i: int| 0 <= i < p ==> b.base[i] == b.ours[i]
                &&& forall|i: int| 0 <= i < s ==> #[trigger] rev_at(b.base, i) == rev_at(b.ours, i)
            }
            &&& w.prefix == b.ours.take(p as int)
            &&& w.suffix == b.ours.skip(b.ours.len() - s)
        }),
{
    let p = shared_prefix_spec(b.base, b.ours, b.theirs);
    let s = shared_suffix_spec(b.base, b.ours, b.theirs, p);
    let w = window_spec(b);
    lemma_common_prefix_facts(b.ours, b.theirs);
    lemma_common_prefix_facts(b.base, b.ours);
    lemma_common_prefix_facts(b.base, b.theirs);
    let o = after_prefix(b.ours, p);
    let bb = after_prefix(b.base, p);
    let t = after_prefix(b.theirs, p);
    lemma_common_suffix_facts(o, t);
    lemma_common_suffix_facts(bb, o);
    lemma_common_suffix_facts(bb, t);
    if b.base.len() == 0 {
        assert(p <= b.ours.len() && p <= b.theirs.len());
    } else if b.ours.len() == 0 || b.theirs.len() == 0 {
        assert(p == 0);
    } else {
        assert(p <= b.ours.len() && p <= b.theirs.len() && p <= b.base.len());
    }
    assert(o.len() == b.ours.len() - p);
    assert(t.len() == b.theirs.len() - p);
    assert(b.base.len() >= p ==> bb.len() == b.base.len() - p);
    assert(b.base.len() < p ==> bb.len() == 0);
    let src_p = boundary_source_spec(b.base, b.ours, b.theirs, p);
    let src_s = boundary_source_spec(b.base, b.ours, b.theirs, s);
    assert(src_p == b.ours);
    assert(w.prefix == b.ours.take(p as int));
    assert forall|i: int| 0 <= i < p implies b.theirs[i] == b.ours[i] by {
        if b.base.len() == 0 {
        } else {
            assert(b.base[i] == b.ours[i]);
            assert(b.base[i] == b.theirs[i]);
        }
    }
    if bb.len() == 0 {
        assert(s == common_suffix_len(o, t));
    } else if o.len() == 0 || t.len() == 0 {
        assert(s == 0);
    } else {
        assert(s <= o.len() && s <= t.len() && s <= bb.len());
    }
    assert(s <= o.len() && s <= t.len());
    assert(src_s == b.ours);
    assert(w.suffix == b.ours.skip(b.ours.len() - s));
    assert forall|i: int| 0 <= i < s implies #[trigger] rev_at(b.theirs, i) == rev_at(b.ours, i) by {
        assert(rev_at(b.ours, i) == rev_at(o, i));
        assert(rev_at(b.theirs, i) == rev_at(t, i));
        if bb.len() == 0 {
            assert(rev_at(o, i) == rev_at(t, i));
        } else {
            assert(rev_at(bb, i) == rev_at(o, i));
            assert(rev_at(bb, i) == rev_at(t, i));
        }
    }
    if b.base.len() > p {
        assert(bb.len() > 0);
        assert(s <= bb.len());
        assert forall|i: int| 0 <= i < s implies #[trigger] rev_at(b.base, i) == rev_at(b.ours, i) by {
            assert(rev_at(b.ours, i) == rev_at(o, i));
            assert(rev_at(b.base, i) == rev_at(bb, i));
            if o.len() > 0 && t.len() > 0 {
                assert(rev_at(bb, i) == rev_at(o, i));
            }
        }
    }
}

/// Reduction keeps both sides: each of ours and theirs is the window's
/// shared prefix, its own part of the core, and the shared suffix; so is
/// the base when it goes on past the shared prefix.
pub proof fn law_window_keeps_sides(b: ConflictSides<Seq<Seq<char>>>)
    ensures
        ({
            let w = window_spec(b);
            &&& w.surround(w.core.ours) == b.ours
            &&& w.surround(w.core.theirs) == b.theirs
            &&& b.base.len() > w.prefix.len() ==> w.surround(w.core.base) == b.base
        }),
{
    let p = shared_prefix_spec(b.base, b.ours, b.theirs);
    let s = shared_suffix_spec(b.base, b.ours, b.theirs, p);
    lemma_window_sides_agree(b);
    lemma_surround_side(b.ours, b.ours, p, s);
    lemma_surround_side(b.theirs, b.ours, p, s);
    if b.base.len() > p {
        lemma_surround_side(b.base, b.ours, p, s);
    }
}

proof fn lemma_common_prefix_maximal<A>(a: Seq<A>, b: Seq<A>)
    ensures
        common_prefix_len(a, b) < a.len() && common_prefix_len(a, b) < b.len() ==> a[common_prefix_len(
            a,
            b,
        ) as int] != b[common_prefix_len(a, b) as int],
    decreases a.len(),
{
    if !(a.len() == 0 || b.len() == 0 || a[0] != b[0]) {
        let k: int = common_prefix_len(a.skip(1), b.skip(1)) as int;
        lemma_common_prefix_maximal(a.skip(1), b.skip(1));
        if k < a.len() - 1 && k < b.len() - 1 {
            assert(a[k + 1] == a.skip(1)[k]);
            assert(b[k + 1] == b.skip(1)[k]);
        }
    }
}

proof fn lemma_common_suffix_maximal<A>(a: Seq<A>, b: Seq<A>)
    ensures
        common_suffix_len(a, b) < a.len() && common_suffix_len(a, b) < b.len() ==> rev_at(
            a,
            common_suffix_len(a, b) as int,
        ) != rev_at(b, common_suffix_len(a, b) as int),
    decreases a.len(),
{
    if !(a.len() == 0 || b.len() == 0 || a.last() != b.last()) {
        let k: int = common_suffix_len(a.drop_last(), b.drop_last()) as int;
        lemma_common_suffix_maximal(a.drop_last(), b.drop_last());
        if k < a.len() - 1 && k < b.len() - 1 {
            assert(rev_at(a, k + 1) == rev_at(a.drop_last(), k));
            assert(rev_at(b, k + 1) == rev_at(b.drop_last(), k));
        }
    }
}

/// The window is as wide as it can be: when its core keeps a line of each
/// of the three sides, those sides do not all begin with the same line, and
/// they do not all end with the same line; with an empty base, the same
/// holds of ours and theirs.
pub proof fn law_window_maximal(b: ConflictSides<Seq<Seq<char>>>)
    ensures
        ({
            let c = window_spec(b).core;
            &&& c.ours.len() > 0 && c.base.len() > 0 && c.theirs.len() > 0 ==> {
                &&& !(c.ours[0] == c.base[0] && c.base[0] == c.theirs[0])
                &&& !(c.ours.last() == c.base.last() && c.base.last() == c.theirs.last())
            }
            &&& b.base.len() == 0 && c.ours.len() > 0 && c.theirs.len() > 0 ==> {
                &&& c.ours[0] != c.theirs[0]
                &&& c.ours.last() != c.theirs.last()
            }
        }),
{
    let p = shared_prefix_spec(b.base, b.ours, b.theirs);
    let s = shared_suffix_spec(b.base, b.ours, b.theirs, p);
    let c = window_spec(b).core;
    if b.base.len() == 0 && c.ours.len() > 0 && c.theirs.len() > 0 {
        assert(p + s < b.ours.len());
        assert(p + s < b.theirs.len());
        assert(c.ours[0] == b.ours[p as int]);
        assert(c.theirs[0] == b.theirs[p as int]);
        assert(c.ours.last() == b.ours[b.ours.len() - 1 - s]);
        assert(c.theirs.last() == b.theirs[b.theirs.len() - 1 - s]);
        lemma_common_prefix_facts(b.ours, b.theirs);
        lemma_common_prefix_maximal(b.ours, b.theirs);
        let o = after_prefix(b.ours, p);
        let bb = after_prefix(b.base, p);
        let t = after_prefix(b.theirs, p);
        assert(o == b.ours.skip(p as int));
        assert(t == b.theirs.skip(p as int));
        assert(bb.len() == 0);
        lemma_common_suffix_facts(o, t);
        lemma_common_suffix_maximal(o, t);
        assert(rev_at(o, s as int) == b.ours[b.ours.len() - 1 - s]);
        assert(rev_at(t, s as int) == b.theirs[b.theirs.len() - 1 - s]);
    }
    if c.ours.len() > 0 && c.base.len() > 0 && c.theirs.len() > 0 {
        assert(p + s < b.ours.len());
        assert(p + s < b.base.len());
        assert(p + s < b.theirs.len());
        assert(c.ours[0] == b.ours[p as int]);
        assert(c.base[0] == b.base[p as int]);
        assert(c.theirs[0] == b.theirs[p as int]);
        assert(c.ours.last() == b.ours[b.ours.len() - 1 - s]);
        assert(c.base.last() == b.base[b.base.len() - 1 - s]);
        assert(c.theirs.last() == b.theirs[b.theirs.len() - 1 - s]);
        lemma_common_prefix_facts(b.base, b.ours);
        lemma_common_prefix_facts(b.base, b.theirs);
        lemma_common_prefix_maximal(b.base, b.ours);
        lemma_common_prefix_maximal(b.base, b.theirs);
        assert(p == min_nat(common_prefix_len(b.base, b.ours), common_prefix_len(b.base, b.theirs)));
        let o = after_prefix(b.ours, p);
        let bb = after_prefix(b.base, p);
        let t = after_prefix(b.theirs, p);
        assert(o == b.ours.skip(p as int));
        assert(bb == b.base.skip(p as int));
        assert(t == b.theirs.skip(p as int));
        lemma_common_suffix_facts(bb, o);
        lemma_common_suffix_facts(bb, t);
        lemma_common_suffix_maximal(bb, o);
        lemma_common_suffix_maximal(bb, t);
        assert(s == min_nat(common_suffix_len(bb, o), common_suffix_len(bb, t)));
        assert(rev_at(o, s as int) == b.ours[b.ours.len() - 1 - s]);
        assert(rev_at(bb, s as int) == b.base[b.base.len() - 1 - s]);
        assert(rev_at(t, s as int) == b.theirs[b.theirs.len() - 1 - s]);
    }
}

} // verus!

verus! {

/// The sides of a conflict with ours and theirs exchanged.
pub open spec fn swap_bodies<T>(b: ConflictSides<T>) -> ConflictSides<T> {
    ConflictSides { ours: b.theirs, base: b.base, theirs: b.ours }
}

proof fn lemma_common_prefix_len_symmetric<A>(a: Seq<A>, b: Seq<A>)
    ensures
        common_prefix_len(a, b) == common_prefix_len(b, a),
    decreases a.len(),
{
    if !(a.len() == 0 || b.len() == 0 || a[0] != b[0]) {
        lemma_common_prefix_len_symmetric(a.skip(1), b.skip(1));
    }
}

proof fn lemma_common_suffix_len_symmetric<A>(a: Seq<A>, b: Seq<A>)
    ensures
        common_suffix_len(a, b) == common_suffix_len(b, a),
    decreases a.len(),
{
    if !(a.len() == 0 || b.len() == 0 || a.last() != b.last()) {
        lemma_common_suffix_len_symmetric(a.drop_last(), b.drop_last());
    }
}

/// Exchanging ours and theirs exchanges their parts of the window's core and
/// keeps its prefix and suffix.
pub proof fn lemma_window_swap(b: ConflictSides<Seq<Seq<char>>>)
    ensures
        window_spec(swap_bodies(b)) == (WindowView {
            prefix: window_spec(b).prefix,
            core: swap_bodies(window_spec(b).core),
            suffix: window_spec(b).suffix,
        }),
{
    let sb = swap_bodies(b);
    let p = shared_prefix_spec(b.base, b.ours, b.theirs);
    let s = shared_suffix_spec(b.base, b.ours, b.theirs, p);
    lemma_common_prefix_len_symmetric(b.ours, b.theirs);
    assert(shared_prefix_spec(sb.base, sb.ours, sb.theirs) == p);
    lemma_common_suffix_len_symmetric(after_prefix(b.ours, p), after_prefix(b.theirs, p));
    assert(shared_suffix_spec(sb.base, sb.ours, sb.theirs, p) == s);
    lemma_window_sides_agree(b);
    let w = window_spec(b);
    let w2 = window_spec(sb);
    assert(boundary_source_spec(sb.base, sb.ours, sb.theirs, p) == b.theirs);
    assert(boundary_source_spec(sb.base, sb.ours, sb.theirs, s) == b.theirs);
    assert(w2.prefix =~= w.prefix);
    assert forall|i: int| 0 <= i < s implies w2.suffix[i] == w.suffix[i] by {
        let k = s - 1 - i;
        assert(rev_at(b.theirs, k) == rev_at(b.ours, k));
    }
    assert(w2.suffix =~= w.suffix);
    assert(w2.core =~= swap_bodies(w.core));
}

} // verus!
