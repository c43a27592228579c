//! Resolution strategies on the three bodies of a conflict: the trivial
//! three-way pick, lines added around an unchanged base, and resolution
//! modulo a shared indentation.
use vstd::prelude::*;

use crate::resolve::ResolveOptions;
use crate::text::{
    chars_of, copy_lines, copy_string, has_prefix, has_prefix_spec, lines_view, string_from_range,
};
use crate::resolve::window::swap_bodies;
use crate::types::{ConflictBody, ConflictSides};

verus! {

/// The trivial three-way merge: if one side equals the base, the other;
/// otherwise, if the two sides agree, that value; otherwise nothing.
pub open spec fn pick<A>(ours: A, base: A, theirs: A) -> Option<A> {
    if ours == base {
        Some(theirs)
    } else if theirs == base {
        Some(ours)
    } else if ours == theirs {
        Some(ours)
    } else {
        None
    }
}

/// The trivial pick does not depend on which side is called ours.
pub proof fn law_pick_symmetric<A>(ours: A, base: A, theirs: A)
    ensures
        pick(ours, base, theirs) == pick(theirs, base, ours),
{
}

/// The spec view of an optional body.
pub open spec fn opt_body_view(o: Option<ConflictBody>) -> Option<Seq<Seq<char>>> {
    match o {
        Some(b) => Some(b@),
        None => None,
    }
}

/// Whether two bodies hold the same lines.
pub fn bodies_equal(a: &ConflictBody, b: &ConflictBody) -> (r: bool)
    ensures
        r == (a@ == b@),
{
    let x = a.lines();
    let y = b.lines();
    if x.len() != y.len() {
        assert(a@.len() != b@.len());
        return false;
    }
    let mut i: usize = 0;
    while i < x.len()
        invariant
            x@.len() == y@.len(),
            lines_view(x@) == a@,
            lines_view(y@) == b@,
            i <= x@.len(),
            forall|j: int| 0 <= j < i ==> a@[j] == b@[j],
        decreases x@.len() - i,
    {
        if x[i] != y[i] {
            assert(a@[i as int] != b@[i as int]);
            return false;
        }
        i += 1;
    }
    assert(a@ =~= b@);
    true
}

impl ConflictSides<ConflictBody> {
    /// The trivial three-way pick of the bodies.
    pub fn resolve_value(&self) -> (r: Option<ConflictBody>)
        ensures
            opt_body_view(r) == pick(self.ours@, self.base@, self.theirs@),
    {
        if bodies_equal(&self.ours, &self.base) {
            Some(self.theirs.duplicate())
        } else if bodies_equal(&self.theirs, &self.base) {
            Some(self.ours.duplicate())
        } else if bodies_equal(&self.ours, &self.theirs) {
            Some(self.ours.duplicate())
        } else {
            None
        }
    }
}

/// `me` ends with the base and `other` starts with it: `me` followed by
/// what `other` adds after the base.
pub open spec fn added_around_spec(
    me: Seq<Seq<char>>,
    base: Seq<Seq<char>>,
    other: Seq<Seq<char>>,
) -> Option<Seq<Seq<char>>> {
    if me.len() < base.len() || other.len() < base.len() {
        None
    } else if me.skip(me.len() - base.len()) != base || other.take(base.len() as int) != base {
        None
    } else {
        Some(me + other.skip(base.len() as int))
    }
}

/// Resolution with the trivial pick and, when enabled, lines added
/// around an unchanged base by exactly one side.
pub open spec fn resolve_plain_spec(s: ConflictSides<Seq<Seq<char>>>, o: ResolveOptions) -> Option<
    Seq<Seq<char>>,
> {
    if o.trivial && pick(s.ours, s.base, s.theirs) is Some {
        pick(s.ours, s.base, s.theirs)
    } else if o.lines_added_around {
        let a = added_around_spec(s.ours, s.base, s.theirs);
        let b = added_around_spec(s.theirs, s.base, s.ours);
        if a is Some && b is None {
            a
        } else if a is None && b is Some {
            b
        } else {
            None
        }
    } else {
        None
    }
}

/// The longest common prefix of two lines.
pub open spec fn common_prefix_spec(a: Seq<char>, b: Seq<char>) -> Seq<char>
    decreases a.len(),
{
    if a.len() == 0 || b.len() == 0 || a[0] != b[0] {
        Seq::empty()
    } else {
        seq![a[0]] + common_prefix_spec(a.skip(1), b.skip(1))
    }
}

/// The longest prefix common to all lines; empty when there are none.
pub open spec fn common_prefixes_spec(ls: Seq<Seq<char>>) -> Seq<char>
    decreases ls.len(),
{
    if ls.len() == 0 {
        Seq::empty()
    } else if ls.len() == 1 {
        ls[0]
    } else {
        common_prefix_spec(common_prefixes_spec(ls.drop_last()), ls.last())
    }
}

/// The number of leading spaces of a line.
pub open spec fn leading_spaces(s: Seq<char>) -> nat
    decreases s.len(),
{
    if s.len() == 0 || s[0] != ' ' {
        0
    } else {
        1 + leading_spaces(s.skip(1))
    }
}

/// The spaces that begin the longest prefix shared by all lines.
pub open spec fn indentation_prefix_spec(ls: Seq<Seq<char>>) -> Seq<char> {
    let c = common_prefixes_spec(ls);
    c.take(leading_spaces(c) as int)
}

/// A line without the prefix `p`, or the line itself if it does not start with `p`.
pub open spec fn strip_prefix_spec(l: Seq<char>, p: Seq<char>) -> Seq<char> {
    if has_prefix_spec(l, p) {
        l.skip(p.len() as int)
    } else {
        l
    }
}

pub open spec fn strip_body_spec(ls: Seq<Seq<char>>, p: Seq<char>) -> Seq<Seq<char>> {
    ls.map_values(|l: Seq<char>| strip_prefix_spec(l, p))
}

/// Non-empty lines get the prefix `p` in front.
pub open spec fn indent_body_spec(ls: Seq<Seq<char>>, p: Seq<char>) -> Seq<Seq<char>> {
    ls.map_values(|l: Seq<char>| if l.len() == 0 { l } else { p + l })
}

/// Resolution modulo indentation: the indentations of the three sides are
/// picked trivially, the bodies without them are resolved, and the picked
/// indentation is put back in front of every non-empty line.
pub open spec fn resolve_indented_spec(s: ConflictSides<Seq<Seq<char>>>, o: ResolveOptions) -> Option<
    Seq<Seq<char>>,
> {
    let po = indentation_prefix_spec(s.ours);
    let pb = indentation_prefix_spec(s.base);
    let pt = indentation_prefix_spec(s.theirs);
    match pick(po, pb, pt) {
        None => None,
        Some(prefix) => {
            let unprefixed = ConflictSides {
                ours: strip_body_spec(s.ours, po),
                base: strip_body_spec(s.base, pb),
                theirs: strip_body_spec(s.theirs, pt),
            };
            match resolve_plain_spec(unprefixed, o) {
                None => None,
                Some(res) => Some(indent_body_spec(res, prefix)),
            }
        },
    }
}

/// How the bodies of a conflict resolve under the options.
pub open spec fn resolve_bodies_spec(s: ConflictSides<Seq<Seq<char>>>, o: ResolveOptions) -> Option<
    Seq<Seq<char>>,
> {
    if o.indentation {
        resolve_indented_spec(s, o)
    } else {
        resolve_plain_spec(s, o)
    }
}

} // verus!

verus! {

pub proof fn lemma_common_prefix(a: Seq<char>, b: Seq<char>, k: int)
    requires
        0 <= k <= a.len(),
        k <= b.len(),
        forall|i: int| 0 <= i < k ==> a[i] == b[i],
        k == a.len() || k == b.len() || a[k] != b[k],
    ensures
        common_prefix_spec(a, b) == a.take(k),
    decreases k,
{
    if k == 0 {
        assert(a.take(0) =~= Seq::<char>::empty());
    } else {
        lemma_common_prefix(a.skip(1), b.skip(1), k - 1);
        assert(seq![a[0]] + a.skip(1).take(k - 1) =~= a.take(k));
    }
}

/// The longest common prefix of two strings.
pub fn common_string_prefix(left: &str, right: &str) -> (r: String)
    ensures
        r@ == common_prefix_spec(left@, right@),
{
    let a = chars_of(left);
    let b = chars_of(right);
    let mut i: usize = 0;
    while i < a.len() && i < b.len() && a[i] == b[i]
        invariant
            i <= a@.len(),
            i <= b@.len(),
            forall|j: int| 0 <= j < i ==> a@[j] == b@[j],
        decreases a@.len() - i,
    {
        i += 1;
    }
    proof {
        lemma_common_prefix(a@, b@, i as int);
    }
    string_from_range(a.as_slice(), 0, i)
}

pub proof fn lemma_leading_spaces(s: Seq<char>, k: int)
    requires
        0 <= k <= s.len(),
        forall|i: int| 0 <= i < k ==> s[i] == ' ',
        k == s.len() || s[k] != ' ',
    ensures
        leading_spaces(s) == k,
    decreases k,
{
    if k > 0 {
        lemma_leading_spaces(s.skip(1), k - 1);
    }
}

proof fn lemma_common_prefixes_stay_empty(ls: Seq<Seq<char>>, m: int)
    requires
        1 <= m <= ls.len(),
        common_prefixes_spec(ls.take(m)).len() == 0,
    ensures
        common_prefixes_spec(ls.take(ls.len() as int)).len() == 0,
    decreases ls.len() - m,
{
    if m < ls.len() {
        assert(ls.take(m + 1).drop_last() =~= ls.take(m));
        assert(common_prefixes_spec(ls.take(m)) =~= Seq::<char>::empty());
        lemma_common_prefixes_stay_empty(ls, m + 1);
    }
}

impl ConflictBody {
    /// The longest prefix shared by all lines of the body.
    pub fn common_string_prefixes(&self) -> (r: String)
        ensures
            r@ == common_prefixes_spec(self@),
    {
        let lines = self.lines();
        if lines.len() == 0 {
            return String::new();
        }
        let ghost ls = self@;
        let mut prefix = copy_string(&lines[0]);
        proof {
            assert(ls.take(1) =~= seq![ls[0]]);
        }
        let mut i: usize = 1;
        while i < lines.len()
            invariant
                1 <= i <= lines@.len(),
                ls == self@,
                lines_view(lines@) == ls,
                prefix@ == common_prefixes_spec(ls.take(i as int)),
            decreases lines@.len() - i,
        {
            prefix = common_string_prefix(prefix.as_str(), lines[i].as_str());
            proof {
                assert(ls.take(i + 1).drop_last() =~= ls.take(i as int));
            }
            i += 1;
            if prefix.as_str().unicode_len() == 0 {
                proof {
                    lemma_common_prefixes_stay_empty(ls, i as int);
                    assert(ls.take(ls.len() as int) =~= ls);
                }
                return prefix;
            }
        }
        proof {
            assert(ls.take(lines@.len() as int) =~= ls);
        }
        prefix
    }

    /// The spaces that begin the longest prefix shared by all lines.
    pub fn indentation_prefix(&self) -> (r: String)
        ensures
            r@ == indentation_prefix_spec(self@),
    {
        let common = self.common_string_prefixes();
        let cs = chars_of(common.as_str());
        let mut k: usize = 0;
        while k < cs.len() && cs[k] == ' '
            invariant
                k <= cs@.len(),
                forall|i: int| 0 <= i < k ==> cs@[i] == ' ',
            decreases cs@.len() - k,
        {
            k += 1;
        }
        proof {
            lemma_leading_spaces(cs@, k as int);
        }
        string_from_range(cs.as_slice(), 0, k)
    }

    /// Every line without the prefix, where it starts with it.
    pub fn strip_prefix(&self, prefix: &str) -> (r: ConflictBody)
        ensures
            r@ == strip_body_spec(self@, prefix@),
    {
        let lines = self.lines();
        let mut out: Vec<String> = Vec::new();
        let mut i: usize = 0;
        let plen = prefix.unicode_len();
        while i < lines.len()
            invariant
                i <= lines@.len(),
                lines_view(lines@) == self@,
                plen == prefix@.len(),
                lines_view(out@) =~= strip_body_spec(self@.take(i as int), prefix@),
            decreases lines@.len() - i,
        {
            let line = &lines[i];
            let stripped = if has_prefix(line.as_str(), prefix) {
                let cs = chars_of(line.as_str());
                string_from_range(cs.as_slice(), plen, cs.len())
            } else {
                copy_string(line)
            };
            let ghost before = out@;
            out.push(stripped);
            proof {
                assert(lines_view(out@) =~= lines_view(before).push(stripped@));
                assert(self@.take(i + 1) =~= self@.take(i as int).push(self@[i as int]));
                assert(stripped@ == strip_prefix_spec(self@[i as int], prefix@)) by {
                    if has_prefix_spec(self@[i as int], prefix@) {
                        assert(self@[i as int].subrange(prefix@.len() as int, self@[i as int].len() as int)
                            =~= self@[i as int].skip(prefix@.len() as int));
                    }
                }
            }
            i += 1;
        }
        proof {
            assert(self@.take(lines@.len() as int) =~= self@);
        }
        ConflictBody::new(out)
    }

    /// The body's lines followed by the lines `other` adds after the base,
    /// when this body ends with the base and `other` starts with it.
    pub fn added_around(&self, base: &ConflictBody, other: &ConflictBody) -> (r: Option<ConflictBody>)
        ensures
            opt_body_view(r) == added_around_spec(self@, base@, other@),
    {
        let me = self.lines();
        let b = base.lines();
        let ot = other.lines();
        if me.len() < b.len() || ot.len() < b.len() {
            return None;
        }
        let mlen = me.len();
        let off = mlen - b.len();
        let mut i: usize = 0;
        while i < b.len()
            invariant
                i <= b@.len(),
                off + b@.len() == me@.len(),
                mlen == me@.len(),
                b@.len() <= ot@.len(),
                lines_view(me@) == self@,
                lines_view(b@) == base@,
                lines_view(ot@) == other@,
                forall|j: int| 0 <= j < i ==> self@[off + j] == base@[j] && other@[j] == base@[j],
            decreases b@.len() - i,
        {
            assert(off + i < me@.len());
            if me[off + i] != b[i] {
                assert(self@.skip(off as int)[i as int] != base@[i as int]);
                return None;
            }
            if ot[i] != b[i] {
                assert(other@.take(base@.len() as int)[i as int] != base@[i as int]);
                return None;
            }
            i += 1;
        }
        assert(self@.skip(off as int) =~= base@);
        assert(other@.take(base@.len() as int) =~= base@);
        let mut out = copy_lines(me);
        let mut j = b.len();
        while j < ot.len()
            invariant
                b@.len() <= j <= ot@.len(),
                lines_view(ot@) == other@,
                lines_view(me@) == self@,
                base@.len() == b@.len(),
                lines_view(out@) =~= self@ + other@.subrange(base@.len() as int, j as int),
            decreases ot@.len() - j,
        {
            let ghost before = out@;
            let s = copy_string(&ot[j]);
            out.push(s);
            proof {
                assert(lines_view(out@) =~= lines_view(before).push(s@));
                assert(other@.subrange(base@.len() as int, j + 1) =~= other@.subrange(
                    base@.len() as int,
                    j as int,
                ).push(other@[j as int]));
            }
            j += 1;
        }
        assert(other@.subrange(base@.len() as int, ot@.len() as int) =~= other@.skip(base@.len() as int));
        Some(ConflictBody::new(out))
    }
}

impl ConflictSides<String> {
    /// The trivial three-way pick of three strings.
    pub fn resolve_value(&self) -> (r: Option<String>)
        ensures
            match r {
                Some(s) => pick(self.ours@, self.base@, self.theirs@) == Some(s@),
                None => pick(self.ours@, self.base@, self.theirs@) is None,
            },
    {
        if self.ours == self.base {
            Some(copy_string(&self.theirs))
        } else if self.theirs == self.base {
            Some(copy_string(&self.ours))
        } else if self.ours == self.theirs {
            Some(copy_string(&self.ours))
        } else {
            None
        }
    }
}

impl ConflictSides<ConflictBody> {
    /// Resolution with the trivial pick and, when enabled, lines added
    /// around an unchanged base by exactly one side.
    pub fn resolve_without_indentation(&self, options: &ResolveOptions) -> (r: Option<ConflictBody>)
        ensures
            opt_body_view(r) == resolve_plain_spec(self@, *options),
    {
        if options.trivial {
            if let Some(body) = self.resolve_value() {
                return Some(body);
            }
        }
        if options.lines_added_around {
            let a = self.ours.added_around(&self.base, &self.theirs);
            let b = self.theirs.added_around(&self.base, &self.ours);
            match (a, b) {
                (Some(x), None) => return Some(x),
                (None, Some(y)) => return Some(y),
                _ => return None,
            }
        }
        None
    }

    /// Resolution modulo a shared indentation of each side.
    pub fn resolve_with_indentation(&self, options: &ResolveOptions) -> (r: Option<ConflictBody>)
        ensures
            opt_body_view(r) == resolve_indented_spec(self@, *options),
    {
        let prefixes = ConflictSides::new(
            self.ours.indentation_prefix(),
            self.base.indentation_prefix(),
            self.theirs.indentation_prefix(),
        );
        let prefix = match prefixes.resolve_value() {
            Some(p) => p,
            None => return None,
        };
        let unprefixed = ConflictSides::new(
            self.ours.strip_prefix(prefixes.ours.as_str()),
            self.base.strip_prefix(prefixes.base.as_str()),
            self.theirs.strip_prefix(prefixes.theirs.as_str()),
        );
        assert(unprefixed@ == ConflictSides {
            ours: strip_body_spec(self@.ours, prefixes.ours@),
            base: strip_body_spec(self@.base, prefixes.base@),
            theirs: strip_body_spec(self@.theirs, prefixes.theirs@),
        });
        let resolved = match unprefixed.resolve_without_indentation(options) {
            Some(b) => b,
            None => return None,
        };
        let lines = resolved.lines();
        let mut out: Vec<String> = Vec::new();
        let mut i: usize = 0;
        while i < lines.len()
            invariant
                i <= lines@.len(),
                lines_view(lines@) == resolved@,
                lines_view(out@) =~= indent_body_spec(resolved@.take(i as int), prefix@),
            decreases lines@.len() - i,
        {
            let line = &lines[i];
            let s = if line.as_str().unicode_len() == 0 {
                copy_string(line)
            } else {
                crate::text::concat_strings(prefix.as_str(), line.as_str())
            };
            let ghost before = out@;
            out.push(s);
            proof {
                assert(lines_view(out@) =~= lines_view(before).push(s@));
                assert(resolved@.take(i + 1) =~= resolved@.take(i as int).push(resolved@[i as int]));
            }
            i += 1;
        }
        proof {
            assert(resolved@.take(lines@.len() as int) =~= resolved@);
        }
        Some(ConflictBody::new(out))
    }

    /// How the bodies resolve under the options.
    pub fn resolve(&self, options: &ResolveOptions) -> (r: Option<ConflictBody>)
        ensures
            opt_body_view(r) == resolve_bodies_spec(self@, *options),
    {
        if options.indentation {
            self.resolve_with_indentation(options)
        } else {
            self.resolve_without_indentation(options)
        }
    }
}

} // verus!

verus! {

proof fn lemma_common_prefix_is_prefix(a: Seq<char>, b: Seq<char>)
    ensures
        has_prefix_spec(a, common_prefix_spec(a, b)),
        has_prefix_spec(b, common_prefix_spec(a, b)),
    decreases a.len(),
{
    if !(a.len() == 0 || b.len() == 0 || a[0] != b[0]) {
        lemma_common_prefix_is_prefix(a.skip(1), b.skip(1));
        let c = common_prefix_spec(a.skip(1), b.skip(1));
        assert((seq![a[0]] + c) =~= a.take(c.len() + 1int));
        assert((seq![b[0]] + c) =~= b.take(c.len() + 1int));
    } else {
        assert(a.take(0) =~= Seq::<char>::empty());
        assert(b.take(0) =~= Seq::<char>::empty());
    }
}

proof fn lemma_prefix_trans(s: Seq<char>, p: Seq<char>, q: Seq<char>)
    requires
        has_prefix_spec(s, p),
        has_prefix_spec(p, q),
    ensures
        has_prefix_spec(s, q),
{
    assert(s.take(q.len() as int) =~= p.take(q.len() as int));
}

/// The prefix shared by all lines is a prefix of each of them.
proof fn lemma_common_prefixes_is_prefix(ls: Seq<Seq<char>>)
    ensures
        forall|i: int| 0 <= i < ls.len() ==> has_prefix_spec(#[trigger] ls[i], common_prefixes_spec(ls)),
    decreases ls.len(),
{
    if ls.len() == 1 {
        assert(ls[0].take(ls[0].len() as int) =~= ls[0]);
    } else if ls.len() > 1 {
        let init = ls.drop_last();
        lemma_common_prefixes_is_prefix(init);
        let c0 = common_prefixes_spec(init);
        let c = common_prefix_spec(c0, ls.last());
        lemma_common_prefix_is_prefix(c0, ls.last());
        assert forall|i: int| 0 <= i < ls.len() implies has_prefix_spec(#[trigger] ls[i], c) by {
            if i < ls.len() - 1 {
                assert(ls[i] == init[i]);
                assert(has_prefix_spec(init[i], c0));
                lemma_prefix_trans(ls[i], c0, c);
            }
        }
    }
}

/// The indentation of a body is a prefix of each of its lines.
proof fn lemma_indentation_is_prefix(ls: Seq<Seq<char>>)
    ensures
        forall|i: int| 0 <= i < ls.len() ==> has_prefix_spec(#[trigger] ls[i], indentation_prefix_spec(ls)),
{
    lemma_common_prefixes_is_prefix(ls);
    let c = common_prefixes_spec(ls);
    let p = indentation_prefix_spec(ls);
    lemma_leading_spaces_bound(c);
    assert(has_prefix_spec(c, p)) by {
        assert(c.take(p.len() as int) =~= p);
    }
    assert forall|i: int| 0 <= i < ls.len() implies has_prefix_spec(#[trigger] ls[i], p) by {
        lemma_prefix_trans(ls[i], c, p);
    }
}

proof fn lemma_leading_spaces_bound(s: Seq<char>)
    ensures
        leading_spaces(s) <= s.len(),
    decreases s.len(),
{
    if s.len() > 0 && s[0] == ' ' {
        lemma_leading_spaces_bound(s.skip(1));
    }
}

proof fn lemma_leading_spaces_are_spaces(s: Seq<char>)
    ensures
        leading_spaces(s) <= s.len(),
        forall|j: int| 0 <= j < leading_spaces(s) ==> s[j] == ' ',
    decreases s.len(),
{
    if s.len() > 0 && s[0] == ' ' {
        lemma_leading_spaces_are_spaces(s.skip(1));
        assert forall|j: int| 0 <= j < leading_spaces(s) implies s[j] == ' ' by {
            if j > 0 {
                assert(s[j] == s.skip(1)[j - 1]);
            }
        }
    }
}

/// The indentation of a body is made of space characters only, and every
/// line of the body begins with it.
pub proof fn law_indentation_is_spaces(ls: Seq<Seq<char>>)
    ensures
        forall|j: int|
            0 <= j < indentation_prefix_spec(ls).len() ==> #[trigger] indentation_prefix_spec(ls)[j]
                == ' ',
        forall|i: int| 0 <= i < ls.len() ==> has_prefix_spec(#[trigger] ls[i], indentation_prefix_spec(ls)),
{
    let c = common_prefixes_spec(ls);
    lemma_leading_spaces_are_spaces(c);
    lemma_indentation_is_prefix(ls);
}

/// Whether a line holds a character other than a space.
pub open spec fn has_non_space(l: Seq<char>) -> bool {
    exists|j: int| 0 <= j < l.len() && l[j] != ' '
}

/// A body none of whose lines is blank gets its indentation back as it was
/// after it was stripped.
pub proof fn lemma_restorable_without_blank_lines(ls: Seq<Seq<char>>)
    requires
        forall|i: int| 0 <= i < ls.len() ==> has_non_space(#[trigger] ls[i]),
    ensures
        indentation_restorable(ls),
{
    let p = indentation_prefix_spec(ls);
    law_indentation_is_spaces(ls);
    if p.len() > 0 && ls.contains(p) {
        let i = choose|i: int| 0 <= i < ls.len() && ls[i] == p;
        assert(has_non_space(ls[i]));
        let j = choose|j: int| 0 <= j < ls[i].len() && ls[i][j] != ' ';
        assert(p[j] == ' ');
    }
}

/// Whether putting a body's indentation back after stripping it gives the
/// body again: always but when a line is nothing but a non-empty
/// indentation, which comes back empty.
pub open spec fn indentation_restorable(ls: Seq<Seq<char>>) -> bool {
    let p = indentation_prefix_spec(ls);
    p.len() == 0 || !ls.contains(p)
}

proof fn lemma_indent_strip(ls: Seq<Seq<char>>)
    requires
        indentation_restorable(ls),
    ensures
        indent_body_spec(strip_body_spec(ls, indentation_prefix_spec(ls)), indentation_prefix_spec(ls)) == ls,
{
    let p = indentation_prefix_spec(ls);
    lemma_indentation_is_prefix(ls);
    let r = indent_body_spec(strip_body_spec(ls, p), p);
    assert forall|i: int| 0 <= i < ls.len() implies r[i] == ls[i] by {
        let l = ls[i];
        assert(has_prefix_spec(l, p));
        let st = strip_prefix_spec(l, p);
        assert(st == l.skip(p.len() as int));
        if st.len() == 0 {
            if p.len() > 0 {
                assert(l =~= p);
                assert(ls.contains(p));
            }
            assert(l =~= st);
        } else {
            assert(p + st =~= l);
        }
    }
    assert(r =~= ls);
}

/// Trivial resolution with indentation-aware resolution on: the sides
/// without their indentation are picked trivially, so a side matching the
/// base gives the other side back, when that side's indentation can be put
/// back as it was.
pub proof fn lemma_indented_trivial(s: ConflictSides<Seq<Seq<char>>>, o: ResolveOptions)
    requires
        o.trivial,
    ensures
        s.ours == s.base && indentation_restorable(s.theirs) ==> resolve_indented_spec(s, o) == Some(
            s.theirs,
        ),
        s.theirs == s.base && indentation_restorable(s.ours) ==> resolve_indented_spec(s, o) == Some(
            s.ours,
        ),
        s.ours == s.theirs && indentation_restorable(s.ours) ==> resolve_indented_spec(s, o) == Some(
            s.ours,
        ),
{
    if s.ours == s.base && indentation_restorable(s.theirs) {
        lemma_indent_strip(s.theirs);
    }
    if s.theirs == s.base && indentation_restorable(s.ours) {
        lemma_indent_strip(s.ours);
    }
    if s.ours == s.theirs && indentation_restorable(s.ours) {
        lemma_indent_strip(s.ours);
    }
}

} // verus!

verus! {

/// The strategies do not depend on which side is called ours: exchanging
/// ours and theirs gives the same resolution.
pub proof fn lemma_resolve_bodies_swap(s: ConflictSides<Seq<Seq<char>>>, o: ResolveOptions)
    ensures
        resolve_bodies_spec(swap_bodies(s), o) == resolve_bodies_spec(s, o),
{
    let t = swap_bodies(s);
    law_pick_symmetric(s.ours, s.base, s.theirs);
    assert(resolve_plain_spec(t, o) == resolve_plain_spec(s, o));
    let po = indentation_prefix_spec(s.ours);
    let pb = indentation_prefix_spec(s.base);
    let pt = indentation_prefix_spec(s.theirs);
    law_pick_symmetric(po, pb, pt);
    let u = ConflictSides {
        ours: strip_body_spec(s.ours, po),
        base: strip_body_spec(s.base, pb),
        theirs: strip_body_spec(s.theirs, pt),
    };
    law_pick_symmetric(u.ours, u.base, u.theirs);
    assert(resolve_plain_spec(swap_bodies(u), o) == resolve_plain_spec(u, o));
    assert(resolve_indented_spec(t, o) == resolve_indented_spec(s, o));
}

} // verus!
