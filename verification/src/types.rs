//! The data model: conflict bodies, the three sides of a conflict, the
//! marker lines that bound it, and the chunks a file is parsed into.
use vstd::prelude::*;
use vstd::std_specs::iter::IteratorSpec;
use vstd::std_specs::cmp::PartialEqSpec;

use crate::text::{copy_lines, copy_string, lines_to_text, lines_view, text_of};

verus! {

/// A typed wrapper around the lines contained in one side of a conflict.
#[derive(Debug, Clone, PartialEq, Eq, Default)]
pub struct ConflictBody(pub Vec<String>);

impl View for ConflictBody {
    type V = Seq<Seq<char>>;

    open spec fn view(&self) -> Seq<Seq<char>> {
        lines_view(self.0@)
    }
}

impl ConflictBody {
    pub fn new(lines: Vec<String>) -> (r: Self)
        ensures
            r@ == lines_view(lines@),
    {
        ConflictBody(lines)
    }

    /// A body holding no lines.
    pub fn empty() -> (r: Self)
        ensures
            r@ == Seq::<Seq<char>>::empty(),
    {
        ConflictBody(Vec::new())
    }

    pub fn lines(&self) -> (r: &[String])
        ensures
            lines_view(r@) == self@,
    {
        self.0.as_slice()
    }

    pub fn into_lines(self) -> (r: Vec<String>)
        ensures
            lines_view(r@) == self@,
    {
        self.0
    }

    pub fn is_empty(&self) -> (r: bool)
        ensures
            r == (self@.len() == 0),
    {
        self.0.len() == 0
    }

    pub fn len(&self) -> (r: usize)
        ensures
            r == self@.len(),
    {
        self.0.len()
    }

    pub fn push(&mut self, line: String)
        ensures
            final(self)@ == old(self)@.push(line@),
    {
        self.0.push(line);
        assert(final(self)@ =~= old(self)@.push(line@));
    }

    pub fn extend(&mut self, lines: Vec<String>)
        ensures
            final(self)@ == old(self)@ + lines_view(lines@),
    {
        let ghost added = lines@;
        let mut lines = lines;
        self.0.append(&mut lines);
        assert(self@ =~= old(self)@ + lines_view(added));
    }

    /// The lines `a..b` of this body.
    pub fn slice(&self, a: usize, b: usize) -> (r: Self)
        requires
            a <= b <= self@.len(),
        ensures
            r@ == self@.subrange(a as int, b as int),
    {
        let ls = self.0.as_slice();
        let mut out: Vec<String> = Vec::new();
        let mut i = a;
        while i < b
            invariant
                a <= i <= b <= ls@.len(),
                lines_view(ls@) == self@,
                lines_view(out@) =~= self@.subrange(a as int, i as int),
            decreases b - i,
        {
            let ghost before = out@;
            let s = copy_string(&ls[i]);
            out.push(s);
            proof {
                assert(lines_view(out@) =~= lines_view(before).push(s@));
            }
            i += 1;
        }
        ConflictBody(out)
    }

    /// A copy of this body.
    pub fn duplicate(&self) -> (r: Self)
        ensures
            r@ == self@,
    {
        ConflictBody(copy_lines(self.0.as_slice()))
    }

    /// The lines of this body, each followed by a line feed.
    pub fn to_text(&self) -> (r: String)
        ensures
            r@ == text_of(self@),
    {
        lines_to_text(self.0.as_slice())
    }
}

impl From<Vec<String>> for ConflictBody {
    fn from(lines: Vec<String>) -> (r: Self) {
        ConflictBody(lines)
    }
}

impl vstd::std_specs::convert::FromSpecImpl<Vec<String>> for ConflictBody {
    open spec fn obeys_from_spec() -> bool {
        true
    }

    open spec fn from_spec(lines: Vec<String>) -> Self {
        ConflictBody(lines)
    }
}

impl core::ops::Deref for ConflictBody {
    type Target = [String];

    fn deref(&self) -> (r: &[String])
        ensures
            lines_view(r@) == self@,
    {
        self.0.as_slice()
    }
}

impl IntoIterator for ConflictBody {
    type Item = String;
    type IntoIter = std::vec::IntoIter<String>;

    fn into_iter(self) -> (r: std::vec::IntoIter<String>)
        ensures
            lines_view(r.remaining()) == self@,
    {
        proof {
            broadcast use vstd::std_specs::vec::axiom_spec_into_iter;
        }
        self.0.into_iter()
    }
}

impl<'a> IntoIterator for &'a ConflictBody {
    type Item = &'a String;
    type IntoIter = std::slice::Iter<'a, String>;

    fn into_iter(self) -> (r: std::slice::Iter<'a, String>)
        ensures
            lines_view(r.remaining().unref()) == self@,
    {
        proof {
            broadcast use vstd::std_specs::slice::axiom_spec_slice_iter;
        }
        self.0.iter()
    }
}

impl AsRef<[String]> for ConflictBody {
    fn as_ref(&self) -> (r: &[String])
        ensures
            lines_view(r@) == self@,
    {
        self.0.as_slice()
    }
}

/// A three-sided container representing (ours, base, theirs) in a merge conflict.
#[derive(Debug, Clone, PartialEq, Eq)]
pub struct ConflictSides<T> {
    pub ours: T,
    pub base: T,
    pub theirs: T,
}

impl<T: View> View for ConflictSides<T> {
    type V = ConflictSides<T::V>;

    open spec fn view(&self) -> ConflictSides<T::V> {
        ConflictSides { ours: self.ours@, base: self.base@, theirs: self.theirs@ }
    }
}

impl<T> ConflictSides<T> {
    pub fn new(ours: T, base: T, theirs: T) -> (r: Self)
        ensures
            r.ours == ours,
            r.base == base,
            r.theirs == theirs,
    {
        ConflictSides { ours, base, theirs }
    }

    pub fn map<U, F: Fn(T) -> U>(self, f: F) -> (r: ConflictSides<U>)
        requires
            f.requires((self.ours,)),
            f.requires((self.base,)),
            f.requires((self.theirs,)),
        ensures
            f.ensures((self.ours,), r.ours),
            f.ensures((self.base,), r.base),
            f.ensures((self.theirs,), r.theirs),
    {
        let ConflictSides { ours, base, theirs } = self;
        let ours = f(ours);
        let base = f(base);
        let theirs = f(theirs);
        ConflictSides { ours, base, theirs }
    }

    pub fn as_ref(&self) -> (r: ConflictSides<&T>)
        ensures
            *r.ours == self.ours,
            *r.base == self.base,
            *r.theirs == self.theirs,
    {
        ConflictSides { ours: &self.ours, base: &self.base, theirs: &self.theirs }
    }

    pub fn zip_with<U, V, F: Fn(T, U) -> V>(self, other: ConflictSides<U>, f: F) -> (r:
        ConflictSides<V>)
        requires
            f.requires((self.ours, other.ours)),
            f.requires((self.base, other.base)),
            f.requires((self.theirs, other.theirs)),
        ensures
            f.ensures((self.ours, other.ours), r.ours),
            f.ensures((self.base, other.base), r.base),
            f.ensures((self.theirs, other.theirs), r.theirs),
    {
        let ConflictSides { ours, base, theirs } = self;
        let ConflictSides { ours: o2, base: b2, theirs: t2 } = other;
        let ours = f(ours, o2);
        let base = f(base, b2);
        let theirs = f(theirs, t2);
        ConflictSides { ours, base, theirs }
    }
}

impl<T: PartialEq> ConflictSides<T> {
    /// Returns true if all three sides are equal.
    pub fn all_equal(&self) -> (r: bool)
        ensures
            T::obeys_eq_spec() ==> r == (self.ours.eq_spec(&self.base) && self.base.eq_spec(
                &self.theirs,
            )),
    {
        self.ours == self.base && self.base == self.theirs
    }
}

impl ConflictSides<ConflictBody> {
    /// Whether all three bodies hold no lines.
    pub fn all_empty(&self) -> (r: bool)
        ensures
            r == (self.ours@.len() == 0 && self.base@.len() == 0 && self.theirs@.len() == 0),
    {
        self.ours.is_empty() && self.base.is_empty() && self.theirs.is_empty()
    }

    /// A copy of the three bodies.
    pub fn duplicate(&self) -> (r: Self)
        ensures
            r@ == self@,
    {
        ConflictSides {
            ours: self.ours.duplicate(),
            base: self.base.duplicate(),
            theirs: self.theirs.duplicate(),
        }
    }
}

/// A line of source content paired with its original line number.
#[derive(Debug, Clone, PartialEq, Eq)]
pub struct SrcContent {
    pub line_number: usize,
    pub text: String,
}

impl View for SrcContent {
    type V = (usize, Seq<char>);

    open spec fn view(&self) -> (usize, Seq<char>) {
        (self.line_number, self.text@)
    }
}

impl SrcContent {
    pub fn new(line_number: usize, text: String) -> (r: Self)
        ensures
            r.line_number == line_number,
            r.text == text,
    {
        SrcContent { line_number, text }
    }

    /// A copy of this marker line.
    pub fn duplicate(&self) -> (r: Self)
        ensures
            r@ == self@,
    {
        SrcContent { line_number: self.line_number, text: copy_string(&self.text) }
    }
}

/// The views of the four marker lines of a conflict.
pub struct MarkersView {
    pub ours: (usize, Seq<char>),
    pub base: (usize, Seq<char>),
    pub separator: (usize, Seq<char>),
    pub theirs: (usize, Seq<char>),
}

/// The four marker lines that bound a diff3 merge conflict.
#[derive(Debug, Clone, PartialEq, Eq)]
pub struct ConflictMarkers {
    pub ours: SrcContent,
    pub base: SrcContent,
    pub separator: SrcContent,
    pub theirs: SrcContent,
}

impl View for ConflictMarkers {
    type V = MarkersView;

    open spec fn view(&self) -> MarkersView {
        MarkersView {
            ours: self.ours@,
            base: self.base@,
            separator: self.separator@,
            theirs: self.theirs@,
        }
    }
}

impl ConflictMarkers {
    pub fn new(ours: SrcContent, base: SrcContent, separator: SrcContent, theirs: SrcContent) -> (r:
        Self)
        ensures
            r.ours == ours,
            r.base == base,
            r.separator == separator,
            r.theirs == theirs,
    {
        ConflictMarkers { ours, base, separator, theirs }
    }

    /// A copy of the four marker lines.
    pub fn duplicate(&self) -> (r: Self)
        ensures
            r@ == self@,
    {
        ConflictMarkers {
            ours: self.ours.duplicate(),
            base: self.base.duplicate(),
            separator: self.separator.duplicate(),
            theirs: self.theirs.duplicate(),
        }
    }
}

/// The view of a conflict: its markers and the lines of its three bodies.
pub struct ConflictView {
    pub markers: MarkersView,
    pub bodies: ConflictSides<Seq<Seq<char>>>,
}

impl ConflictView {
    /// The lines of the conflict as they appear in a file: the markers
    /// around the three bodies.
    pub open spec fn conflict_lines(self) -> Seq<Seq<char>> {
        seq![self.markers.ours.1] + self.bodies.ours + seq![self.markers.base.1] + self.bodies.base
            + seq![self.markers.separator.1] + self.bodies.theirs + seq![self.markers.theirs.1]
    }

    /// The same markers around other bodies.
    pub open spec fn with_bodies(self, bodies: ConflictSides<Seq<Seq<char>>>) -> ConflictView {
        ConflictView { markers: self.markers, bodies }
    }
}

/// A single merge conflict with markers and three-sided content.
#[derive(Debug, Clone, PartialEq, Eq)]
pub struct Conflict {
    pub markers: ConflictMarkers,
    pub bodies: ConflictSides<ConflictBody>,
}

impl View for Conflict {
    type V = ConflictView;

    open spec fn view(&self) -> ConflictView {
        ConflictView { markers: self.markers@, bodies: self.bodies@ }
    }
}

impl Conflict {
    /// Returns the line number of the first marker (`<<<<<<<`).
    pub fn start_line(&self) -> (r: usize)
        ensures
            r == self.markers.ours.line_number,
    {
        self.markers.ours.line_number
    }

    /// Returns the line number of the last marker (`>>>>>>>`).
    pub fn end_line(&self) -> (r: usize)
        ensures
            r == self.markers.theirs.line_number,
    {
        self.markers.theirs.line_number
    }

    pub fn to_conflict_lines(&self) -> (r: ConflictBody)
        ensures
            r@ == self@.conflict_lines(),
    {
        let mut out = ConflictBody::empty();
        out.push(copy_string(&self.markers.ours.text));
        out.extend(copy_lines(self.bodies.ours.lines()));
        out.push(copy_string(&self.markers.base.text));
        out.extend(copy_lines(self.bodies.base.lines()));
        out.push(copy_string(&self.markers.separator.text));
        out.extend(copy_lines(self.bodies.theirs.lines()));
        out.push(copy_string(&self.markers.theirs.text));
        assert(out@ =~= self@.conflict_lines());
        out
    }

    /// Reconstructs the full conflict text with markers.
    pub fn to_conflict_text(&self) -> (r: String)
        ensures
            r@ == text_of(self@.conflict_lines()),
    {
        self.to_conflict_lines().to_text()
    }

    /// The same markers around other bodies.
    pub fn with_bodies(&self, bodies: ConflictSides<ConflictBody>) -> (r: Conflict)
        ensures
            r@ == self@.with_bodies(bodies@),
    {
        Conflict { markers: self.markers.duplicate(), bodies }
    }

    /// A copy of this conflict.
    pub fn duplicate(&self) -> (r: Conflict)
        ensures
            r@ == self@,
    {
        Conflict { markers: self.markers.duplicate(), bodies: self.bodies.duplicate() }
    }
}

/// The view of a chunk.
pub enum ChunkView {
    Plain(Seq<char>),
    Conflict(ConflictView),
}

/// A parsed chunk of a file: either plain text or a conflict.
#[derive(Debug, Clone, PartialEq, Eq)]
pub enum Chunk {
    /// Non-conflicting text (lines without conflict markers).
    Plain(String),
    /// A merge conflict.
    Conflict(Conflict),
}

impl View for Chunk {
    type V = ChunkView;

    open spec fn view(&self) -> ChunkView {
        match self {
            Chunk::Plain(t) => ChunkView::Plain(t@),
            Chunk::Conflict(c) => ChunkView::Conflict(c@),
        }
    }
}

/// The views of a sequence of chunks.
pub open spec fn chunks_view(s: Seq<Chunk>) -> Seq<ChunkView> {
    s.map_values(|c: Chunk| c@)
}

/// The view of a resolution.
pub enum ResolutionView {
    Resolved(Seq<char>),
    PartiallyReduced(ConflictView),
    Unchanged,
}

/// The result of attempting to resolve a single conflict.
#[derive(Debug, Clone, PartialEq, Eq)]
pub enum Resolution {
    /// Conflict fully resolved to this text.
    Resolved(String),
    /// Conflict partially reduced (some matching prefix/suffix stripped).
    PartiallyReduced(Conflict),
    /// No resolution found; conflict unchanged.
    Unchanged,
}

impl View for Resolution {
    type V = ResolutionView;

    open spec fn view(&self) -> ResolutionView {
        match self {
            Resolution::Resolved(t) => ResolutionView::Resolved(t@),
            Resolution::PartiallyReduced(c) => ResolutionView::PartiallyReduced(c@),
            Resolution::Unchanged => ResolutionView::Unchanged,
        }
    }
}

/// Aggregate result counts for a file.
#[derive(Debug, Clone, Default)]
pub struct FileResult {
    pub resolved: usize,
    pub partially_resolved: usize,
    pub failed: usize,
}

impl FileResult {
    /// The total of the three counts.
    pub open spec fn total(&self) -> int {
        self.resolved + self.partially_resolved + self.failed
    }

    pub fn is_fully_resolved(&self) -> (r: bool)
        ensures
            r == (self.partially_resolved == 0 && self.failed == 0),
    {
        self.partially_resolved == 0 && self.failed == 0
    }

    pub fn total_conflicts(&self) -> (r: usize)
        requires
            self.total() <= usize::MAX,
        ensures
            r == self.total(),
    {
        self.resolved + self.partially_resolved + self.failed
    }
}

/// Status of an unmerged file from `git status`.
#[derive(Debug, Clone, Copy, PartialEq, Eq)]
pub enum UnmergedStatus {
    /// Both modified (UU)
    BothModified,
    /// Deleted by us (DU)
    DeletedByUs,
    /// Deleted by them (UD)
    DeletedByThem,
}

/// An unmerged file as reported by git.
#[derive(Debug, Clone)]
pub struct UnmergedFile {
    pub status: UnmergedStatus,
    pub path: String,
}

} // verus!
