//! Resolving conflicts: preprocessing, strategies, reduction.
use vstd::prelude::*;

pub mod internal;
pub mod normalize;
pub mod split;
pub mod strategies;
pub mod window;

use crate::parse::{
    chunk_text, chunks_text, chunks_to_string, lemma_chunks_text_concat, lemma_chunks_text_single,
    chunks_terminated, lemma_chunks_text_terminated, lemma_parse_terminated,
    law_print_parse_roundtrip, no_crlf, parse_conflicts, parse_spec,
};
use crate::resolve::internal::{
    internal_reduction_spec, is_delete_modify, is_delete_modify_spec,
    lemma_internal_reduction_terminated, reduce_delete_modify_common, reduce_delete_modify_spec,
    reduce_internal_common, reduce_internal_common_spec,
};
use crate::resolve::normalize::{
    PreprocessedConflict, ending_tie, endings_spec, has_tab, law_line_endings_agree,
    lemma_preprocess_swap, line_break_fix_spec, options_fit, preprocess_spec, same_but_crs,
    swap_conflict, target_line_ending_spec, untabified,
};
use crate::resolve::split::split_marked_parts_spec;
use crate::resolve::strategies::{
    has_non_space, indentation_restorable, lemma_indented_trivial, lemma_resolve_bodies_swap,
    lemma_restorable_without_blank_lines, resolve_bodies_spec,
};
use crate::resolve::window::{ConflictWindow, WindowView, lemma_window_swap, swap_bodies, window_spec};
use crate::text::{
    append_str, chars_of, lemma_terminated_concat, lemma_text_of_terminated, line_terminated,
    text_of,
};
use crate::types::{
    Chunk, ChunkView, Conflict, ConflictBody, ConflictView, FileResult, Resolution, ResolutionView,
    chunks_view,
};

verus! {

/// Which strategies the resolver applies.
#[derive(Debug, Clone, PartialEq, Eq)]
pub struct ResolveOptions {
    pub trivial: bool,
    pub reduce: bool,
    pub untabify: Option<usize>,
    pub line_endings: bool,
    pub lines_added_around: bool,
    pub reduce_deleted: bool,
    pub split_markers: bool,
    pub indentation: bool,
}

/// The options used unless others are given.
pub open spec fn default_options() -> ResolveOptions {
    ResolveOptions {
        trivial: true,
        reduce: true,
        untabify: None,
        line_endings: true,
        lines_added_around: false,
        reduce_deleted: false,
        split_markers: true,
        indentation: false,
    }
}

impl Default for ResolveOptions {
    fn default() -> (r: Self)
        ensures
            r == default_options(),
    {
        ResolveOptions {
            trivial: true,
            reduce: true,
            untabify: None,
            line_endings: true,
            lines_added_around: false,
            reduce_deleted: false,
            split_markers: true,
            indentation: false,
        }
    }
}

impl ResolveOptions {
    /// A copy of the options.
    pub fn duplicate(&self) -> (r: Self)
        ensures
            r == *self,
    {
        ResolveOptions {
            trivial: self.trivial,
            reduce: self.reduce,
            untabify: self.untabify,
            line_endings: self.line_endings,
            lines_added_around: self.lines_added_around,
            reduce_deleted: self.reduce_deleted,
            split_markers: self.split_markers,
            indentation: self.indentation,
        }
    }
}

// ---------------------------------------------------------------------
// The outcome of resolving one conflict.
// ---------------------------------------------------------------------
/// The view of a resolver outcome.
pub enum OutcomeView {
    Resolved(Seq<Seq<char>>),
    Reduced(WindowView),
    ReducedConflict(ConflictView),
    Unchanged,
}

/// What the resolver makes of a preprocessed conflict: its bodies resolved;
/// otherwise, when reducing, a delete/modify conflict reduced (when that is
/// enabled), or the window of the conflict, resolved in its core or not.
pub open spec fn outcome_spec(c: ConflictView, o: ResolveOptions) -> OutcomeView {
    match resolve_bodies_spec(c.bodies, o) {
        Some(b) => OutcomeView::Resolved(b),
        None => if !o.reduce {
            OutcomeView::Unchanged
        } else if is_delete_modify_spec(c.bodies) {
            if !o.reduce_deleted {
                OutcomeView::Unchanged
            } else {
                match reduce_delete_modify_spec(c) {
                    Some(rc) => OutcomeView::ReducedConflict(rc),
                    None => OutcomeView::Unchanged,
                }
            }
        } else {
            let w = window_spec(c.bodies);
            if !w.is_reduced() {
                OutcomeView::Unchanged
            } else {
                match resolve_bodies_spec(w.core, o) {
                    Some(b) => OutcomeView::Resolved(w.surround(b)),
                    None => OutcomeView::Reduced(w),
                }
            }
        },
    }
}

pub open spec fn into_resolution_spec(out: OutcomeView, template: ConflictView) -> ResolutionView {
    match out {
        OutcomeView::Resolved(b) => ResolutionView::Resolved(text_of(b)),
        OutcomeView::Reduced(w) => ResolutionView::PartiallyReduced(template.with_bodies(w.core)),
        OutcomeView::ReducedConflict(c) => ResolutionView::PartiallyReduced(c),
        OutcomeView::Unchanged => ResolutionView::Unchanged,
    }
}

pub open spec fn render_text_spec(out: OutcomeView, template: ConflictView) -> Seq<char> {
    match out {
        OutcomeView::Resolved(b) => text_of(b),
        OutcomeView::Reduced(w) => w.reduced_text(template),
        OutcomeView::ReducedConflict(c) => text_of(c.conflict_lines()),
        OutcomeView::Unchanged => text_of(template.conflict_lines()),
    }
}

pub open spec fn counts(resolved: usize, partially_resolved: usize, failed: usize) -> FileResult {
    FileResult { resolved, partially_resolved, failed }
}

pub open spec fn outcome_counts(out: OutcomeView) -> FileResult {
    match out {
        OutcomeView::Resolved(_) => counts(1, 0, 0),
        OutcomeView::Reduced(_) => counts(0, 1, 0),
        OutcomeView::ReducedConflict(_) => counts(0, 1, 0),
        OutcomeView::Unchanged => counts(0, 0, 1),
    }
}

/// How one conflict resolves under the options.
pub open spec fn resolve_with_options_spec(c: ConflictView, o: ResolveOptions) -> ResolutionView {
    let p = preprocess_spec(c, o);
    into_resolution_spec(outcome_spec(p, o), p)
}

/// The outcome of resolving one conflict.
pub enum ResolverOutcome {
    Resolved(ConflictBody),
    Reduced(ConflictWindow),
    ReducedConflict(Conflict),
    Unchanged,
}

impl View for ResolverOutcome {
    type V = OutcomeView;

    open spec fn view(&self) -> OutcomeView {
        match self {
            ResolverOutcome::Resolved(b) => OutcomeView::Resolved(b@),
            ResolverOutcome::Reduced(w) => OutcomeView::Reduced(w@),
            ResolverOutcome::ReducedConflict(c) => OutcomeView::ReducedConflict(c@),
            ResolverOutcome::Unchanged => OutcomeView::Unchanged,
        }
    }
}

impl ResolverOutcome {
    pub fn into_resolution(self, template: &Conflict) -> (r: Resolution)
        ensures
            r@ == into_resolution_spec(self@, template@),
    {
        match self {
            ResolverOutcome::Resolved(body) => Resolution::Resolved(body.to_text()),
            ResolverOutcome::Reduced(window) => Resolution::PartiallyReduced(
                window.reduced_conflict(template),
            ),
            ResolverOutcome::ReducedConflict(conflict) => Resolution::PartiallyReduced(conflict),
            ResolverOutcome::Unchanged => Resolution::Unchanged,
        }
    }

    pub fn render_text(&self, template: &Conflict) -> (r: String)
        ensures
            r@ == render_text_spec(self@, template@),
    {
        match self {
            ResolverOutcome::Resolved(body) => body.to_text(),
            ResolverOutcome::Reduced(window) => window.render_reduced_conflict_text(template),
            ResolverOutcome::ReducedConflict(conflict) => conflict.to_conflict_text(),
            ResolverOutcome::Unchanged => template.to_conflict_text(),
        }
    }

    pub fn file_result(&self) -> (r: FileResult)
        ensures
            r == outcome_counts(self@),
    {
        match self {
            ResolverOutcome::Resolved(_) => FileResult { resolved: 1, partially_resolved: 0, failed: 0 },
            ResolverOutcome::Reduced(_) => FileResult { resolved: 0, partially_resolved: 1, failed: 0 },
            ResolverOutcome::ReducedConflict(_) => FileResult {
                resolved: 0,
                partially_resolved: 1,
                failed: 0,
            },
            ResolverOutcome::Unchanged => FileResult { resolved: 0, partially_resolved: 0, failed: 1 },
        }
    }

    fn is_resolved(&self) -> (r: bool)
        ensures
            r == (self@ is Resolved),
    {
        match self {
            ResolverOutcome::Resolved(_) => true,
            _ => false,
        }
    }
}

impl PreprocessedConflict {
    /// What the resolver makes of the preprocessed conflict.
    pub fn resolve(&self, options: &ResolveOptions) -> (r: ResolverOutcome)
        ensures
            r@ == outcome_spec(self.0@, *options),
    {
        let conflict = self.as_conflict();
        if let Some(body) = conflict.bodies.resolve(options) {
            return ResolverOutcome::Resolved(body);
        }
        if !options.reduce {
            return ResolverOutcome::Unchanged;
        }
        if conflict.is_delete_modify() {
            if !options.reduce_deleted {
                return ResolverOutcome::Unchanged;
            }
            if let Some(reduced) = reduce_delete_modify_common(conflict) {
                return ResolverOutcome::ReducedConflict(reduced);
            }
            return ResolverOutcome::Unchanged;
        }
        let window = ConflictWindow::from_conflict(conflict);
        if !window.is_reduced() {
            return ResolverOutcome::Unchanged;
        }
        if let Some(body) = window.core_sides().resolve(options) {
            return ResolverOutcome::Resolved(window.surround(body));
        }
        ResolverOutcome::Reduced(window)
    }
}

impl Conflict {
    /// Whether the base has lines and exactly one side is empty.
    pub fn is_delete_modify(&self) -> (r: bool)
        ensures
            r == is_delete_modify_spec(self@.bodies),
    {
        is_delete_modify(self)
    }

    fn preprocess(&self, options: &ResolveOptions) -> (r: PreprocessedConflict)
        requires
            options_fit(self@, *options),
        ensures
            r.0@ == preprocess_spec(self@, *options),
    {
        PreprocessedConflict::new(self, options)
    }

    /// Resolves the conflict with the default options.
    pub fn resolve(&self) -> (r: Resolution)
        ensures
            r@ == resolve_with_options_spec(self@, default_options()),
    {
        let options = ResolveOptions::default();
        self.resolve_with_options(&options)
    }

    /// Resolves the conflict with the given options.
    pub fn resolve_with_options(&self, options: &ResolveOptions) -> (r: Resolution)
        requires
            options_fit(self@, *options),
        ensures
            r@ == resolve_with_options_spec(self@, *options),
    {
        let processed = self.preprocess(options);
        processed.resolve(options).into_resolution(processed.as_conflict())
    }
}

/// Resolves a conflict with the default options.
pub fn resolve_conflict(conflict: &Conflict) -> (r: Resolution)
    ensures
        r@ == resolve_with_options_spec(conflict@, default_options()),
{
    conflict.resolve()
}

/// Resolves a conflict with the given options.
pub fn resolve_conflict_with_options(conflict: &Conflict, options: &ResolveOptions) -> (r: Resolution)
    requires
        options_fit(conflict@, *options),
    ensures
        r@ == resolve_with_options_spec(conflict@, *options),
{
    conflict.resolve_with_options(options)
}

} // verus!

verus! {

// ---------------------------------------------------------------------
// Resolving conflicts as text.
// ---------------------------------------------------------------------
/// A chunk of reparsed text after the internal reduction of its conflicts:
/// its text, and whether a reduction changed it.
pub open spec fn reduce_piece(c: ChunkView) -> (Seq<char>, bool) {
    match c {
        ChunkView::Plain(t) => (t, false),
        ChunkView::Conflict(cv) => match reduce_internal_common_spec(cv) {
            Some(r) => (chunks_text(r), true),
            None => (text_of(cv.conflict_lines()), false),
        },
    }
}

pub open spec fn reduce_pieces(cs: Seq<ChunkView>) -> (Seq<char>, bool)
    decreases cs.len(),
{
    if cs.len() == 0 {
        (Seq::empty(), false)
    } else {
        let (t, ch) = reduce_pieces(cs.drop_last());
        let (t2, ch2) = reduce_piece(cs.last());
        (t + t2, ch || ch2)
    }
}

/// The text with the internal reduction applied to each of its conflicts,
/// when the text parses and some conflict changed.
pub open spec fn reduce_internal_common_text_spec(text: Seq<char>) -> Option<Seq<char>> {
    match parse_spec(text) {
        Err(_) => None,
        Ok(cs) => {
            let (out, changed) = reduce_pieces(cs);
            if changed {
                Some(out)
            } else {
                None
            }
        },
    }
}

/// The counts and text of one part of a conflict.
pub open spec fn part_result(part: ConflictView, o: ResolveOptions) -> (FileResult, Seq<char>) {
    let p = preprocess_spec(part, o);
    let out = outcome_spec(p, o);
    let text = render_text_spec(out, p);
    if o.reduce && !(out is Resolved) {
        match reduce_internal_common_text_spec(text) {
            Some(rt) => (counts(0, 1, 0), rt),
            None => (outcome_counts(out), text),
        }
    } else {
        (outcome_counts(out), text)
    }
}

/// The parts a conflict is resolved in.
pub open spec fn conflict_parts_spec(c: ConflictView, o: ResolveOptions) -> Seq<ConflictView> {
    if o.split_markers && split_marked_parts_spec(c) is Some {
        split_marked_parts_spec(c)->Some_0
    } else {
        seq![c]
    }
}

/// The texts of the parts, concatenated.
pub open spec fn parts_text(parts: Seq<ConflictView>, o: ResolveOptions) -> Seq<char>
    decreases parts.len(),
{
    if parts.len() == 0 {
        Seq::empty()
    } else {
        parts_text(parts.drop_last(), o) + part_result(parts.last(), o).1
    }
}

/// Whether every part resolves.
pub open spec fn parts_resolved(parts: Seq<ConflictView>, o: ResolveOptions) -> bool {
    forall|i: int| 0 <= i < parts.len() ==> #[trigger] part_result(parts[i], o).0 == counts(1, 0, 0)
}

/// The counts and text a conflict resolves to: one count per part for a
/// conflict resolved as a whole; for a split conflict, resolved when every
/// part resolves and reduced otherwise.
pub open spec fn conflict_text_spec(c: ConflictView, o: ResolveOptions) -> (FileResult, Seq<char>) {
    let parts = conflict_parts_spec(c, o);
    let stats = if parts.len() > 1 {
        if parts_resolved(parts, o) {
            counts(1, 0, 0)
        } else {
            counts(0, 1, 0)
        }
    } else {
        part_result(parts[0], o).0
    };
    (stats, parts_text(parts, o))
}

/// What processing a conflict asks of the options: tab expansion to width
/// zero only of parts without tabs.
pub open spec fn conflict_fits(c: ConflictView, o: ResolveOptions) -> bool {
    forall|i: int|
        0 <= i < conflict_parts_spec(c, o).len() ==> options_fit(
            #[trigger] conflict_parts_spec(c, o)[i],
            o,
        )
}

fn reduce_internal_common_text(text: &str) -> (r: Option<String>)
    ensures
        match r {
            Some(t) => reduce_internal_common_text_spec(text@) == Some(t@),
            None => reduce_internal_common_text_spec(text@) is None,
        },
{
    let chunks = match parse_conflicts(text) {
        Ok(c) => c,
        Err(_) => return None,
    };
    let ghost cs = chunks_view(chunks@);
    let mut out = String::new();
    let mut changed = false;
    let mut i: usize = 0;
    while i < chunks.len()
        invariant
            i <= chunks@.len(),
            cs == chunks_view(chunks@),
            (out@, changed) == reduce_pieces(cs.take(i as int)),
        decreases chunks@.len() - i,
    {
        match &chunks[i] {
            Chunk::Plain(t) => append_str(&mut out, t.as_str()),
            Chunk::Conflict(conflict) => {
                match reduce_internal_common(conflict) {
                    Some(reduced) => {
                        let t = chunks_to_string(reduced.as_slice());
                        append_str(&mut out, t.as_str());
                        changed = true;
                    },
                    None => {
                        let t = conflict.to_conflict_text();
                        append_str(&mut out, t.as_str());
                    },
                }
            },
        }
        proof {
            assert(cs.take(i + 1).drop_last() =~= cs.take(i as int));
            assert(cs.take(i + 1).last() == chunks@[i as int]@);
        }
        i += 1;
    }
    proof {
        assert(cs.take(chunks@.len() as int) =~= cs);
    }
    if changed {
        Some(out)
    } else {
        None
    }
}

fn one_count(r: &FileResult) -> (b: bool)
    ensures
        b == (*r == counts(1, 0, 0)),
{
    r.resolved == 1 && r.partially_resolved == 0 && r.failed == 0
}

#[verifier::rlimit(40)]
fn resolve_conflict_text(conflict: &Conflict, options: &ResolveOptions) -> (r: (FileResult, String))
    requires
        conflict_fits(conflict@, *options),
    ensures
        r.0 == conflict_text_spec(conflict@, *options).0,
        r.1@ == conflict_text_spec(conflict@, *options).1,
{
    let parts: Vec<Conflict> = if options.split_markers {
        match conflict.split_marked_parts() {
            Some(p) => p,
            None => vec![conflict.duplicate()],
        }
    } else {
        vec![conflict.duplicate()]
    };
    let ghost ps = conflict_parts_spec(conflict@, *options);
    assert(parts@.map_values(|c: Conflict| c@) =~= ps);
    let mut resolved: usize = 0;
    let mut partial: usize = 0;
    let mut failed: usize = 0;
    let mut first = FileResult { resolved: 0, partially_resolved: 0, failed: 0 };
    let mut all_resolved = true;
    let mut combined = String::new();
    let mut i: usize = 0;
    while i < parts.len()
        invariant
            i <= parts@.len(),
            parts@.map_values(|c: Conflict| c@) == ps,
            ps == conflict_parts_spec(conflict@, *options),
            conflict_fits(conflict@, *options),
            resolved + partial + failed == i,
            combined@ == parts_text(ps.take(i as int), *options),
            all_resolved == parts_resolved(ps.take(i as int), *options),
            i >= 1 ==> first == part_result(ps[0], *options).0,
        decreases parts@.len() - i,
    {
        let part = &parts[i];
        proof {
            assert(ps[i as int] == part@);
            assert(options_fit(ps[i as int], *options));
        }
        let processed = part.preprocess(options);
        let outcome = processed.resolve(options);
        let mut part_stats = outcome.file_result();
        let mut text = outcome.render_text(processed.as_conflict());
        if options.reduce && !outcome.is_resolved() {
            if let Some(reduced_text) = reduce_internal_common_text(text.as_str()) {
                part_stats = FileResult { resolved: 0, partially_resolved: 1, failed: 0 };
                text = reduced_text;
            }
        }
        assert(part_stats == part_result(ps[i as int], *options).0);
        assert(text@ == part_result(ps[i as int], *options).1);
        if i == 0 {
            first = FileResult {
                resolved: part_stats.resolved,
                partially_resolved: part_stats.partially_resolved,
                failed: part_stats.failed,
            };
        }
        let unit = one_count(&part_stats);
        all_resolved = all_resolved && unit;
        resolved = resolved + part_stats.resolved;
        partial = partial + part_stats.partially_resolved;
        failed = failed + part_stats.failed;
        append_str(&mut combined, text.as_str());
        proof {
            let t = ps.take(i + 1);
            assert(t.drop_last() =~= ps.take(i as int));
            assert(t.last() == ps[i as int]);
            assert(parts_resolved(t, *options) == (parts_resolved(ps.take(i as int), *options) && part_result(ps[i as int], *options).0 == counts(1, 0, 0))) by {
                if parts_resolved(t, *options) {
                    assert(part_result(t[i as int], *options).0 == counts(1, 0, 0));
                    assert forall|k: int| 0 <= k < i implies #[trigger] part_result(ps.take(i as int)[k], *options).0 == counts(1, 0, 0) by {
                        assert(part_result(t[k], *options).0 == counts(1, 0, 0));
                    }
                }
                if parts_resolved(ps.take(i as int), *options) && part_result(ps[i as int], *options).0 == counts(1, 0, 0) {
                    assert forall|k: int| 0 <= k < i + 1 implies #[trigger] part_result(t[k], *options).0 == counts(1, 0, 0) by {
                        if k < i {
                            assert(part_result(ps.take(i as int)[k], *options).0 == counts(1, 0, 0));
                        }
                    }
                }
            }
        }
        i += 1;
    }
    proof {
        assert(ps.take(parts@.len() as int) =~= ps);
    }
    let stats = if parts.len() > 1 {
        if all_resolved {
            FileResult { resolved: 1, partially_resolved: 0, failed: 0 }
        } else {
            FileResult { resolved: 0, partially_resolved: 1, failed: 0 }
        }
    } else {
        first
    };
    (stats, combined)
}

// ---------------------------------------------------------------------
// Resolving the chunks of a file.
// ---------------------------------------------------------------------
/// The chunks a chunk becomes: a plain chunk stays, a conflict becomes the
/// chunks its resolved text parses into.
pub open spec fn resolve_chunk_spec(c: ChunkView, o: ResolveOptions) -> Seq<ChunkView> {
    match c {
        ChunkView::Plain(t) => seq![ChunkView::Plain(t)],
        ChunkView::Conflict(cv) => parse_spec(conflict_text_spec(cv, o).1)->Ok_0,
    }
}

pub open spec fn resolve_chunks_spec(cs: Seq<ChunkView>, o: ResolveOptions) -> Seq<ChunkView>
    decreases cs.len(),
{
    if cs.len() == 0 {
        Seq::empty()
    } else {
        resolve_chunks_spec(cs.drop_last(), o) + resolve_chunk_spec(cs.last(), o)
    }
}

/// The counts of one chunk: none for plain text.
pub open spec fn chunk_counts(c: ChunkView, o: ResolveOptions) -> FileResult {
    match c {
        ChunkView::Plain(_) => counts(0, 0, 0),
        ChunkView::Conflict(cv) => conflict_text_spec(cv, o).0,
    }
}

/// The counts of the chunks, summed: resolved, reduced, remaining.
pub open spec fn chunks_tally(cs: Seq<ChunkView>, o: ResolveOptions) -> (int, int, int)
    decreases cs.len(),
{
    if cs.len() == 0 {
        (0, 0, 0)
    } else {
        let (a, b, c) = chunks_tally(cs.drop_last(), o);
        let k = chunk_counts(cs.last(), o);
        (a + k.resolved, b + k.partially_resolved, c + k.failed)
    }
}

/// The number of conflicts among the chunks.
pub open spec fn count_conflicts(cs: Seq<ChunkView>) -> int
    decreases cs.len(),
{
    if cs.len() == 0 {
        0
    } else {
        count_conflicts(cs.drop_last()) + if cs.last() is Conflict {
            1int
        } else {
            0int
        }
    }
}

/// What resolving the chunks asks of them: every conflict fits the options
/// and its resolved text parses back.
pub open spec fn chunks_resolvable(cs: Seq<ChunkView>, o: ResolveOptions) -> bool {
    forall|i: int|
        0 <= i < cs.len() && #[trigger] cs[i] is Conflict ==> conflict_fits(cs[i]->Conflict_0, o)
            && parse_spec(conflict_text_spec(cs[i]->Conflict_0, o).1) is Ok
}

pub proof fn lemma_conflict_counts_unit(c: ConflictView, o: ResolveOptions)
    ensures
        ({
            let k = conflict_text_spec(c, o).0;
            k.resolved + k.partially_resolved + k.failed == 1
        }),
{
    let parts = conflict_parts_spec(c, o);
    if parts.len() <= 1 {
        let p = preprocess_spec(parts[0], o);
        let out = outcome_spec(p, o);
    }
}

fn resolve_one_chunk(chunk: &Chunk, options: &ResolveOptions) -> (r: (Vec<Chunk>, FileResult))
    requires
        chunk@ is Conflict ==> conflict_fits(chunk@->Conflict_0, *options) && parse_spec(
            conflict_text_spec(chunk@->Conflict_0, *options).1,
        ) is Ok,
    ensures
        chunks_view(r.0@) == resolve_chunk_spec(chunk@, *options),
        r.1 == chunk_counts(chunk@, *options),
        r.1.total() == if chunk@ is Conflict {
            1int
        } else {
            0int
        },
{
    match chunk {
        Chunk::Plain(text) => {
            let v = vec![Chunk::Plain(crate::text::copy_string(text))];
            assert(chunks_view(v@) =~= seq![ChunkView::Plain(text@)]);
            (v, FileResult { resolved: 0, partially_resolved: 0, failed: 0 })
        },
        Chunk::Conflict(conflict) => {
            proof {
                lemma_conflict_counts_unit(conflict@, *options);
            }
            let (chunk_stats, text) = resolve_conflict_text(conflict, options);
            match parse_conflicts(text.as_str()) {
                Ok(parsed) => (parsed, chunk_stats),
                Err(_) => {
                    proof {
                        assert(false);
                    }
                    (Vec::new(), chunk_stats)
                },
            }
        },
    }
}

/// Resolves every conflict among the chunks with the given options.
pub fn resolve_chunks_with_options(chunks: Vec<Chunk>, options: &ResolveOptions) -> (r: (Vec<Chunk>, FileResult))
    requires
        chunks_resolvable(chunks_view(chunks@), *options),
    ensures
        chunks_view(r.0@) == resolve_chunks_spec(chunks_view(chunks@), *options),
        (r.1.resolved as int, r.1.partially_resolved as int, r.1.failed as int) == chunks_tally(
            chunks_view(chunks@),
            *options,
        ),
        r.1.total() == count_conflicts(chunks_view(chunks@)),
{
    let ghost cs = chunks_view(chunks@);
    let mut result: Vec<Chunk> = Vec::new();
    let mut stats = FileResult { resolved: 0, partially_resolved: 0, failed: 0 };
    let mut i: usize = 0;
    while i < chunks.len()
        invariant
            i <= chunks@.len(),
            cs == chunks_view(chunks@),
            chunks_resolvable(cs, *options),
            chunks_view(result@) == resolve_chunks_spec(cs.take(i as int), *options),
            (stats.resolved as int, stats.partially_resolved as int, stats.failed as int) == chunks_tally(
                cs.take(i as int),
                *options,
            ),
            stats.total() == count_conflicts(cs.take(i as int)),
            count_conflicts(cs.take(i as int)) <= i,
        decreases chunks@.len() - i,
    {
        let ghost before = result@;
        proof {
            assert(cs[i as int] == chunks@[i as int]@);
        }
        let (mut produced, chunk_stats) = resolve_one_chunk(&chunks[i], options);
        stats.resolved = stats.resolved + chunk_stats.resolved;
        stats.partially_resolved = stats.partially_resolved + chunk_stats.partially_resolved;
        stats.failed = stats.failed + chunk_stats.failed;
        let ghost made = produced@;
        result.append(&mut produced);
        proof {
            let t = cs.take(i + 1);
            assert(t.drop_last() =~= cs.take(i as int));
            assert(t.last() == cs[i as int]);
            assert(chunks_view(result@) =~= chunks_view(before) + chunks_view(made));
        }
        i += 1;
    }
    proof {
        assert(cs.take(chunks@.len() as int) =~= cs);
    }
    (result, stats)
}

/// Whether some line of a body holds a tab.
fn body_has_tab(body: &ConflictBody) -> (r: bool)
    ensures
        r == has_tab(body@),
{
    let lines = body.lines();
    let mut i: usize = 0;
    while i < lines.len()
        invariant
            i <= lines@.len(),
            lines@.map_values(|l: String| l@) == body@,
            lines@.len() == body@.len(),
            forall|k: int, j: int|
                0 <= k < i && 0 <= j < body@[k].len() ==> #[trigger] body@[k][j] != '\t',
        decreases lines@.len() - i,
    {
        let cs = chars_of(lines[i].as_str());
        assert(cs@ == body@[i as int]);
        let mut j: usize = 0;
        while j < cs.len()
            invariant
                j <= cs@.len(),
                i < body@.len(),
                cs@ == body@[i as int],
                forall|m: int| 0 <= m < j ==> #[trigger] cs@[m] != '\t',
            decreases cs@.len() - j,
        {
            if cs[j] == '\t' {
                assert(body@[i as int][j as int] == '\t');
                return true;
            }
            j += 1;
        }
        i += 1;
    }
    false
}

/// Whether the options fit every part of a conflict (`conflict_fits`).
fn check_conflict_fits(conflict: &Conflict, options: &ResolveOptions) -> (r: bool)
    ensures
        r == conflict_fits(conflict@, *options),
{
    if options.untabify != Some(0usize) {
        return true;
    }
    let parts: Vec<Conflict> = if options.split_markers {
        match conflict.split_marked_parts() {
            Some(p) => p,
            None => vec![conflict.duplicate()],
        }
    } else {
        vec![conflict.duplicate()]
    };
    let ghost ps = conflict_parts_spec(conflict@, *options);
    assert(parts@.map_values(|c: Conflict| c@) =~= ps);
    let mut i: usize = 0;
    while i < parts.len()
        invariant
            i <= parts@.len(),
            parts@.map_values(|c: Conflict| c@) == ps,
            ps == conflict_parts_spec(conflict@, *options),
            options.untabify == Some(0usize),
            forall|k: int| 0 <= k < i ==> options_fit(#[trigger] ps[k], *options),
        decreases parts@.len() - i,
    {
        let part = &parts[i];
        assert(ps[i as int] == part@);
        if body_has_tab(&part.bodies.ours) || body_has_tab(&part.bodies.base) || body_has_tab(
            &part.bodies.theirs,
        ) {
            assert(!options_fit(ps[i as int], *options));
            return false;
        }
        i += 1;
    }
    true
}

/// Whether every conflict among the chunks can be resolved with the
/// options (`chunks_resolvable`): the options fit it, and the text it
/// resolves to parses again.
pub fn check_chunks_resolvable(chunks: &[Chunk], options: &ResolveOptions) -> (r: bool)
    ensures
        r == chunks_resolvable(chunks_view(chunks@), *options),
{
    let ghost cs = chunks_view(chunks@);
    let mut i: usize = 0;
    while i < chunks.len()
        invariant
            i <= chunks@.len(),
            cs == chunks_view(chunks@),
            forall|k: int|
                0 <= k < i && #[trigger] cs[k] is Conflict ==> conflict_fits(cs[k]->Conflict_0, *options)
                    && parse_spec(conflict_text_spec(cs[k]->Conflict_0, *options).1) is Ok,
        decreases chunks@.len() - i,
    {
        assert(cs[i as int] == chunks@[i as int]@);
        match &chunks[i] {
            Chunk::Plain(_) => {},
            Chunk::Conflict(conflict) => {
                if !check_conflict_fits(conflict, options) {
                    return false;
                }
                let (_, text) = resolve_conflict_text(conflict, options);
                match parse_conflicts(text.as_str()) {
                    Ok(_) => {},
                    Err(_) => {
                        return false;
                    },
                }
            },
        }
        i += 1;
    }
    true
}

/// Resolves every conflict among the chunks with the given options, or
/// gives `None` where `resolve_chunks_with_options` could not run: when a
/// conflict's resolved text would not parse again, or when tabs are to be
/// expanded to width zero.
pub fn try_resolve_chunks_with_options(chunks: Vec<Chunk>, options: &ResolveOptions) -> (r: Option<(Vec<Chunk>, FileResult)>)
    ensures
        r is Some <==> chunks_resolvable(chunks_view(chunks@), *options),
        r matches Some(p) ==> {
            &&& chunks_view(p.0@) == resolve_chunks_spec(chunks_view(chunks@), *options)
            &&& (p.1.resolved as int, p.1.partially_resolved as int, p.1.failed as int) == chunks_tally(
                chunks_view(chunks@),
                *options,
            )
            &&& p.1.total() == count_conflicts(chunks_view(chunks@))
        },
{
    if check_chunks_resolvable(chunks.as_slice(), options) {
        Some(resolve_chunks_with_options(chunks, options))
    } else {
        None
    }
}

/// Resolves every conflict among the chunks with the default options.
pub fn resolve_chunks(chunks: Vec<Chunk>) -> (r: (Vec<Chunk>, FileResult))
    requires
        chunks_resolvable(chunks_view(chunks@), default_options()),
    ensures
        chunks_view(r.0@) == resolve_chunks_spec(chunks_view(chunks@), default_options()),
        (r.1.resolved as int, r.1.partially_resolved as int, r.1.failed as int) == chunks_tally(
            chunks_view(chunks@),
            default_options(),
        ),
        r.1.total() == count_conflicts(chunks_view(chunks@)),
{
    let options = ResolveOptions::default();
    resolve_chunks_with_options(chunks, &options)
}

} // verus!

verus! {

// ---------------------------------------------------------------------
// Laws.
// ---------------------------------------------------------------------
/// Trivial resolution: once tabs and line endings are normalized as the
/// options ask, a conflict where one side matches the base resolves to the
/// other side, and one where both sides agree resolves to them. With
/// indentation-aware resolution, which picks among the sides without their
/// indentation, this holds when the indentation of the side taken can be
/// put back as it was (no line of it is nothing but that indentation).
pub proof fn law_trivial_resolution(c: ConflictView, o: ResolveOptions)
    requires
        o.trivial,
    ensures
        ({
            let p = preprocess_spec(c, o).bodies;
            &&& p.ours == p.base && (!o.indentation || indentation_restorable(p.theirs))
                ==> resolve_with_options_spec(c, o) == ResolutionView::Resolved(text_of(p.theirs))
            &&& p.theirs == p.base && (!o.indentation || indentation_restorable(p.ours))
                ==> resolve_with_options_spec(c, o) == ResolutionView::Resolved(text_of(p.ours))
            &&& p.ours == p.theirs && (!o.indentation || indentation_restorable(p.ours))
                ==> resolve_with_options_spec(c, o) == ResolutionView::Resolved(text_of(p.ours))
        }),
{
    lemma_indented_trivial(preprocess_spec(c, o).bodies, o);
}

/// Indentation-aware resolution keeps the content of the side it takes:
/// once tabs and line endings are normalized, a conflict where one side
/// matches the base resolves to the other side whenever each line of that
/// side holds a character other than a space.
pub proof fn law_indentation_keeps_content(c: ConflictView, o: ResolveOptions)
    requires
        o.trivial,
    ensures
        ({
            let p = preprocess_spec(c, o).bodies;
            &&& p.ours == p.base && (forall|i: int|
                0 <= i < p.theirs.len() ==> has_non_space(#[trigger] p.theirs[i]))
                ==> resolve_with_options_spec(c, o) == ResolutionView::Resolved(text_of(p.theirs))
            &&& p.theirs == p.base && (forall|i: int|
                0 <= i < p.ours.len() ==> has_non_space(#[trigger] p.ours[i]))
                ==> resolve_with_options_spec(c, o) == ResolutionView::Resolved(text_of(p.ours))
        }),
{
    let p = preprocess_spec(c, o).bodies;
    if forall|i: int| 0 <= i < p.theirs.len() ==> has_non_space(#[trigger] p.theirs[i]) {
        lemma_restorable_without_blank_lines(p.theirs);
    }
    if forall|i: int| 0 <= i < p.ours.len() ==> has_non_space(#[trigger] p.ours[i]) {
        lemma_restorable_without_blank_lines(p.ours);
    }
    law_trivial_resolution(c, o);
}

/// Differences in line endings alone cause no conflict: with line-ending
/// normalization on and no tab expansion, when the sides' endings settle on
/// one, a side that differs from the base only in carriage returns ending
/// its lines lets the conflict resolve to the other side, normalized (with
/// indentation-aware resolution, when that side's indentation can be put
/// back as it was).
pub proof fn law_line_endings_cause_no_conflict(c: ConflictView, o: ResolveOptions)
    requires
        o.trivial,
        o.line_endings,
        o.untabify is None,
    ensures
        ({
            let f = line_break_fix_spec(c).bodies;
            target_line_ending_spec(endings_spec(c.bodies)) is Some ==> {
                &&& same_but_crs(c.bodies.ours, c.bodies.base) && (!o.indentation
                    || indentation_restorable(f.theirs)) ==> resolve_with_options_spec(c, o)
                    == ResolutionView::Resolved(text_of(f.theirs))
                &&& same_but_crs(c.bodies.theirs, c.bodies.base) && (!o.indentation
                    || indentation_restorable(f.ours)) ==> resolve_with_options_spec(c, o)
                    == ResolutionView::Resolved(text_of(f.ours))
            }
        }),
{
    law_line_endings_agree(c);
    assert(preprocess_spec(c, o) == line_break_fix_spec(c));
    law_trivial_resolution(c, o);
}

/// A conflict counts as resolved exactly when every part it is resolved in
/// resolves: a conflict split at its split markers is not counted as
/// resolved while one of its parts is left in conflict or only reduced.
pub proof fn law_resolved_only_when_every_part_resolves(c: ConflictView, o: ResolveOptions)
    ensures
        conflict_parts_spec(c, o).len() >= 1,
        conflict_text_spec(c, o).0 == counts(1, 0, 0) <==> (forall|i: int|
            0 <= i < conflict_parts_spec(c, o).len() ==> #[trigger] part_result(
                conflict_parts_spec(c, o)[i],
                o,
            ).0 == counts(1, 0, 0)),
{
    let parts = conflict_parts_spec(c, o);
    if parts.len() == 1 {
        assert(parts_resolved(parts, o) == (part_result(parts[0], o).0 == counts(1, 0, 0)));
    }
}

/// Without reduction a conflict is resolved or left as it is, never
/// partially reduced.
pub proof fn law_no_reduction_when_disabled(c: ConflictView, o: ResolveOptions)
    requires
        !o.reduce,
    ensures
        !(resolve_with_options_spec(c, o) is PartiallyReduced),
{
}

/// Reducing delete/modify conflicts is opt-in: without it, a conflict where
/// one side deleted the base and the other kept something is resolved or
/// left as it is, never partially reduced.
pub proof fn law_delete_modify_reduction_is_opt_in(c: ConflictView, o: ResolveOptions)
    requires
        !o.reduce_deleted,
        is_delete_modify_spec(preprocess_spec(c, o).bodies),
    ensures
        !(resolve_with_options_spec(c, o) is PartiallyReduced),
{
}

/// Every conflict is counted exactly once: as resolved, as reduced, or as
/// remaining.
pub proof fn law_each_conflict_counted_once(c: ConflictView, o: ResolveOptions)
    ensures
        conflict_text_spec(c, o).0.total() == 1,
{
    lemma_conflict_counts_unit(c, o);
}

} // verus!

verus! {

/// The text of a file after resolution: its plain text as it was, and each
/// conflict replaced by the text it resolves to.
pub open spec fn resolved_text_spec(cs: Seq<ChunkView>, o: ResolveOptions) -> Seq<char>
    decreases cs.len(),
{
    if cs.len() == 0 {
        Seq::empty()
    } else {
        resolved_text_spec(cs.drop_last(), o) + match cs.last() {
            ChunkView::Plain(t) => t,
            ChunkView::Conflict(c) => conflict_text_spec(c, o).1,
        }
    }
}

proof fn lemma_reduce_pieces_terminated(cs: Seq<ChunkView>)
    requires
        chunks_terminated(cs),
    ensures
        line_terminated(reduce_pieces(cs).0),
    decreases cs.len(),
{
    if cs.len() > 0 {
        let init = cs.drop_last();
        assert forall|i: int| 0 <= i < init.len() implies line_terminated(#[trigger] chunk_text(init[i])) by {
            assert(init[i] == cs[i]);
        }
        lemma_reduce_pieces_terminated(init);
        assert(line_terminated(chunk_text(cs[cs.len() - 1])));
        match cs.last() {
            ChunkView::Plain(_) => {},
            ChunkView::Conflict(cv) => {
                lemma_text_of_terminated(cv.conflict_lines());
                lemma_internal_reduction_terminated(cv);
                lemma_chunks_text_terminated(internal_reduction_spec(cv));
            },
        }
        lemma_terminated_concat(reduce_pieces(init).0, reduce_piece(cs.last()).0);
    }
}

proof fn lemma_part_terminated(part: ConflictView, o: ResolveOptions)
    ensures
        line_terminated(part_result(part, o).1),
{
    let p = preprocess_spec(part, o);
    let out = outcome_spec(p, o);
    let text = render_text_spec(out, p);
    match out {
        OutcomeView::Resolved(b) => lemma_text_of_terminated(b),
        OutcomeView::Reduced(w) => lemma_text_of_terminated(
            w.surround(p.with_bodies(w.core).conflict_lines()),
        ),
        OutcomeView::ReducedConflict(c) => lemma_text_of_terminated(c.conflict_lines()),
        OutcomeView::Unchanged => lemma_text_of_terminated(p.conflict_lines()),
    }
    if o.reduce && !(out is Resolved) {
        match parse_spec(text) {
            Ok(cs) => {
                lemma_parse_terminated(text);
                lemma_reduce_pieces_terminated(cs);
            },
            Err(_) => {},
        }
    }
}

proof fn lemma_parts_terminated(parts: Seq<ConflictView>, o: ResolveOptions)
    ensures
        line_terminated(parts_text(parts, o)),
    decreases parts.len(),
{
    if parts.len() > 0 {
        lemma_parts_terminated(parts.drop_last(), o);
        lemma_part_terminated(parts.last(), o);
        lemma_terminated_concat(parts_text(parts.drop_last(), o), part_result(parts.last(), o).1);
    }
}

/// The text a conflict resolves to is empty or ends with a line feed.
pub proof fn lemma_conflict_text_terminated(c: ConflictView, o: ResolveOptions)
    ensures
        line_terminated(conflict_text_spec(c, o).1),
{
    lemma_parts_terminated(conflict_parts_spec(c, o), o);
}

/// Whether every conflict among the chunks resolves to a text with no
/// carriage return before a line feed: reading such a text back gives
/// the same text, while reading drops the carriage return at a line's end.
pub open spec fn conflict_texts_plain(cs: Seq<ChunkView>, o: ResolveOptions) -> bool {
    forall|i: int|
        0 <= i < cs.len() && #[trigger] cs[i] is Conflict ==> no_crlf(
            conflict_text_spec(cs[i]->Conflict_0, o).1,
        )
}

/// Resolution rewrites only the conflicts: the text of the resolved chunks
/// is the plain text as it was with each conflict replaced by the text it
/// resolves to, when no resolved text has a carriage return before a line
/// feed (those the reading back drops).
pub proof fn law_resolved_file_text(cs: Seq<ChunkView>, o: ResolveOptions)
    requires
        chunks_resolvable(cs, o),
        conflict_texts_plain(cs, o),
    ensures
        chunks_text(resolve_chunks_spec(cs, o)) == resolved_text_spec(cs, o),
    decreases cs.len(),
{
    if cs.len() > 0 {
        let init = cs.drop_last();
        assert forall|i: int| 0 <= i < init.len() && #[trigger] init[i] is Conflict implies conflict_fits(init[i]->Conflict_0, o)
            && parse_spec(conflict_text_spec(init[i]->Conflict_0, o).1) is Ok by {
            assert(init[i] == cs[i]);
        }
        assert forall|i: int| 0 <= i < init.len() && #[trigger] init[i] is Conflict implies no_crlf(
            conflict_text_spec(init[i]->Conflict_0, o).1,
        ) by {
            assert(init[i] == cs[i]);
        }
        law_resolved_file_text(init, o);
        lemma_chunks_text_concat(resolve_chunks_spec(init, o), resolve_chunk_spec(cs.last(), o));
        match cs.last() {
            ChunkView::Plain(t) => {
                lemma_chunks_text_single(ChunkView::Plain(t));
            },
            ChunkView::Conflict(c) => {
                let k = cs.len() - 1;
                assert(cs[k] is Conflict);
                let t = conflict_text_spec(c, o).1;
                assert(parse_spec(t) is Ok);
                assert(no_crlf(t));
                lemma_conflict_text_terminated(c, o);
                law_print_parse_roundtrip(t);
            },
        }
    }
}

} // verus!

verus! {

proof fn lemma_resolved_text_unchanged(cs: Seq<ChunkView>, o: ResolveOptions)
    requires
        forall|i: int|
            0 <= i < cs.len() && #[trigger] cs[i] is Conflict ==> conflict_text_spec(cs[i]->Conflict_0, o).1
                == chunk_text(cs[i]),
    ensures
        resolved_text_spec(cs, o) == chunks_text(cs),
    decreases cs.len(),
{
    if cs.len() > 0 {
        let init = cs.drop_last();
        assert forall|i: int| 0 <= i < init.len() && #[trigger] init[i] is Conflict implies conflict_text_spec(
            init[i]->Conflict_0,
            o,
        ).1 == chunk_text(init[i]) by {
            assert(init[i] == cs[i]);
        }
        lemma_resolved_text_unchanged(init, o);
        let k = cs.len() - 1;
        if cs[k] is Conflict {
            assert(conflict_text_spec(cs[k]->Conflict_0, o).1 == chunk_text(cs[k]));
        }
    }
}

/// A file whose conflicts all resolve to their own text comes out of
/// resolution as it went in (for texts with no carriage return before a
/// line feed, which reading drops).
pub proof fn law_unresolvable_file_kept(cs: Seq<ChunkView>, o: ResolveOptions)
    requires
        chunks_resolvable(cs, o),
        conflict_texts_plain(cs, o),
        forall|i: int|
            0 <= i < cs.len() && #[trigger] cs[i] is Conflict ==> conflict_text_spec(cs[i]->Conflict_0, o).1
                == chunk_text(cs[i]),
    ensures
        chunks_text(resolve_chunks_spec(cs, o)) == chunks_text(cs),
{
    law_resolved_file_text(cs, o);
    lemma_resolved_text_unchanged(cs, o);
}

} // verus!

verus! {

/// A resolution seen with ours and theirs exchanged: a reduced conflict
/// with its sides exchanged, the rest as it is.
pub open spec fn mirrored(r: ResolutionView) -> ResolutionView {
    match r {
        ResolutionView::Resolved(t) => ResolutionView::Resolved(t),
        ResolutionView::PartiallyReduced(c) => ResolutionView::PartiallyReduced(swap_conflict(c)),
        ResolutionView::Unchanged => ResolutionView::Unchanged,
    }
}

/// The resolver does not depend on which side is called ours: exchanging
/// ours and theirs gives the same resolved text, the reduced conflict with
/// its sides exchanged, or again no change. Left out are the line endings
/// of sides whose endings differ over a base with no known ending (they are
/// brought to ours's), and the reduction of delete/modify conflicts, whose
/// block search breaks ties by the side it starts from.
pub proof fn law_resolution_mirrored(c: ConflictView, o: ResolveOptions)
    requires
        !o.reduce_deleted,
        o.line_endings ==> !ending_tie(untabified(c, o)),
    ensures
        resolve_with_options_spec(swap_conflict(c), o) == mirrored(resolve_with_options_spec(c, o)),
{
    lemma_preprocess_swap(c, o);
    let p = preprocess_spec(c, o);
    let q = swap_conflict(p);
    lemma_resolve_bodies_swap(p.bodies, o);
    let w = window_spec(p.bodies);
    lemma_window_swap(p.bodies);
    lemma_resolve_bodies_swap(w.core, o);
    let w2 = window_spec(q.bodies);
    assert(q.bodies == swap_bodies(p.bodies));
    assert(w2.prefix == w.prefix && w2.suffix == w.suffix && w2.core == swap_bodies(w.core));
    assert(forall|b: Seq<Seq<char>>| w2.surround(b) == w.surround(b));
    assert(q.with_bodies(w2.core) == swap_conflict(p.with_bodies(w.core)));
    assert(is_delete_modify_spec(q.bodies) == is_delete_modify_spec(p.bodies));
}

} // verus!
