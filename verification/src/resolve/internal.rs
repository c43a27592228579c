//! Reduction of a conflict at a block of lines that two of its sides share
//! inside their bodies.
use vstd::prelude::*;

use crate::parse::{chunk_text, chunks_terminated};
use crate::text::{
    chars_of, copy_string, lemma_text_of_concat, lemma_text_of_terminated, line_terminated, lines_view, push_char,
    text_of,
};
use crate::types::{
    Chunk, ChunkView, Conflict, ConflictBody, ConflictSides, ConflictView, chunks_view,
};

verus! {

// ---------------------------------------------------------------------
// Whitespace.
// ---------------------------------------------------------------------
/// Unicode white space, as `char::is_whitespace` defines it.
pub open spec fn is_ws(c: char) -> bool {
    let u = c as u32;
    (0x09 <= u && u <= 0x0D) || u == 0x20 || u == 0x85 || u == 0xA0 || u == 0x1680 || (0x2000 <= u
        && u <= 0x200A) || u == 0x2028 || u == 0x2029 || u == 0x202F || u == 0x205F || u == 0x3000
}

/// Whether a character is white space.
pub fn char_is_ws(c: char) -> (r: bool)
    ensures
        r == is_ws(c),
{
    let u = c as u32;
    (0x09 <= u && u <= 0x0D) || u == 0x20 || u == 0x85 || u == 0xA0 || u == 0x1680 || (0x2000 <= u
        && u <= 0x200A) || u == 0x2028 || u == 0x2029 || u == 0x202F || u == 0x205F || u == 0x3000
}

/// Reading a line left to right: the words so far, separated by single
/// spaces, and whether white space has followed the last word.
pub open spec fn ws_state(s: Seq<char>) -> (Seq<char>, bool)
    decreases s.len(),
{
    if s.len() == 0 {
        (Seq::empty(), false)
    } else {
        let (out, pending) = ws_state(s.drop_last());
        let c = s.last();
        if is_ws(c) {
            (out, out.len() > 0)
        } else if pending {
            (out.push(' ').push(c), false)
        } else {
            (out.push(c), false)
        }
    }
}

/// The words of a line joined by single spaces.
pub open spec fn whitespace_key_spec(s: Seq<char>) -> Seq<char> {
    ws_state(s).0
}

/// The words of a line joined by single spaces.
pub fn whitespace_key(line: &str) -> (r: String)
    ensures
        r@ == whitespace_key_spec(line@),
{
    let cs = chars_of(line);
    let mut out = String::new();
    let mut out_len: usize = 0;
    let mut pending = false;
    let mut i: usize = 0;
    while i < cs.len()
        invariant
            i <= cs@.len(),
            (out@, pending) == ws_state(cs@.take(i as int)),
            out_len == out@.len(),
            out_len + (if pending { 1int } else { 0int }) <= i,
        decreases cs@.len() - i,
    {
        let c = cs[i];
        proof {
            assert(cs@.take(i + 1).drop_last() =~= cs@.take(i as int));
        }
        if char_is_ws(c) {
            pending = out_len > 0;
        } else {
            if pending {
                push_char(&mut out, ' ');
                out_len += 1;
            }
            push_char(&mut out, c);
            out_len += 1;
            pending = false;
        }
        i += 1;
    }
    proof {
        assert(cs@.take(cs@.len() as int) =~= cs@);
    }
    out
}

/// Whether two lines hold the same words.
pub open spec fn whitespace_equivalent_spec(a: Seq<char>, b: Seq<char>) -> bool {
    whitespace_key_spec(a) == whitespace_key_spec(b)
}

/// The whitespace keys of the lines.
pub open spec fn keys_of(ls: Seq<Seq<char>>) -> Seq<Seq<char>> {
    ls.map_values(|l: Seq<char>| whitespace_key_spec(l))
}

// ---------------------------------------------------------------------
// The longest common block.
// ---------------------------------------------------------------------
/// How many lines agree from `l[i]` and `r[j]` on.
pub open spec fn run_len(l: Seq<Seq<char>>, r: Seq<Seq<char>>, i: int, j: int) -> nat
    decreases l.len() - i,
{
    if 0 <= i < l.len() && 0 <= j < r.len() && l[i] == r[j] {
        1 + run_len(l, r, i + 1, j + 1)
    } else {
        0
    }
}

pub proof fn lemma_run_len_bound(l: Seq<Seq<char>>, r: Seq<Seq<char>>, i: int, j: int)
    ensures
        run_len(l, r, i, j) > 0 ==> 0 <= i && i + run_len(l, r, i, j) <= l.len() && 0 <= j && j
            + run_len(l, r, i, j) <= r.len(),
        run_len(l, r, i, j) > 0 ==> l.subrange(i, i + run_len(l, r, i, j)) == r.subrange(
            j,
            j + run_len(l, r, i, j),
        ),
    decreases l.len() - i,
{
    if 0 <= i < l.len() && 0 <= j < r.len() && l[i] == r[j] {
        lemma_run_len_bound(l, r, i + 1, j + 1);
        let n = run_len(l, r, i, j);
        if n > 1 {
            assert(l.subrange(i, i + n) =~= seq![l[i]] + l.subrange(i + 1, i + n));
            assert(r.subrange(j, j + n) =~= seq![r[j]] + r.subrange(j + 1, j + n));
        } else {
            assert(l.subrange(i, i + n) =~= r.subrange(j, j + n));
        }
    }
}

/// `(i, j)` starts a longest run; among the longest, it comes first when
/// scanning `i` downward and then `j` downward.
pub open spec fn is_best_block(l: Seq<Seq<char>>, r: Seq<Seq<char>>, i: int, j: int) -> bool {
    &&& 0 <= i < l.len()
    &&& 0 <= j < r.len()
    &&& run_len(l, r, i, j) > 0
    &&& forall|i2: int, j2: int|
        0 <= i2 < l.len() && 0 <= j2 < r.len() ==> #[trigger] run_len(l, r, i2, j2) <= run_len(
            l,
            r,
            i,
            j,
        )
    &&& forall|i2: int, j2: int|
        0 <= i2 < l.len() && 0 <= j2 < r.len() && #[trigger] run_len(l, r, i2, j2) == run_len(
            l,
            r,
            i,
            j,
        ) ==> i2 < i || (i2 == i && j2 <= j)
}

/// The longest block of consecutive lines that `l` and `r` share: where it
/// starts in each and how long it is; nothing when they share no line.
pub open spec fn longest_block_spec(l: Seq<Seq<char>>, r: Seq<Seq<char>>) -> Option<(int, int, int)> {
    if exists|i: int, j: int| is_best_block(l, r, i, j) {
        let (i, j) = choose|i: int, j: int| is_best_block(l, r, i, j);
        Some((i, j, run_len(l, r, i, j) as int))
    } else {
        None
    }
}

pub proof fn lemma_best_block_unique(l: Seq<Seq<char>>, r: Seq<Seq<char>>, i: int, j: int)
    requires
        is_best_block(l, r, i, j),
    ensures
        longest_block_spec(l, r) == Some((i, j, run_len(l, r, i, j) as int)),
{
    let (i2, j2) = choose|i2: int, j2: int| is_best_block(l, r, i2, j2);
    assert(run_len(l, r, i2, j2) <= run_len(l, r, i, j));
    assert(run_len(l, r, i, j) <= run_len(l, r, i2, j2));
}

pub proof fn lemma_longest_block_bounds(l: Seq<Seq<char>>, r: Seq<Seq<char>>)
    ensures
        longest_block_spec(l, r) matches Some((i, j, n)) ==> 0 <= i && 0 <= j && 0 < n && i + n
            <= l.len() && j + n <= r.len() && l.subrange(i, i + n) == r.subrange(j, j + n),
{
    if let Some((i, j, n)) = longest_block_spec(l, r) {
        lemma_run_len_bound(l, r, i, j);
    }
}

// ---------------------------------------------------------------------
// Blocks and the parts around them.
// ---------------------------------------------------------------------
/// One of the three sides of a conflict.
#[derive(Clone, Copy, Debug, PartialEq, Eq, Structural)]
pub enum Side {
    Ours,
    Base,
    Theirs,
}

/// A block of lines shared by two sides.
#[derive(Clone, Copy, Debug, PartialEq, Eq, Structural)]
pub struct CommonBlock {
    pub left: Side,
    pub left_start: usize,
    pub right: Side,
    pub right_start: usize,
    pub len: usize,
}

pub open spec fn side_body(b: ConflictSides<Seq<Seq<char>>>, s: Side) -> Seq<Seq<char>> {
    match s {
        Side::Ours => b.ours,
        Side::Base => b.base,
        Side::Theirs => b.theirs,
    }
}

pub open spec fn block_start_spec(s: Side, block: CommonBlock) -> Option<int> {
    if s == block.left {
        Some(block.left_start as int)
    } else if s == block.right {
        Some(block.right_start as int)
    } else {
        None
    }
}

/// The lines of a side before (or after) the block; nothing for a side
/// the block is not in.
pub open spec fn split_body_spec(s: Side, body: Seq<Seq<char>>, block: CommonBlock, before: bool) -> Seq<Seq<char>> {
    match block_start_spec(s, block) {
        None => Seq::empty(),
        Some(start) => if before {
            body.take(start)
        } else {
            body.skip(start + block.len)
        },
    }
}

pub open spec fn split_bodies_spec(b: ConflictSides<Seq<Seq<char>>>, block: CommonBlock, before: bool) -> ConflictSides<Seq<Seq<char>>> {
    ConflictSides {
        ours: split_body_spec(Side::Ours, b.ours, block, before),
        base: split_body_spec(Side::Base, b.base, block, before),
        theirs: split_body_spec(Side::Theirs, b.theirs, block, before),
    }
}

/// The block's lines, as the left side holds them.
pub open spec fn common_body_spec(b: ConflictSides<Seq<Seq<char>>>, block: CommonBlock) -> Seq<Seq<char>> {
    side_body(b, block.left).subrange(block.left_start as int, block.left_start + block.len)
}

/// Whether a block lies within the sides it names, and is not empty.
pub open spec fn block_fits(b: ConflictSides<Seq<Seq<char>>>, block: CommonBlock) -> bool {
    &&& block.left != block.right
    &&& block.len > 0
    &&& block.left_start + block.len <= side_body(b, block.left).len()
    &&& block.right_start + block.len <= side_body(b, block.right).len()
}

pub open spec fn total_len(b: ConflictSides<Seq<Seq<char>>>) -> nat {
    b.ours.len() + b.base.len() + b.theirs.len()
}

pub open spec fn all_empty_spec(b: ConflictSides<Seq<Seq<char>>>) -> bool {
    b.ours.len() == 0 && b.base.len() == 0 && b.theirs.len() == 0
}

pub proof fn lemma_split_smaller(b: ConflictSides<Seq<Seq<char>>>, block: CommonBlock, before: bool)
    requires
        block_fits(b, block),
    ensures
        total_len(split_bodies_spec(b, block, before)) < total_len(b),
{
}

/// The two sides that are not empty, in the order ours, base, theirs,
/// when exactly two are not empty.
pub open spec fn non_empty_pair(b: ConflictSides<Seq<Seq<char>>>) -> Option<(Side, Side)> {
    let o = b.ours.len() > 0;
    let ba = b.base.len() > 0;
    let t = b.theirs.len() > 0;
    if o && ba && !t {
        Some((Side::Ours, Side::Base))
    } else if o && !ba && t {
        Some((Side::Ours, Side::Theirs))
    } else if !o && ba && t {
        Some((Side::Base, Side::Theirs))
    } else {
        None
    }
}

/// The longest block shared exactly by the two non-empty sides.
pub open spec fn internal_block_spec(b: ConflictSides<Seq<Seq<char>>>) -> Option<CommonBlock> {
    match non_empty_pair(b) {
        None => None,
        Some((left, right)) => match longest_block_spec(side_body(b, left), side_body(b, right)) {
            None => None,
            Some((i, j, n)) => if i + n <= usize::MAX && j + n <= usize::MAX {
                Some(
                    CommonBlock {
                        left,
                        left_start: i as usize,
                        right,
                        right_start: j as usize,
                        len: n as usize,
                    },
                )
            } else {
                None
            },
        },
    }
}

/// The longest block of lines with the same words shared by the modified
/// side and the base of a delete/modify conflict.
pub open spec fn deleted_block_spec(b: ConflictSides<Seq<Seq<char>>>) -> Option<CommonBlock> {
    let (left, right) = if b.ours.len() == 0 {
        (Side::Base, Side::Theirs)
    } else {
        (Side::Ours, Side::Base)
    };
    match longest_block_spec(keys_of(side_body(b, left)), keys_of(side_body(b, right))) {
        None => None,
        Some((i, j, n)) => if i + n <= usize::MAX && j + n <= usize::MAX {
            Some(
                CommonBlock { left, left_start: i as usize, right, right_start: j as usize, len: n as usize },
            )
        } else {
            None
        },
    }
}

pub proof fn lemma_internal_block_fits(b: ConflictSides<Seq<Seq<char>>>)
    ensures
        internal_block_spec(b) matches Some(block) ==> block_fits(b, block),
{
    if let Some((left, right)) = non_empty_pair(b) {
        lemma_longest_block_bounds(side_body(b, left), side_body(b, right));
    }
}

pub proof fn lemma_deleted_block_fits(b: ConflictSides<Seq<Seq<char>>>)
    ensures
        deleted_block_spec(b) matches Some(block) ==> block_fits(b, block),
{
    let (left, right) = if b.ours.len() == 0 {
        (Side::Base, Side::Theirs)
    } else {
        (Side::Ours, Side::Base)
    };
    lemma_longest_block_bounds(keys_of(side_body(b, left)), keys_of(side_body(b, right)));
    assert(keys_of(side_body(b, left)).len() == side_body(b, left).len());
    assert(keys_of(side_body(b, right)).len() == side_body(b, right).len());
}

/// Plain text appended to chunks: merged into a plain chunk at the end,
/// a new plain chunk otherwise, nothing when the text is empty.
pub open spec fn push_plain_spec(cs: Seq<ChunkView>, t: Seq<char>) -> Seq<ChunkView> {
    if t.len() == 0 {
        cs
    } else if cs.len() > 0 && cs.last() is Plain {
        cs.update(cs.len() - 1, ChunkView::Plain(cs.last()->Plain_0 + t))
    } else {
        cs.push(ChunkView::Plain(t))
    }
}

/// A conflict cut at the longest block its two non-empty sides share: the
/// part before (reduced the same way), the block as plain text, the part
/// after (reduced the same way).
pub open spec fn internal_reduction_spec(c: ConflictView) -> Seq<ChunkView>
    decreases total_len(c.bodies),
{
    match internal_block_spec(c.bodies) {
        None => seq![ChunkView::Conflict(c)],
        Some(block) => {
            let before = split_bodies_spec(c.bodies, block, true);
            let after = split_bodies_spec(c.bodies, block, false);
            proof {
                lemma_internal_block_fits(c.bodies);
                lemma_split_smaller(c.bodies, block, true);
                lemma_split_smaller(c.bodies, block, false);
            }
            let a = if !all_empty_spec(before) {
                internal_reduction_spec(c.with_bodies(before))
            } else {
                Seq::empty()
            };
            let m = push_plain_spec(a, text_of(common_body_spec(c.bodies, block)));
            let z = if !all_empty_spec(after) {
                internal_reduction_spec(c.with_bodies(after))
            } else {
                Seq::empty()
            };
            m + z
        },
    }
}

/// A delete/modify conflict cut at the longest block of lines with the
/// same words that the modified side and the base share; the block is
/// dropped, the parts before and after are reduced the same way.
pub open spec fn delete_reduction_spec(c: ConflictView) -> Seq<ConflictView>
    decreases total_len(c.bodies),
{
    match deleted_block_spec(c.bodies) {
        None => seq![c],
        Some(block) => {
            let before = split_bodies_spec(c.bodies, block, true);
            let after = split_bodies_spec(c.bodies, block, false);
            proof {
                lemma_deleted_block_fits(c.bodies);
                lemma_split_smaller(c.bodies, block, true);
                lemma_split_smaller(c.bodies, block, false);
            }
            let a = if !all_empty_spec(before) {
                delete_reduction_spec(c.with_bodies(before))
            } else {
                Seq::empty()
            };
            let z = if !all_empty_spec(after) {
                delete_reduction_spec(c.with_bodies(after))
            } else {
                Seq::empty()
            };
            a + z
        },
    }
}

/// The bodies of several conflicts, side by side, concatenated.
pub open spec fn merged_bodies(cs: Seq<ConflictView>) -> ConflictSides<Seq<Seq<char>>>
    decreases cs.len(),
{
    if cs.len() == 0 {
        ConflictSides { ours: Seq::empty(), base: Seq::empty(), theirs: Seq::empty() }
    } else {
        let m = merged_bodies(cs.drop_last());
        ConflictSides {
            ours: m.ours + cs.last().bodies.ours,
            base: m.base + cs.last().bodies.base,
            theirs: m.theirs + cs.last().bodies.theirs,
        }
    }
}

/// Whether the base has lines and exactly one side is empty.
pub open spec fn is_delete_modify_spec(b: ConflictSides<Seq<Seq<char>>>) -> bool {
    b.base.len() > 0 && ((b.ours.len() == 0) != (b.theirs.len() == 0))
}

/// The internal reduction of a conflict that is not a delete/modify one,
/// when it changes anything.
pub open spec fn reduce_internal_common_spec(c: ConflictView) -> Option<Seq<ChunkView>> {
    if is_delete_modify_spec(c.bodies) {
        None
    } else {
        let r = internal_reduction_spec(c);
        if r == seq![ChunkView::Conflict(c)] {
            None
        } else {
            Some(r)
        }
    }
}

/// The delete/modify reduction of a conflict, as one conflict, when it
/// changes anything.
pub open spec fn reduce_delete_modify_spec(c: ConflictView) -> Option<ConflictView> {
    if !is_delete_modify_spec(c.bodies) {
        None
    } else {
        let r = delete_reduction_spec(c);
        if r == seq![c] {
            None
        } else {
            Some(c.with_bodies(merged_bodies(r)))
        }
    }
}

} // verus!

verus! {

/// Every position of the grid visited so far: rows above `row`, and
/// columns from `col` on in row `row`.
pub open spec fn visited(i2: int, j2: int, row: int, col: int, n: int, m: int) -> bool {
    0 <= j2 < m && 0 <= i2 < n && ((row < i2) || (i2 == row && col <= j2))
}

/// The best block among the visited positions, as a scan downward finds it.
pub open spec fn best_so_far(
    l: Seq<Seq<char>>,
    r: Seq<Seq<char>>,
    bi: int,
    bj: int,
    bl: int,
    row: int,
    col: int,
) -> bool {
    let n = l.len() as int;
    let m = r.len() as int;
    &&& bl == 0 ==> forall|i2: int, j2: int|
        visited(i2, j2, row, col, n, m) ==> #[trigger] run_len(l, r, i2, j2) == 0
    &&& bl > 0 ==> {
        &&& visited(bi, bj, row, col, n, m)
        &&& run_len(l, r, bi, bj) == bl
        &&& forall|i2: int, j2: int|
            visited(i2, j2, row, col, n, m) ==> #[trigger] run_len(l, r, i2, j2) <= bl
        &&& forall|i2: int, j2: int|
            visited(i2, j2, row, col, n, m) && #[trigger] run_len(l, r, i2, j2) == bl ==> i2 < bi
                || (i2 == bi && j2 <= bj)
    }
}

fn zeros(m: usize) -> (r: Vec<usize>)
    ensures
        r@.len() == m,
        forall|j: int| 0 <= j < m ==> r@[j] == 0,
{
    let mut v: Vec<usize> = Vec::new();
    let mut k: usize = 0;
    while k < m
        invariant
            k <= m,
            v@.len() == k,
            forall|j: int| 0 <= j < k ==> v@[j] == 0,
        decreases m - k,
    {
        v.push(0);
        k += 1;
    }
    v
}

/// The longest block of consecutive lines that `left` and `right` share.
pub fn longest_common_contiguous_block(left: &[String], right: &[String]) -> (r: Option<
    (usize, usize, usize),
>)
    ensures
        match r {
            Some((i, j, n)) => longest_block_spec(lines_view(left@), lines_view(right@)) == Some(
                (i as int, j as int, n as int),
            ),
            None => longest_block_spec(lines_view(left@), lines_view(right@)) is None,
        },
{
    let ghost l = lines_view(left@);
    let ghost rr = lines_view(right@);
    let n = left.len();
    let m = right.len();
    // next[j] holds the run length from (i + 1, j).
    let mut next = zeros(m);
    let mut bi: usize = 0;
    let mut bj: usize = 0;
    let mut bl: usize = 0;
    let mut ii = n;
    while ii > 0
        invariant
            ii <= n,
            n == left@.len(),
            m == right@.len(),
            l == lines_view(left@),
            rr == lines_view(right@),
            next@.len() == m,
            forall|j: int| 0 <= j < m ==> next@[j] == run_len(l, rr, ii as int, j),
            best_so_far(l, rr, bi as int, bj as int, bl as int, ii as int, 0),
        decreases ii,
    {
        let i = ii - 1;
        let mut cur = zeros(m);
        proof {
            assert forall|i2: int, j2: int|
                visited(i2, j2, i as int, m as int, n as int, m as int) == visited(i2, j2, ii as int, 0, n as int, m as int) by {}
        }
        let mut jj = m;
        while jj > 0
            invariant
                jj <= m,
                i < ii <= n,
                i == ii - 1,
                n == left@.len(),
                m == right@.len(),
                l == lines_view(left@),
                rr == lines_view(right@),
                next@.len() == m,
                cur@.len() == m,
                forall|j: int| 0 <= j < m ==> next@[j] == run_len(l, rr, ii as int, j),
                forall|j: int| jj <= j < m ==> cur@[j] == run_len(l, rr, i as int, j),
                forall|j: int| 0 <= j < jj ==> cur@[j] == 0,
                best_so_far(l, rr, bi as int, bj as int, bl as int, i as int, jj as int),
            decreases jj,
        {
            let j = jj - 1;
            proof {
                lemma_run_len_bound(l, rr, i as int, j as int);
                lemma_run_len_bound(l, rr, ii as int, jj as int);
                assert(l[i as int] == left@[i as int]@);
                assert(rr[j as int] == right@[j as int]@);
                assert(run_len(l, rr, i as int, j as int) == if l[i as int] == rr[j as int] {
                    1 + run_len(l, rr, ii as int, jj as int)
                } else {
                    0
                });
                if jj == m {
                    assert(run_len(l, rr, ii as int, jj as int) == 0);
                }
            }
            if left[i] == right[j] {
                let after = if jj < m {
                    next[jj]
                } else {
                    0
                };
                let len = after + 1;
                cur.set(j, len);
                if len > bl {
                    bi = i;
                    bj = j;
                    bl = len;
                }
            }
            proof {
                assert(cur@[j as int] == run_len(l, rr, i as int, j as int));
                let row = i as int;
                assert forall|i2: int, j2: int| visited(i2, j2, row, j as int, n as int, m as int)
                    implies (visited(i2, j2, row, jj as int, n as int, m as int) || (i2 == row && j2 == j)) by {}
            }
            jj = j;
        }
        next = cur;
        ii = i;
    }
    if bl > 0 {
        proof {
            assert forall|i2: int, j2: int| 0 <= i2 < l.len() && 0 <= j2 < rr.len() implies visited(i2, j2, 0, 0, n as int, m as int) by {}
            assert(is_best_block(l, rr, bi as int, bj as int));
            lemma_best_block_unique(l, rr, bi as int, bj as int);
        }
        Some((bi, bj, bl))
    } else {
        proof {
            if exists|i2: int, j2: int| is_best_block(l, rr, i2, j2) {
                let (i2, j2) = choose|i2: int, j2: int| is_best_block(l, rr, i2, j2);
                assert(visited(i2, j2, 0, 0, n as int, m as int));
                assert(run_len(l, rr, i2, j2) == 0);
            }
        }
        None
    }
}

} // verus!

verus! {

fn keys_of_body(body: &ConflictBody) -> (r: Vec<String>)
    ensures
        lines_view(r@) == keys_of(body@),
{
    let ls = body.lines();
    let mut out: Vec<String> = Vec::new();
    let mut i: usize = 0;
    while i < ls.len()
        invariant
            i <= ls@.len(),
            lines_view(ls@) == body@,
            lines_view(out@) =~= keys_of(body@.take(i as int)),
        decreases ls@.len() - i,
    {
        let k = whitespace_key(ls[i].as_str());
        let ghost before = out@;
        out.push(k);
        proof {
            assert(lines_view(out@) =~= lines_view(before).push(k@));
            assert(body@.take(i + 1) =~= body@.take(i as int).push(body@[i as int]));
        }
        i += 1;
    }
    proof {
        assert(body@.take(ls@.len() as int) =~= body@);
    }
    out
}

/// Whether two lines hold the same words.
pub fn whitespace_equivalent(left: &str, right: &str) -> (r: bool)
    ensures
        r == whitespace_equivalent_spec(left@, right@),
{
    whitespace_key(left) == whitespace_key(right)
}

fn body_for_side(conflict: &Conflict, side: Side) -> (r: &ConflictBody)
    ensures
        r@ == side_body(conflict@.bodies, side),
{
    match side {
        Side::Ours => &conflict.bodies.ours,
        Side::Base => &conflict.bodies.base,
        Side::Theirs => &conflict.bodies.theirs,
    }
}

fn block_start_for_side(side: Side, block: CommonBlock) -> (r: Option<usize>)
    ensures
        match r {
            Some(s) => block_start_spec(side, block) == Some(s as int),
            None => block_start_spec(side, block) is None,
        },
{
    if side == block.left {
        Some(block.left_start)
    } else if side == block.right {
        Some(block.right_start)
    } else {
        None
    }
}

/// Which part of a body around a block.
#[derive(Clone, Copy, Debug, PartialEq, Eq, Structural)]
pub enum Segment {
    Before,
    After,
}

fn split_body(side: Side, body: &ConflictBody, block: CommonBlock, segment: Segment) -> (r: ConflictBody)
    requires
        block_start_spec(side, block) matches Some(s) ==> s + block.len <= body@.len(),
    ensures
        r@ == split_body_spec(side, body@, block, segment == Segment::Before),
{
    let n = body.len();
    let start = match block_start_for_side(side, block) {
        Some(s) => s,
        None => return ConflictBody::empty(),
    };
    match segment {
        Segment::Before => {
            let r = body.slice(0, start);
            assert(body@.subrange(0, start as int) =~= body@.take(start as int));
            r
        },
        Segment::After => {
            let r = body.slice(start + block.len, body.len());
            assert(body@.subrange((start + block.len) as int, body@.len() as int) =~= body@.skip(
                start + block.len,
            ));
            r
        },
    }
}

fn split_bodies(conflict: &Conflict, block: CommonBlock, segment: Segment) -> (r: ConflictSides<ConflictBody>)
    requires
        block_fits(conflict@.bodies, block),
    ensures
        r@ == split_bodies_spec(conflict@.bodies, block, segment == Segment::Before),
{
    ConflictSides::new(
        split_body(Side::Ours, &conflict.bodies.ours, block, segment),
        split_body(Side::Base, &conflict.bodies.base, block, segment),
        split_body(Side::Theirs, &conflict.bodies.theirs, block, segment),
    )
}

fn common_body(conflict: &Conflict, block: CommonBlock) -> (r: ConflictBody)
    requires
        block_fits(conflict@.bodies, block),
    ensures
        r@ == common_body_spec(conflict@.bodies, block),
{
    let body = body_for_side(conflict, block.left);
    let n = body.len();
    body.slice(block.left_start, block.left_start + block.len)
}

fn push_plain_chunk(chunks: &mut Vec<Chunk>, text: String)
    ensures
        chunks_view(final(chunks)@) == push_plain_spec(chunks_view(old(chunks)@), text@),
{
    if text.as_str().unicode_len() == 0 {
        return;
    }
    let n = chunks.len();
    if n > 0 {
        if let Chunk::Plain(previous) = &chunks[n - 1] {
            let mut merged = copy_string(previous);
            crate::text::append_str(&mut merged, text.as_str());
            let ghost before = chunks@;
            chunks.set(n - 1, Chunk::Plain(merged));
            proof {
                assert(chunks_view(chunks@) =~= chunks_view(before).update(n - 1, ChunkView::Plain(merged@)));
            }
            return;
        }
    }
    let ghost before = chunks@;
    chunks.push(Chunk::Plain(text));
    proof {
        assert(chunks_view(chunks@) =~= chunks_view(before).push(ChunkView::Plain(text@)));
    }
}

fn find_internal_common_block(conflict: &Conflict) -> (r: Option<CommonBlock>)
    ensures
        r == internal_block_spec(conflict@.bodies),
{
    let o = !conflict.bodies.ours.is_empty();
    let b = !conflict.bodies.base.is_empty();
    let t = !conflict.bodies.theirs.is_empty();
    let (left, right) = if o && b && !t {
        (Side::Ours, Side::Base)
    } else if o && !b && t {
        (Side::Ours, Side::Theirs)
    } else if !o && b && t {
        (Side::Base, Side::Theirs)
    } else {
        return None;
    };
    let lb = body_for_side(conflict, left);
    let rb = body_for_side(conflict, right);
    let ln = lb.len();
    let rn = rb.len();
    match longest_common_contiguous_block(lb.lines(), rb.lines()) {
        None => None,
        Some((left_start, right_start, len)) => {
            proof {
                lemma_longest_block_bounds(lb@, rb@);
            }
            Some(CommonBlock { left, left_start, right, right_start, len })
        },
    }
}

/// The longest block of lines with the same words shared by two sides.
fn find_common_block_between(left: Side, left_body: &ConflictBody, right: Side, right_body: &ConflictBody) -> (r: Option<CommonBlock>)
    ensures
        match r {
            Some(block) => longest_block_spec(keys_of(left_body@), keys_of(right_body@)) == Some(
                (block.left_start as int, block.right_start as int, block.len as int),
            ) && block.left == left && block.right == right,
            None => longest_block_spec(keys_of(left_body@), keys_of(right_body@)) is None,
        },
{
    let lk = keys_of_body(left_body);
    let rk = keys_of_body(right_body);
    match longest_common_contiguous_block(lk.as_slice(), rk.as_slice()) {
        None => None,
        Some((left_start, right_start, len)) => Some(CommonBlock { left, left_start, right, right_start, len }),
    }
}

fn find_deleted_common_block(conflict: &Conflict) -> (r: Option<CommonBlock>)
    ensures
        r == deleted_block_spec(conflict@.bodies),
{
    let n1 = conflict.bodies.ours.len();
    let n2 = conflict.bodies.base.len();
    let n3 = conflict.bodies.theirs.len();
    let r = if conflict.bodies.ours.is_empty() {
        find_common_block_between(Side::Base, &conflict.bodies.base, Side::Theirs, &conflict.bodies.theirs)
    } else {
        find_common_block_between(Side::Ours, &conflict.bodies.ours, Side::Base, &conflict.bodies.base)
    };
    proof {
        let b = conflict@.bodies;
        let (left, right) = if b.ours.len() == 0 {
            (Side::Base, Side::Theirs)
        } else {
            (Side::Ours, Side::Base)
        };
        lemma_longest_block_bounds(keys_of(side_body(b, left)), keys_of(side_body(b, right)));
        assert(keys_of(side_body(b, left)).len() == side_body(b, left).len());
        assert(keys_of(side_body(b, right)).len() == side_body(b, right).len());
    }
    r
}

fn internal_common_reduction(conflict: &Conflict) -> (r: Vec<Chunk>)
    ensures
        chunks_view(r@) == internal_reduction_spec(conflict@),
    decreases total_len(conflict@.bodies),
{
    let block = match find_internal_common_block(conflict) {
        Some(b) => b,
        None => {
            let r = vec![Chunk::Conflict(conflict.duplicate())];
            assert(chunks_view(r@) =~= seq![ChunkView::Conflict(conflict@)]);
            return r;
        },
    };
    proof {
        lemma_internal_block_fits(conflict@.bodies);
        lemma_split_smaller(conflict@.bodies, block, true);
        lemma_split_smaller(conflict@.bodies, block, false);
    }
    let before = split_bodies(conflict, block, Segment::Before);
    let common = common_body(conflict, block);
    let after = split_bodies(conflict, block, Segment::After);
    let mut chunks: Vec<Chunk> = Vec::new();
    if !before.all_empty() {
        chunks = internal_common_reduction(&conflict.with_bodies(before));
    }
    assert(chunks_view(chunks@) == (if !all_empty_spec(before@) {
        internal_reduction_spec(conflict@.with_bodies(before@))
    } else {
        Seq::<ChunkView>::empty()
    }));
    push_plain_chunk(&mut chunks, common.to_text());
    let ghost mid = chunks@;
    if !after.all_empty() {
        let mut rest = internal_common_reduction(&conflict.with_bodies(after));
        chunks.append(&mut rest);
        proof {
            assert(chunks_view(chunks@) =~= chunks_view(mid) + internal_reduction_spec(conflict@.with_bodies(after@)));
        }
    } else {
        proof {
            assert(chunks_view(chunks@) =~= chunks_view(mid) + Seq::<ChunkView>::empty());
        }
    }
    chunks
}

/// The views of a sequence of conflicts.
pub open spec fn conflicts_view(s: Seq<Conflict>) -> Seq<ConflictView> {
    s.map_values(|c: Conflict| c@)
}

fn delete_modify_common_reduction(conflict: &Conflict) -> (r: Vec<Conflict>)
    ensures
        conflicts_view(r@) == delete_reduction_spec(conflict@),
    decreases total_len(conflict@.bodies),
{
    let block = match find_deleted_common_block(conflict) {
        Some(b) => b,
        None => {
            let r = vec![conflict.duplicate()];
            assert(conflicts_view(r@) =~= seq![conflict@]);
            return r;
        },
    };
    proof {
        lemma_deleted_block_fits(conflict@.bodies);
        lemma_split_smaller(conflict@.bodies, block, true);
        lemma_split_smaller(conflict@.bodies, block, false);
    }
    let before = split_bodies(conflict, block, Segment::Before);
    let after = split_bodies(conflict, block, Segment::After);
    let mut parts: Vec<Conflict> = Vec::new();
    if !before.all_empty() {
        parts = delete_modify_common_reduction(&conflict.with_bodies(before));
    }
    let ghost mid = parts@;
    assert(conflicts_view(mid) =~= (if !all_empty_spec(before@) {
        delete_reduction_spec(conflict@.with_bodies(before@))
    } else {
        Seq::<ConflictView>::empty()
    }));
    if !after.all_empty() {
        let mut rest = delete_modify_common_reduction(&conflict.with_bodies(after));
        parts.append(&mut rest);
        proof {
            assert(conflicts_view(parts@) =~= conflicts_view(mid) + delete_reduction_spec(conflict@.with_bodies(after@)));
        }
    } else {
        proof {
            assert(conflicts_view(parts@) =~= conflicts_view(mid) + Seq::<ConflictView>::empty());
        }
    }
    parts
}

fn strings_equal(a: &String, b: &String) -> (r: bool)
    ensures
        r == (a@ == b@),
{
    *a == *b
}

fn src_equal(a: &crate::types::SrcContent, b: &crate::types::SrcContent) -> (r: bool)
    ensures
        r == (a@ == b@),
{
    a.line_number == b.line_number && strings_equal(&a.text, &b.text)
}

/// Whether two conflicts have the same markers and bodies.
pub fn conflicts_equal(a: &Conflict, b: &Conflict) -> (r: bool)
    ensures
        r == (a@ == b@),
{
    let r = src_equal(&a.markers.ours, &b.markers.ours) && src_equal(&a.markers.base, &b.markers.base)
        && src_equal(&a.markers.separator, &b.markers.separator) && src_equal(
        &a.markers.theirs,
        &b.markers.theirs,
    ) && crate::resolve::strategies::bodies_equal(&a.bodies.ours, &b.bodies.ours)
        && crate::resolve::strategies::bodies_equal(&a.bodies.base, &b.bodies.base)
        && crate::resolve::strategies::bodies_equal(&a.bodies.theirs, &b.bodies.theirs);
    proof {
        if !r {
            assert(a@ != b@) by {
                if a@ == b@ {
                    assert(a@.markers == b@.markers);
                    assert(a@.bodies == b@.bodies);
                }
            }
        }
    }
    r
}

/// Whether the base has lines and exactly one side is empty.
pub fn is_delete_modify(conflict: &Conflict) -> (r: bool)
    ensures
        r == is_delete_modify_spec(conflict@.bodies),
{
    !conflict.bodies.base.is_empty() && (conflict.bodies.ours.is_empty() != conflict.bodies.theirs.is_empty())
}

/// The internal reduction of a conflict that is not a delete/modify one,
/// when it changes anything.
pub fn reduce_internal_common(conflict: &Conflict) -> (r: Option<Vec<Chunk>>)
    ensures
        match r {
            Some(cs) => reduce_internal_common_spec(conflict@) == Some(chunks_view(cs@)),
            None => reduce_internal_common_spec(conflict@) is None,
        },
{
    if is_delete_modify(conflict) {
        return None;
    }
    let reduced = internal_common_reduction(conflict);
    let mut unchanged = false;
    if reduced.len() == 1 {
        if let Chunk::Conflict(c) = &reduced[0] {
            unchanged = conflicts_equal(c, conflict);
        }
    }
    proof {
        let single = seq![ChunkView::Conflict(conflict@)];
        if unchanged {
            assert(chunks_view(reduced@) =~= single);
        } else if chunks_view(reduced@) == single {
            assert(chunks_view(reduced@).len() == reduced@.len());
            assert(reduced@.len() == 1);
            assert(chunks_view(reduced@)[0] == single[0]);
            match reduced@[0] {
                Chunk::Conflict(c) => {
                    assert(c@ == conflict@);
                },
                Chunk::Plain(t) => {
                    assert(false);
                },
            }
        }
    }
    if unchanged {
        None
    } else {
        Some(reduced)
    }
}

fn merge_bodies(parts: &Vec<Conflict>) -> (r: ConflictSides<ConflictBody>)
    ensures
        r@ == merged_bodies(conflicts_view(parts@)),
{
    let mut ours = ConflictBody::empty();
    let mut base = ConflictBody::empty();
    let mut theirs = ConflictBody::empty();
    let mut i: usize = 0;
    while i < parts.len()
        invariant
            i <= parts@.len(),
            (ConflictSides { ours: ours@, base: base@, theirs: theirs@ }) == merged_bodies(
                conflicts_view(parts@.take(i as int)),
            ),
        decreases parts@.len() - i,
    {
        ours.extend(crate::text::copy_lines(parts[i].bodies.ours.lines()));
        base.extend(crate::text::copy_lines(parts[i].bodies.base.lines()));
        theirs.extend(crate::text::copy_lines(parts[i].bodies.theirs.lines()));
        proof {
            assert(conflicts_view(parts@.take(i + 1)).drop_last() =~= conflicts_view(parts@.take(i as int)));
        }
        i += 1;
    }
    proof {
        assert(parts@.take(parts@.len() as int) =~= parts@);
    }
    ConflictSides::new(ours, base, theirs)
}

/// The delete/modify reduction of a conflict, as one conflict, when it
/// changes anything.
pub fn reduce_delete_modify_common(conflict: &Conflict) -> (r: Option<Conflict>)
    ensures
        match r {
            Some(c) => reduce_delete_modify_spec(conflict@) == Some(c@),
            None => reduce_delete_modify_spec(conflict@) is None,
        },
{
    if !is_delete_modify(conflict) {
        return None;
    }
    let parts = delete_modify_common_reduction(conflict);
    let unchanged = parts.len() == 1 && conflicts_equal(&parts[0], conflict);
    proof {
        let single = seq![conflict@];
        if unchanged {
            assert(conflicts_view(parts@) =~= single);
        } else {
            if conflicts_view(parts@) == single {
                assert(conflicts_view(parts@)[0] == single[0]);
            }
        }
    }
    if unchanged {
        return None;
    }
    let merged = merge_bodies(&parts);
    Some(conflict.with_bodies(merged))
}

} // verus!

verus! {

proof fn lemma_concat_chunks_terminated(a: Seq<ChunkView>, b: Seq<ChunkView>)
    requires
        chunks_terminated(a),
        chunks_terminated(b),
    ensures
        chunks_terminated(a + b),
{
    assert forall|i: int| 0 <= i < (a + b).len() implies line_terminated(#[trigger] chunk_text((a + b)[i])) by {
        if i < a.len() {
            assert((a + b)[i] == a[i]);
        } else {
            assert((a + b)[i] == b[i - a.len()]);
        }
    }
}

proof fn lemma_push_plain_terminated(cs: Seq<ChunkView>, t: Seq<char>)
    requires
        chunks_terminated(cs),
        line_terminated(t),
    ensures
        chunks_terminated(push_plain_spec(cs, t)),
{
    if t.len() == 0 {
    } else if cs.len() > 0 && cs.last() is Plain {
        let k = cs.len() - 1;
        let r = push_plain_spec(cs, t);
        assert forall|i: int| 0 <= i < r.len() implies line_terminated(#[trigger] chunk_text(r[i])) by {
            if i != k {
                assert(r[i] == cs[i]);
            } else {
                assert(r[i] == ChunkView::Plain(cs.last()->Plain_0 + t));
            }
        }
    } else {
        let r = push_plain_spec(cs, t);
        assert forall|i: int| 0 <= i < r.len() implies line_terminated(#[trigger] chunk_text(r[i])) by {
            if i < cs.len() {
                assert(r[i] == cs[i]);
            }
        }
    }
}

/// The chunks of an internal reduction are each empty or end with a line
/// feed.
pub proof fn lemma_internal_reduction_terminated(c: ConflictView)
    ensures
        chunks_terminated(internal_reduction_spec(c)),
    decreases total_len(c.bodies),
{
    match internal_block_spec(c.bodies) {
        None => {
            lemma_text_of_terminated(c.conflict_lines());
            assert(chunk_text(seq![ChunkView::Conflict(c)][0]) == text_of(c.conflict_lines()));
        },
        Some(block) => {
            let before = split_bodies_spec(c.bodies, block, true);
            let after = split_bodies_spec(c.bodies, block, false);
            lemma_internal_block_fits(c.bodies);
            lemma_split_smaller(c.bodies, block, true);
            lemma_split_smaller(c.bodies, block, false);
            let a = if !all_empty_spec(before) {
                lemma_internal_reduction_terminated(c.with_bodies(before));
                internal_reduction_spec(c.with_bodies(before))
            } else {
                Seq::empty()
            };
            lemma_text_of_terminated(common_body_spec(c.bodies, block));
            lemma_push_plain_terminated(a, text_of(common_body_spec(c.bodies, block)));
            let m = push_plain_spec(a, text_of(common_body_spec(c.bodies, block)));
            let z = if !all_empty_spec(after) {
                lemma_internal_reduction_terminated(c.with_bodies(after));
                internal_reduction_spec(c.with_bodies(after))
            } else {
                Seq::empty()
            };
            lemma_concat_chunks_terminated(m, z);
            assert(internal_reduction_spec(c) == m + z);
        },
    }
}

} // verus!

verus! {

/// The text one side reads from chunks: the plain text as it is, and that
/// side's body of each conflict.
pub open spec fn side_text(cs: Seq<ChunkView>, s: Side) -> Seq<char>
    decreases cs.len(),
{
    if cs.len() == 0 {
        Seq::empty()
    } else {
        side_text(cs.drop_last(), s) + match cs.last() {
            ChunkView::Plain(t) => t,
            ChunkView::Conflict(cv) => text_of(side_body(cv.bodies, s)),
        }
    }
}

proof fn lemma_side_text_concat(a: Seq<ChunkView>, b: Seq<ChunkView>, s: Side)
    ensures
        side_text(a + b, s) == side_text(a, s) + side_text(b, s),
    decreases b.len(),
{
    if b.len() == 0 {
        assert(a + b =~= a);
    } else {
        assert((a + b).drop_last() =~= a + b.drop_last());
        lemma_side_text_concat(a, b.drop_last(), s);
    }
}

proof fn lemma_side_text_push_plain(cs: Seq<ChunkView>, t: Seq<char>, s: Side)
    ensures
        side_text(push_plain_spec(cs, t), s) == side_text(cs, s) + t,
{
    if t.len() == 0 {
        assert(side_text(cs, s) + t =~= side_text(cs, s));
    } else if cs.len() > 0 && cs.last() is Plain {
        let r = push_plain_spec(cs, t);
        assert(r.drop_last() =~= cs.drop_last());
        assert(side_text(cs, s) == side_text(cs.drop_last(), s) + cs.last()->Plain_0);
        assert(side_text(r, s) == side_text(cs.drop_last(), s) + (cs.last()->Plain_0 + t));
        assert(side_text(r, s) =~= side_text(cs, s) + t);
    } else {
        assert(push_plain_spec(cs, t).drop_last() =~= cs);
    }
}

/// The internal reduction loses no line of the two sides it cuts: reading
/// the chunks it gives as one of those sides (the plain text, the block
/// among it, as it is, and that side's body of each conflict) gives that
/// side's body back.
pub proof fn law_internal_reduction_keeps_sides(c: ConflictView, s: Side)
    requires
        non_empty_pair(c.bodies) is Some ==> side_body(c.bodies, s).len() > 0,
    ensures
        side_text(internal_reduction_spec(c), s) == text_of(side_body(c.bodies, s)),
    decreases total_len(c.bodies),
{
    match internal_block_spec(c.bodies) {
        None => {
            let one = seq![ChunkView::Conflict(c)];
            assert(one.drop_last() =~= Seq::<ChunkView>::empty());
            assert(side_text(one, s) == side_text(one.drop_last(), s) + text_of(side_body(c.bodies, s)));
            assert(side_text(one, s) =~= text_of(side_body(c.bodies, s)));
        },
        Some(block) => {
            let body = side_body(c.bodies, s);
            let before = split_bodies_spec(c.bodies, block, true);
            let after = split_bodies_spec(c.bodies, block, false);
            lemma_internal_block_fits(c.bodies);
            lemma_split_smaller(c.bodies, block, true);
            lemma_split_smaller(c.bodies, block, false);
            let (left, right) = non_empty_pair(c.bodies)->Some_0;
            lemma_longest_block_bounds(side_body(c.bodies, left), side_body(c.bodies, right));
            assert(s == left || s == right);
            let start: int = if s == left {
                block.left_start as int
            } else {
                block.right_start as int
            };
            let n = block.len as int;
            let common = common_body_spec(c.bodies, block);
            assert(common == body.subrange(start, start + n));
            assert(side_body(before, s) == body.take(start));
            assert(side_body(after, s) == body.skip(start + n));
            let a = if !all_empty_spec(before) {
                law_internal_reduction_keeps_sides(c.with_bodies(before), s);
                internal_reduction_spec(c.with_bodies(before))
            } else {
                Seq::empty()
            };
            assert(side_text(a, s) == text_of(side_body(before, s)));
            lemma_side_text_push_plain(a, text_of(common), s);
            let m = push_plain_spec(a, text_of(common));
            let z = if !all_empty_spec(after) {
                law_internal_reduction_keeps_sides(c.with_bodies(after), s);
                internal_reduction_spec(c.with_bodies(after))
            } else {
                Seq::empty()
            };
            assert(side_text(z, s) == text_of(side_body(after, s)));
            lemma_side_text_concat(m, z, s);
            assert(internal_reduction_spec(c) == m + z);
            lemma_text_of_concat(body.take(start), common);
            lemma_text_of_concat(body.take(start) + common, body.skip(start + n));
            assert(body.take(start) + common + body.skip(start + n) =~= body);
            assert(side_text(internal_reduction_spec(c), s) == text_of(body.take(start)) + text_of(common)
                + text_of(body.skip(start + n)));
        },
    }
}

} // verus!
