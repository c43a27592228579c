//! Splitting a conflict at `~~~~~~~` lines that all three sides hold
//! equally often.
use vstd::prelude::*;

use crate::parse::is_marker;
use crate::text::{chars_of, copy_string, lines_view};
use crate::types::{Conflict, ConflictBody, ConflictSides, ConflictView};

verus! {

/// The parts of a body between `~~~~~~~` lines; one more part than there
/// are such lines.
pub open spec fn split_parts_spec(ls: Seq<Seq<char>>) -> Seq<Seq<Seq<char>>>
    decreases ls.len(),
{
    if ls.len() == 0 {
        seq![Seq::<Seq<char>>::empty()]
    } else {
        let p = split_parts_spec(ls.drop_last());
        if is_marker(ls.last(), '~') {
            p.push(Seq::<Seq<char>>::empty())
        } else {
            p.update(p.len() - 1, p.last().push(ls.last()))
        }
    }
}

pub proof fn lemma_split_parts_len(ls: Seq<Seq<char>>)
    ensures
        split_parts_spec(ls).len() >= 1,
    decreases ls.len(),
{
    if ls.len() > 0 {
        lemma_split_parts_len(ls.drop_last());
    }
}

/// The conflict split into one conflict per part, with the same markers,
/// when every side has the same number of parts and there are several.
pub open spec fn split_marked_parts_spec(c: ConflictView) -> Option<Seq<ConflictView>> {
    let o = split_parts_spec(c.bodies.ours);
    let b = split_parts_spec(c.bodies.base);
    let t = split_parts_spec(c.bodies.theirs);
    if o.len() != b.len() || o.len() != t.len() || o.len() <= 1 {
        None
    } else {
        Some(
            Seq::new(
                o.len(),
                |i: int| c.with_bodies(ConflictSides { ours: o[i], base: b[i], theirs: t[i] }),
            ),
        )
    }
}

/// The views of a sequence of bodies.
pub open spec fn bodies_view(s: Seq<ConflictBody>) -> Seq<Seq<Seq<char>>> {
    s.map_values(|b: ConflictBody| b@)
}

fn is_split_marker(line: &String) -> (r: bool)
    ensures
        r == is_marker(line@, '~'),
{
    let cs = chars_of(line.as_str());
    if cs.len() < 7 {
        return false;
    }
    let mut i: usize = 0;
    while i < 7
        invariant
            cs@.len() >= 7,
            cs@ == line@,
            i <= 7,
            forall|j: int| 0 <= j < i ==> cs@[j] == '~',
        decreases 7 - i,
    {
        if cs[i] != '~' {
            return false;
        }
        i += 1;
    }
    true
}

impl ConflictBody {
    /// The parts of the body between `~~~~~~~` lines.
    pub fn split_on_marker_lines(&self) -> (r: Vec<ConflictBody>)
        ensures
            bodies_view(r@) == split_parts_spec(self@),
    {
        let ls = self.lines();
        let ghost v = self@;
        let mut done: Vec<ConflictBody> = Vec::new();
        let mut cur = ConflictBody::empty();
        let mut i: usize = 0;
        proof {
            assert(v.take(0) =~= Seq::<Seq<char>>::empty());
            assert(bodies_view(done@).push(cur@) =~= split_parts_spec(v.take(0)));
        }
        while i < ls.len()
            invariant
                i <= ls@.len(),
                lines_view(ls@) == v,
                v == self@,
                bodies_view(done@).push(cur@) == split_parts_spec(v.take(i as int)),
            decreases ls@.len() - i,
        {
            let ghost p = split_parts_spec(v.take(i as int));
            proof {
                assert(v.take(i + 1).drop_last() =~= v.take(i as int));
                assert(v.take(i + 1).last() == v[i as int]);
                lemma_split_parts_len(v.take(i as int));
            }
            if is_split_marker(&ls[i]) {
                let finished = cur;
                done.push(finished);
                cur = ConflictBody::empty();
                proof {
                    assert(bodies_view(done@) =~= p);
                }
            } else {
                let ghost before = bodies_view(done@);
                cur.push(copy_string(&ls[i]));
                proof {
                    assert(before.push(cur@) =~= p.update(p.len() - 1, p.last().push(v[i as int])));
                }
            }
            i += 1;
        }
        proof {
            assert(v.take(ls@.len() as int) =~= v);
        }
        let ghost before = bodies_view(done@);
        done.push(cur);
        proof {
            assert(bodies_view(done@) =~= before.push(cur@));
        }
        done
    }
}

impl Conflict {
    /// The conflict split at `~~~~~~~` lines, one conflict per part, when
    /// every side has the same number of parts and there are several.
    pub fn split_marked_parts(&self) -> (r: Option<Vec<Conflict>>)
        ensures
            match r {
                Some(v) => split_marked_parts_spec(self@) == Some(v@.map_values(|c: Conflict| c@)),
                None => split_marked_parts_spec(self@) is None,
            },
    {
        let ours_parts = self.bodies.ours.split_on_marker_lines();
        let base_parts = self.bodies.base.split_on_marker_lines();
        let theirs_parts = self.bodies.theirs.split_on_marker_lines();
        if ours_parts.len() != base_parts.len() || ours_parts.len() != theirs_parts.len()
            || ours_parts.len() <= 1 {
            return None;
        }
        let ghost o = split_parts_spec(self@.bodies.ours);
        let ghost b = split_parts_spec(self@.bodies.base);
        let ghost t = split_parts_spec(self@.bodies.theirs);
        let ghost want = split_marked_parts_spec(self@)->Some_0;
        let mut out: Vec<Conflict> = Vec::new();
        let mut i: usize = 0;
        while i < ours_parts.len()
            invariant
                i <= ours_parts@.len(),
                ours_parts@.len() == base_parts@.len(),
                ours_parts@.len() == theirs_parts@.len(),
                ours_parts@.len() > 1,
                bodies_view(ours_parts@) == o,
                bodies_view(base_parts@) == b,
                bodies_view(theirs_parts@) == t,
                o == split_parts_spec(self@.bodies.ours),
                b == split_parts_spec(self@.bodies.base),
                t == split_parts_spec(self@.bodies.theirs),
                want == split_marked_parts_spec(self@)->Some_0,
                split_marked_parts_spec(self@) is Some,
                out@.map_values(|c: Conflict| c@) =~= want.take(i as int),
            decreases ours_parts@.len() - i,
        {
            let c = self.with_bodies(
                ConflictSides::new(
                    ours_parts[i].duplicate(),
                    base_parts[i].duplicate(),
                    theirs_parts[i].duplicate(),
                ),
            );
            let ghost before = out@;
            out.push(c);
            proof {
                assert(out@.map_values(|c: Conflict| c@) =~= before.map_values(|c: Conflict| c@).push(c@));
                assert(want[i as int] == c@);
                assert(want.take(i + 1) =~= want.take(i as int).push(want[i as int]));
            }
            i += 1;
        }
        proof {
            assert(want.take(ours_parts@.len() as int) =~= want);
        }
        Some(out)
    }
}

} // verus!
