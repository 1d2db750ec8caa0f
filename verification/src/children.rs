//! Candidate plays of a position, and how they are ordered.

use crate::play::{move_score, spec_move_score, Play};
use vstd::prelude::*;

verus! {

/// A candidate play at a position.
#[derive(Clone, Copy, Debug)]
pub struct ChildPlay {
    /// The play's number in the table of plays.
    pub play_idx: usize,
    /// The state the play leads to: the state itself for a pass, 0 for a play
    /// that ends the game, and `MISSING` until it has been computed.
    pub new_state_idx: usize,
    /// What the play is worth to the mover, refined as the search goes on.
    pub valuation: i64,
}

/// What children are sorted by: the score of the play, or the valuation.
pub open spec fn spec_child_key(plays: Seq<Play>, c: ChildPlay, by_score: bool) -> int {
    if by_score {
        if c.play_idx < plays.len() {
            spec_move_score(plays[c.play_idx as int]@) as int
        } else {
            0
        }
    } else {
        c.valuation as int
    }
}

/// The key by which a child is sorted.
pub fn child_key(plays: &Vec<Play>, c: &ChildPlay, by_score: bool) -> (r: i64)
    ensures
        r == spec_child_key(plays@, *c, by_score),
{
    if by_score {
        if c.play_idx < plays.len() {
            move_score(&plays[c.play_idx]) as i64
        } else {
            0
        }
    } else {
        c.valuation
    }
}

/// The children from `lo` up to `hi` stand in descending order of their key.
pub open spec fn is_sorted_desc(
    plays: Seq<Play>,
    children: Seq<ChildPlay>,
    lo: int,
    hi: int,
    by_score: bool,
) -> bool {
    forall|i: int, j: int|
        lo <= i < j < hi ==> spec_child_key(plays, #[trigger] children[i], by_score)
            >= spec_child_key(plays, #[trigger] children[j], by_score)
}

/// Swapping two items keeps what a list holds.
pub(crate) proof fn lemma_swap_multiset(s: Seq<ChildPlay>, i: int, j: int)
    requires
        0 <= i < s.len(),
        0 <= j < s.len(),
    ensures
        s.update(i, s[j]).update(j, s[i]).to_multiset() == s.to_multiset(),
{
    broadcast use vstd::seq_lib::group_to_multiset_ensures;

    let s1 = s.update(i, s[j]);
    vstd::seq_lib::to_multiset_update(s, i, s[j]);
    vstd::seq_lib::to_multiset_update(s1, j, s[i]);
    assert(s.to_multiset().count(s[i]) > 0) by {
        assert(s.contains(s[i]));
    }
    assert(s.to_multiset().count(s[j]) > 0) by {
        assert(s.contains(s[j]));
    }
    assert(s1.update(j, s[i]).to_multiset() =~= s.to_multiset());
}

/// What a part of a list holds after a sort of it, it held before, and the
/// other way round.
pub(crate) proof fn lemma_same_members(a: Seq<ChildPlay>, b: Seq<ChildPlay>, i: int) -> (j: int)
    requires
        a.to_multiset() == b.to_multiset(),
        0 <= i < a.len(),
    ensures
        0 <= j < b.len(),
        b[j] == a[i],
{
    broadcast use vstd::seq_lib::group_to_multiset_ensures;

    assert(a.contains(a[i]));
    assert(a.to_multiset().count(a[i]) > 0);
    assert(b.contains(a[i]));
    choose|j: int| 0 <= j < b.len() && b[j] == a[i]
}

/// The plays of a list of children, by number.
pub open spec fn spec_child_ids(children: Seq<ChildPlay>) -> Seq<int> {
    Seq::new(children.len(), |i: int| children[i].play_idx as int)
}

/// Lists that hold the same children hold the same plays.
pub(crate) proof fn lemma_ids_multiset(a: Seq<ChildPlay>, b: Seq<ChildPlay>)
    requires
        a.to_multiset() == b.to_multiset(),
    ensures
        spec_child_ids(a).to_multiset() == spec_child_ids(b).to_multiset(),
    decreases a.len(),
{
    broadcast use vstd::seq_lib::group_to_multiset_ensures;

    if a.len() == 0 {
        vstd::seq_lib::to_multiset_len(a);
        vstd::seq_lib::to_multiset_len(b);
        assert(b.len() == 0);
        assert(spec_child_ids(a) =~= spec_child_ids(b));
    } else {
        let x = a.last();
        let a0 = a.drop_last();
        let j = lemma_same_members(a, b, a.len() - 1);
        let b0 = b.remove(j);
        assert(a =~= a0.push(x));
        assert(a0.to_multiset() =~= a.to_multiset().remove(x));
        assert(b0.to_multiset() =~= b.to_multiset().remove(x));
        lemma_ids_multiset(a0, b0);
        assert(spec_child_ids(a) =~= spec_child_ids(a0).push(x.play_idx as int));
        assert(spec_child_ids(b) =~= spec_child_ids(b0).insert(j, x.play_idx as int));
    }
}

/// Sorts the children from `lo` up to `hi` in descending order of their key.
pub fn sort_children(
    children: &mut Vec<ChildPlay>,
    lo: usize,
    hi: usize,
    plays: &Vec<Play>,
    by_score: bool,
)
    requires
        lo <= hi <= old(children)@.len(),
    ensures
        final(children)@.len() == old(children)@.len(),
        forall|i: int|
            0 <= i < lo || hi <= i < old(children)@.len() ==> #[trigger] final(children)@[i] == old(
                children,
            )@[i],
        final(children)@.subrange(lo as int, hi as int).to_multiset() == old(children)@.subrange(
            lo as int,
            hi as int,
        ).to_multiset(),
        is_sorted_desc(plays@, final(children)@, lo as int, hi as int, by_score),
{
    let ghost orig = children@;
    if hi - lo < 2 {
        return ;
    }
    let mut i: usize = lo + 1;
    while i < hi
        invariant
            lo < i <= hi <= children@.len(),
            children@.len() == orig.len(),
            forall|k: int| 0 <= k < lo || hi <= k < orig.len() ==> #[trigger] children@[k] == orig[k],
            children@.subrange(lo as int, hi as int).to_multiset() == orig.subrange(
                lo as int,
                hi as int,
            ).to_multiset(),
            is_sorted_desc(plays@, children@, lo as int, i as int, by_score),
        decreases hi - i,
    {
        let mut j: usize = i;
        while j > lo && child_key(plays, &children[j - 1], by_score) < child_key(
            plays,
            &children[j],
            by_score,
        )
            invariant
                lo <= j <= i < hi <= children@.len(),
                children@.len() == orig.len(),
                forall|k: int|
                    0 <= k < lo || hi <= k < orig.len() ==> #[trigger] children@[k] == orig[k],
                children@.subrange(lo as int, hi as int).to_multiset() == orig.subrange(
                    lo as int,
                    hi as int,
                ).to_multiset(),
                forall|a: int, b: int|
                    lo <= a < b <= i && a != j && b != j ==> spec_child_key(
                        plays@,
                        #[trigger] children@[a],
                        by_score,
                    ) >= spec_child_key(plays@, #[trigger] children@[b], by_score),
                forall|b: int|
                    j < b <= i ==> spec_child_key(plays@, children@[j as int], by_score)
                        >= spec_child_key(plays@, #[trigger] children@[b], by_score),
            decreases j,
        {
            let ghost before = children@;
            let lower = children[j - 1];
            let upper = children[j];
            children.set(j - 1, upper);
            children.set(j, lower);
            proof {
                let r0 = before.subrange(lo as int, hi as int);
                let r1 = children@.subrange(lo as int, hi as int);
                assert(r1 =~= r0.update(j - 1 - lo, r0[j - lo]).update(j - lo, r0[j - 1 - lo]));
                lemma_swap_multiset(r0, j - 1 - lo, j - lo);
                assert forall|a: int, b: int|
                    lo <= a < b <= i && a != j - 1 && b != j - 1 implies spec_child_key(
                    plays@,
                    #[trigger] children@[a],
                    by_score,
                ) >= spec_child_key(plays@, #[trigger] children@[b], by_score) by {
                    if b == j {
                        assert(spec_child_key(plays@, before[a], by_score) >= spec_child_key(
                            plays@,
                            before[j - 1],
                            by_score,
                        ));
                    } else if a == j {
                        assert(spec_child_key(plays@, before[j - 1], by_score) >= spec_child_key(
                            plays@,
                            before[b],
                            by_score,
                        ));
                    } else {
                        assert(spec_child_key(plays@, before[a], by_score) >= spec_child_key(
                            plays@,
                            before[b],
                            by_score,
                        ));
                    }
                }
                assert forall|b: int| j - 1 < b <= i implies spec_child_key(
                    plays@,
                    children@[j - 1],
                    by_score,
                ) >= spec_child_key(plays@, #[trigger] children@[b], by_score) by {
                    if b > j {
                        assert(spec_child_key(plays@, before[j as int], by_score)
                            >= spec_child_key(plays@, before[b], by_score));
                    }
                }
            }
            j = j - 1;
        }
        proof {
            assert forall|a: int, b: int| lo <= a < b < i + 1 implies spec_child_key(
                plays@,
                #[trigger] children@[a],
                by_score,
            ) >= spec_child_key(plays@, #[trigger] children@[b], by_score) by {
                if a == j {
                } else if b == j {
                    if a < j - 1 {
                        assert(spec_child_key(plays@, children@[a], by_score) >= spec_child_key(
                            plays@,
                            children@[j - 1],
                            by_score,
                        ));
                    }
                } else {
                }
            }
        }
        i = i + 1;
    }
}

} // verus!
