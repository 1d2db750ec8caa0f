//! Expansion: the candidate plays of both sides become the child plays of a
//! position, ordered by score and valued for move ordering.

use crate::blocking::{blocking_map, spec_blocking_map, Nearest};
use crate::children::{
    child_key, is_sorted_desc, lemma_same_members, sort_children, spec_child_ids, spec_child_key,
    ChildPlay,
};
use crate::game_config::{lemma_rack_score_bounds, spec_rack_score};
use crate::ordering::{
    best_unblocked_score, lemma_valuation_same_plays, spec_plays_out, spec_valuation,
};
use crate::play::{move_score, spec_in_bounds, Play, PlayView};
use crate::position::{lemma_position_ok_len, position_ok, reconstruct, spec_play_fits};
use crate::solver::{EndgameSolver, Phase};
use crate::transposition::{StateEval, StateSideEval, MISSING};
use vstd::prelude::*;

verus! {

impl EndgameSolver {
    /// Candidate plays that player `whose` can make in state `state`, with a
    /// pass among them.
    pub open spec fn spec_candidates_ok(&self, state: int, whose: u8, candidates: Seq<Play>) -> bool {
        &&& exists|k: int| 0 <= k < candidates.len() && (#[trigger] candidates[k])@ is Exchange
        &&& forall|k: int|
            0 <= k < candidates.len() ==> spec_play_fits(
                self.layout,
                self.spec_board(state),
                self.spec_rack(state, whose),
                (#[trigger] candidates[k])@,
                whose,
            )
    }

    /// The child plays from `lo` up to `hi` are children of player `whose` in `state`.
    pub open spec fn pending_ok(&self, state: int, whose: u8, lo: int, hi: int) -> bool {
        &&& 0 <= lo <= hi <= self.work_buffer.child_plays@.len()
        &&& forall|i: int|
            lo <= i < hi ==> self.child_ok(state, whose, #[trigger] self.work_buffer.child_plays@[i])
    }

    /// Every evaluation's stretch of the child plays ends at `limit` or before.
    pub open spec fn stretches_below(&self, limit: int) -> bool {
        forall|s: usize| #[trigger]
            self.work_buffer.state_eval@.contains_key(s)
                ==> self.work_buffer.state_eval@[s].child_play_idxs@[2] <= limit
    }

    /// All but the plays and the child plays is as it was.
    pub open spec fn tables_kept(&self, old: &EndgameSolver) -> bool {
        &&& self.same_start(old)
        &&& self.work_buffer.states == old.work_buffer.states
        &&& self.work_buffer.state_eval == old.work_buffer.state_eval
        &&& self.work_buffer.stack == old.work_buffer.stack
        &&& self.work_buffer.returned == old.work_buffer.returned
        &&& self.work_buffer.searching == old.work_buffer.searching
        &&& self.work_buffer.max_depth == old.work_buffer.max_depth
        &&& self.work_buffer.player_idx == old.work_buffer.player_idx
        &&& self.work_buffer.old_num_states == old.work_buffer.old_num_states
    }

    /// The child play that a candidate becomes: an exchange becomes the pass
    /// that stays in the state; a placement is known by its number in the
    /// table of plays, and the state it leads to is yet to be computed.
    pub open spec fn spec_is_child_of(&self, state: usize, candidate: PlayView, c: ChildPlay) -> bool {
        match candidate {
            PlayView::Exchange { .. } => c.play_idx == 0 && c.new_state_idx == state,
            PlayView::Place { .. } => c.play_idx < self.work_buffer.plays.plays@.len()
                && self.work_buffer.plays.plays@[c.play_idx as int]@ == candidate,
        }
    }

    /// Every stretch ends within the child plays.
    pub(crate) proof fn lemma_stretches_below(&self)
        requires
            self.evals_ok(),
        ensures
            self.stretches_below(self.work_buffer.child_plays@.len() as int),
    {
        assert forall|s: usize| #[trigger]
            self.work_buffer.state_eval@.contains_key(s) implies self.work_buffer.state_eval@[s].child_play_idxs@[2]
            <= self.work_buffer.child_plays@.len() by {
            assert(self.eval_ok(s as int, self.work_buffer.state_eval@[s]));
        }
    }

    /// The invariant holds on when only plays were added and only child plays
    /// beyond every evaluation's stretch were changed.
    pub(crate) proof fn lemma_wf_kept(&self, old: &EndgameSolver, limit: int)
        requires
            old.wf(),
            self.tables_kept(old),
            self.work_buffer.plays.wf(),
            self.work_buffer.plays.extends(&old.work_buffer.plays),
            old.stretches_below(limit),
            self.work_buffer.child_plays@.len() >= old.work_buffer.child_plays@.len(),
            forall|i: int|
                0 <= i < limit && i < old.work_buffer.child_plays@.len()
                    ==> #[trigger] self.work_buffer.child_plays@[i]
                    == old.work_buffer.child_plays@[i],
        ensures
            self.wf(),
            self.extends(old),
            self.stretches_below(limit),
    {
        self.lemma_states_ok_same(old);
        assert forall|s: usize, i: int|
            #![trigger old.work_buffer.state_eval@.contains_key(s), self.work_buffer.child_plays@[i]]
            old.work_buffer.state_eval@.contains_key(s) && 0 <= i
                < old.work_buffer.state_eval@[s].child_play_idxs@[2] implies self.work_buffer.child_plays@[i]
            == old.work_buffer.child_plays@[i] by {
            assert(old.eval_ok(s as int, old.work_buffer.state_eval@[s]));
        }
        self.lemma_evals_stable(old);
        old.lemma_expanding_unkeyed();
        self.lemma_stack_stable(old);
    }

    /// Children stay children when plays are added.
    pub(crate) proof fn lemma_pending_kept(
        &self,
        old: &EndgameSolver,
        state: int,
        whose: u8,
        lo: int,
        hi: int,
    )
        requires
            old.pending_ok(state, whose, lo, hi),
            0 <= state < old.work_buffer.states.states@.len(),
            self.same_start(old),
            self.work_buffer.states.extends(&old.work_buffer.states),
            self.work_buffer.plays.extends(&old.work_buffer.plays),
            self.work_buffer.child_plays@.len() >= old.work_buffer.child_plays@.len(),
            forall|i: int|
                lo <= i < hi ==> #[trigger] self.work_buffer.child_plays@[i]
                    == old.work_buffer.child_plays@[i],
        ensures
            self.pending_ok(state, whose, lo, hi),
    {
        assert forall|i: int| lo <= i < hi implies self.child_ok(
            state,
            whose,
            #[trigger] self.work_buffer.child_plays@[i],
        ) by {
            self.lemma_child_ok_stable(old, state, whose, old.work_buffer.child_plays@[i]);
        }
    }

    /// Appends the child plays of a player's candidates, in their order.
    pub(crate) fn add_candidates(&mut self, state_idx: usize, whose: u8, candidates: &Vec<Play>)
        requires
            old(self).wf(),
            state_idx < old(self).work_buffer.states.states@.len(),
            whose <= 1,
            forall|k: int|
                0 <= k < candidates@.len() ==> spec_play_fits(
                    old(self).layout,
                    old(self).spec_board(state_idx as int),
                    old(self).spec_rack(state_idx as int, whose),
                    (#[trigger] candidates@[k])@,
                    whose,
                ),
        ensures
            final(self).wf(),
            final(self).extends(old(self)),
            final(self).tables_kept(old(self)),
            final(self).work_buffer.child_plays@.len() == old(self).work_buffer.child_plays@.len()
                + candidates@.len(),
            forall|i: int|
                0 <= i < old(self).work_buffer.child_plays@.len()
                    ==> #[trigger] final(self).work_buffer.child_plays@[i] == old(
                    self,
                ).work_buffer.child_plays@[i],
            final(self).pending_ok(
                state_idx as int,
                whose,
                old(self).work_buffer.child_plays@.len() as int,
                final(self).work_buffer.child_plays@.len() as int,
            ),
            forall|k: int|
                0 <= k < candidates@.len() ==> final(self).spec_fresh_child_of(
                    state_idx,
                    candidates@[k]@,
                    #[trigger] final(self).work_buffer.child_plays@[old(
                        self,
                    ).work_buffer.child_plays@.len() + k],
                ),
    {
        let ghost before = *self;
        let first = self.work_buffer.child_plays.len();
        let mut k: usize = 0;
        proof {
            before.lemma_stretches_below();
            assert(self.work_buffer.plays.extends(&before.work_buffer.plays));
            assert(self.work_buffer.states.extends(&before.work_buffer.states));
        }
        while k < candidates.len()
            invariant
                k <= candidates@.len(),
                before.wf(),
                before.stretches_below(first as int),
                first == before.work_buffer.child_plays@.len(),
                state_idx < before.work_buffer.states.states@.len(),
                whose <= 1,
                self.wf(),
                self.extends(&before),
                self.tables_kept(&before),
                self.work_buffer.child_plays@.len() == first + k,
                forall|i: int|
                    0 <= i < first ==> #[trigger] self.work_buffer.child_plays@[i]
                        == before.work_buffer.child_plays@[i],
                self.pending_ok(state_idx as int, whose, first as int, first + k),
                forall|j: int|
                    0 <= j < candidates@.len() ==> spec_play_fits(
                        before.layout,
                        before.spec_board(state_idx as int),
                        before.spec_rack(state_idx as int, whose),
                        (#[trigger] candidates@[j])@,
                        whose,
                    ),
                forall|j: int|
                    0 <= j < k ==> self.spec_fresh_child_of(
                        state_idx,
                        candidates@[j]@,
                        #[trigger] self.work_buffer.child_plays@[first + j],
                    ),
            decreases candidates@.len() - k,
        {
            let ghost prior = *self;
            let id = self.work_buffer.plays.intern(&candidates[k]);
            let ghost mid = *self;
            proof {
                mid.lemma_wf_kept(&before, first as int);
                mid.lemma_pending_kept(&prior, state_idx as int, whose, first as int, first + k);
            }
            let child = if candidates[k].is_exchange() {
                ChildPlay { play_idx: 0, new_state_idx: state_idx, valuation: 0 }
            } else {
                ChildPlay { play_idx: id, new_state_idx: MISSING, valuation: 0 }
            };
            self.work_buffer.child_plays.push(child);
            proof {
                self.lemma_wf_kept(&before, first as int);
                assert(self.child_ok(state_idx as int, whose, child)) by {
                    reveal(EndgameSolver::child_ok);
                    self.lemma_bound_range(state_idx as int);
                    assert(candidates@[k as int]@ is Place ==> self.work_buffer.plays.plays@[id as int]@
                        == candidates@[k as int]@);
                    assert(spec_play_fits(
                        before.layout,
                        before.spec_board(state_idx as int),
                        before.spec_rack(state_idx as int, whose),
                        candidates@[k as int]@,
                        whose,
                    ));
                }
                assert forall|i: int| first <= i < first + k + 1 implies self.child_ok(
                    state_idx as int,
                    whose,
                    #[trigger] self.work_buffer.child_plays@[i],
                ) by {
                    if i < first + k {
                        assert(mid.child_ok(state_idx as int, whose, mid.work_buffer.child_plays@[i]));
                        self.lemma_child_ok_stable(
                            &mid,
                            state_idx as int,
                            whose,
                            mid.work_buffer.child_plays@[i],
                        );
                    }
                }
                assert forall|j: int| 0 <= j < k + 1 implies self.spec_fresh_child_of(
                    state_idx,
                    candidates@[j]@,
                    #[trigger] self.work_buffer.child_plays@[first + j],
                ) by {
                    if j < k {
                        assert(prior.spec_fresh_child_of(
                            state_idx,
                            candidates@[j]@,
                            prior.work_buffer.child_plays@[first + j],
                        ));
                        assert(self.work_buffer.child_plays@[first + j]
                            == prior.work_buffer.child_plays@[first + j]);
                        let c = prior.work_buffer.child_plays@[first + j];
                        if candidates@[j]@ is Place {
                            assert(self.work_buffer.plays.plays@[c.play_idx as int]@
                                == prior.work_buffer.plays.plays@[c.play_idx as int]@);
                        }
                    }
                }
            }
            k = k + 1;
        }
    }

    /// Values the child plays from `lo` up to `hi` of player `whose` against
    /// the opponent's child plays from `opp_lo` up to `opp_hi`, and marks
    /// the plays that empty the rack as leading to the end of the game.
    pub(crate) fn fill_valuations(
        &mut self,
        state_idx: usize,
        whose: u8,
        lo: usize,
        hi: usize,
        opp_lo: usize,
        opp_hi: usize,
        map: &Vec<Nearest>,
        rack_len: usize,
        opp_rack_score: i64,
    )
        requires
            old(self).wf(),
            state_idx < old(self).work_buffer.states.states@.len(),
            whose <= 1,
            old(self).pending_ok(state_idx as int, whose, lo as int, hi as int),
            old(self).pending_ok(state_idx as int, (1 - whose) as u8, opp_lo as int, opp_hi as int),
            opp_lo < opp_hi,
            hi <= opp_lo || opp_hi <= lo,
            old(self).stretches_below(lo as int),
            old(self).stretches_below(opp_lo as int),
            map@.len() == old(self).layout.spec_size(),
            0 <= opp_rack_score <= 255 * 0xffff,
        ensures
            final(self).wf(),
            final(self).extends(old(self)),
            final(self).tables_kept(old(self)),
            final(self).work_buffer.plays == old(self).work_buffer.plays,
            final(self).work_buffer.child_plays@.len() == old(self).work_buffer.child_plays@.len(),
            forall|i: int|
                0 <= i < lo || hi <= i < old(self).work_buffer.child_plays@.len()
                    ==> #[trigger] final(self).work_buffer.child_plays@[i] == old(
                    self,
                ).work_buffer.child_plays@[i],
            final(self).pending_ok(state_idx as int, whose, lo as int, hi as int),
            final(self).pending_ok(state_idx as int, (1 - whose) as u8, opp_lo as int, opp_hi as int),
            forall|i: int|
                lo <= i < hi ==> {
                    let c0 = old(self).work_buffer.child_plays@[i];
                    let c = #[trigger] final(self).work_buffer.child_plays@[i];
                    let play = old(self).work_buffer.plays.plays@[c0.play_idx as int]@;
                    &&& c.play_idx == c0.play_idx
                    &&& c.valuation == spec_valuation(
                        old(self).layout,
                        map@,
                        old(self).work_buffer.plays.plays@,
                        play,
                        rack_len as int,
                        opp_rack_score as int,
                        old(self).work_buffer.child_plays@.subrange(opp_lo as int, opp_hi as int),
                    )
                    &&& c.new_state_idx == if spec_plays_out(play, rack_len as int) {
                        0
                    } else {
                        c0.new_state_idx
                    }
                },
    {
        let ghost before = *self;
        let ghost opp = self.work_buffer.child_plays@.subrange(opp_lo as int, opp_hi as int);
        let mut i: usize = lo;
        proof {
            assert(self.work_buffer.plays.extends(&before.work_buffer.plays));
            assert(self.work_buffer.states.extends(&before.work_buffer.states));
            self.lemma_bound_range(state_idx as int);
        }
        while i < hi
            invariant
                lo <= i <= hi,
                before.wf(),
                state_idx < before.work_buffer.states.states@.len(),
                whose <= 1,
                opp_lo < opp_hi,
                hi <= opp_lo || opp_hi <= lo,
                before.stretches_below(lo as int),
                map@.len() == before.layout.spec_size(),
                0 <= opp_rack_score <= 255 * 0xffff,
                0x400_0000 <= before.spec_bound(state_idx as int),
                opp == before.work_buffer.child_plays@.subrange(opp_lo as int, opp_hi as int),
                before.pending_ok(state_idx as int, whose, lo as int, hi as int),
                before.pending_ok(state_idx as int, (1 - whose) as u8, opp_lo as int, opp_hi as int),
                self.wf(),
                self.extends(&before),
                self.tables_kept(&before),
                self.work_buffer.plays == before.work_buffer.plays,
                self.work_buffer.child_plays@.len() == before.work_buffer.child_plays@.len(),
                forall|j: int|
                    0 <= j < lo || i <= j < before.work_buffer.child_plays@.len()
                        ==> #[trigger] self.work_buffer.child_plays@[j]
                        == before.work_buffer.child_plays@[j],
                self.pending_ok(state_idx as int, whose, lo as int, hi as int),
                self.pending_ok(state_idx as int, (1 - whose) as u8, opp_lo as int, opp_hi as int),
                forall|j: int|
                    lo <= j < i ==> {
                        let c0 = before.work_buffer.child_plays@[j];
                        let c = #[trigger] self.work_buffer.child_plays@[j];
                        let play = before.work_buffer.plays.plays@[c0.play_idx as int]@;
                        &&& c.play_idx == c0.play_idx
                        &&& c.valuation == spec_valuation(
                            before.layout,
                            map@,
                            before.work_buffer.plays.plays@,
                            play,
                            rack_len as int,
                            opp_rack_score as int,
                            opp,
                        )
                        &&& c.new_state_idx == if spec_plays_out(play, rack_len as int) {
                            0
                        } else {
                            c0.new_state_idx
                        }
                    },
            decreases hi - i,
        {
            let ghost prior = *self;
            let child = self.work_buffer.child_plays[i];
            proof {
                assert(self.child_ok(state_idx as int, whose, child));
                reveal(EndgameSolver::child_ok);
                assert(self.work_buffer.child_plays@.subrange(opp_lo as int, opp_hi as int) =~= opp);
                assert forall|k: int| opp_lo <= k < opp_hi implies (
                #[trigger] self.work_buffer.child_plays@[k]).play_idx
                    < self.work_buffer.plays.plays@.len() && spec_in_bounds(
                    self.layout,
                    self.work_buffer.plays.plays@[self.work_buffer.child_plays@[k].play_idx as int]@,
                ) by {
                    assert(self.child_ok(
                        state_idx as int,
                        (1 - whose) as u8,
                        self.work_buffer.child_plays@[k],
                    ));
                }
                assert(opp[0] == self.work_buffer.child_plays@[opp_lo as int]);
            }
            let play = &self.work_buffer.plays.plays[child.play_idx];
            let mut valuation: i64 = 0;
            let mut new_state_idx: usize = child.new_state_idx;
            if play.is_exchange() {
                valuation =
                -child_key(
                    &self.work_buffer.plays.plays,
                    &self.work_buffer.child_plays[opp_lo],
                    true,
                );
            } else if play.tiles_placed() == rack_len {
                new_state_idx = 0;
                valuation = move_score(play) as i64 + 2 * opp_rack_score;
            } else {
                let reply = best_unblocked_score(
                    &self.layout,
                    map,
                    &self.work_buffer.plays.plays,
                    play,
                    &self.work_buffer.child_plays,
                    opp_lo,
                    opp_hi,
                );
                valuation = move_score(play) as i64 - reply as i64;
            }
            let updated = ChildPlay { play_idx: child.play_idx, new_state_idx, valuation };
            self.work_buffer.child_plays.set(i, updated);
            proof {
                self.lemma_wf_kept(&before, lo as int);
                assert(self.child_ok(state_idx as int, whose, updated));
                assert forall|j: int| lo <= j < hi implies self.child_ok(
                    state_idx as int,
                    whose,
                    #[trigger] self.work_buffer.child_plays@[j],
                ) by {
                    if j != i {
                        assert(prior.child_ok(
                            state_idx as int,
                            whose,
                            prior.work_buffer.child_plays@[j],
                        ));
                    }
                }
                assert forall|j: int| opp_lo <= j < opp_hi implies self.child_ok(
                    state_idx as int,
                    (1 - whose) as u8,
                    #[trigger] self.work_buffer.child_plays@[j],
                ) by {
                    assert(prior.child_ok(
                        state_idx as int,
                        (1 - whose) as u8,
                        prior.work_buffer.child_plays@[j],
                    ));
                }
            }
            i = i + 1;
        }
    }

    /// The child play `c` is what the candidate has just become: its
    /// valuation is yet to be filled in, and where a placement leads is yet
    /// to be computed.
    pub open spec fn spec_fresh_child_of(&self, state: usize, candidate: PlayView, c: ChildPlay) -> bool {
        &&& self.spec_is_child_of(state, candidate, c)
        &&& c.valuation == 0
        &&& candidate is Place ==> c.new_state_idx == MISSING
    }

    /// The numbers of the candidates' plays in the table of plays.
    pub open spec fn spec_candidate_ids(&self, candidates: Seq<Play>) -> Seq<int> {
        Seq::new(
            candidates.len(),
            |k: int| self.work_buffer.plays.spec_find(candidates[k]@).unwrap(),
        )
    }

    /// The child play has just been entered: its valuation is yet to be
    /// filled in; a pass stays in the state, and where a placement leads is
    /// yet to be computed.
    pub open spec fn spec_fresh(&self, state: usize, c: ChildPlay) -> bool {
        &&& c.play_idx < self.work_buffer.plays.plays@.len()
        &&& c.valuation == 0
        &&& match self.work_buffer.plays.plays@[c.play_idx as int]@ {
            PlayView::Exchange { .. } => c.play_idx == 0 && c.new_state_idx == state,
            PlayView::Place { .. } => c.new_state_idx == MISSING,
        }
    }

    /// The child plays from `lo` up to `hi` are the fresh children of the
    /// candidates, one for each, in descending order of score.
    #[verifier::opaque]
    pub open spec fn spec_children_entered(
        &self,
        state: usize,
        candidates: Seq<Play>,
        lo: int,
        hi: int,
    ) -> bool {
        &&& 0 <= lo
        &&& hi - lo == candidates.len()
        &&& hi <= self.work_buffer.child_plays@.len()
        &&& is_sorted_desc(self.work_buffer.plays.plays@, self.work_buffer.child_plays@, lo, hi, true)
        &&& forall|k: int|
            0 <= k < candidates.len() ==> self.work_buffer.plays.spec_find(
                (#[trigger] candidates[k])@,
            ) is Some
        &&& spec_child_ids(self.work_buffer.child_plays@.subrange(lo, hi)).to_multiset()
            == self.spec_candidate_ids(candidates).to_multiset()
        &&& forall|i: int|
            lo <= i < hi ==> self.spec_fresh(state, #[trigger] self.work_buffer.child_plays@[i])
    }

    /// The child plays of a side from `lo` up to `hi` are the children of
    /// the candidates, one for each, in descending order of score, each with
    /// its static valuation against the other side's child plays from
    /// `opp_lo` up to `opp_hi`. A pass stays in the state. A play that
    /// empties the rack leads to the end of the game; where any other
    /// placement leads is yet to be computed.
    #[verifier::opaque]
    pub open spec fn spec_side_valued(
        &self,
        state: usize,
        whose: u8,
        candidates: Seq<Play>,
        lo: int,
        hi: int,
        opp_lo: int,
        opp_hi: int,
    ) -> bool {
        let map = spec_blocking_map(self.layout, self.spec_board(state as int));
        let rack_len = self.spec_rack(state as int, whose).len() as int;
        let opp_rack_score = spec_rack_score(
            self.alphabet,
            self.spec_rack(state as int, (1 - whose) as u8),
        );
        &&& hi - lo == candidates.len()
        &&& is_sorted_desc(self.work_buffer.plays.plays@, self.work_buffer.child_plays@, lo, hi, true)
        &&& spec_child_ids(self.work_buffer.child_plays@.subrange(lo, hi)).to_multiset()
            == self.spec_candidate_ids(candidates).to_multiset()
        &&& forall|i: int|
            lo <= i < hi ==> {
                let c = #[trigger] self.work_buffer.child_plays@[i];
                let play = self.work_buffer.plays.plays@[c.play_idx as int]@;
                &&& c.play_idx < self.work_buffer.plays.plays@.len()
                &&& c.valuation == spec_valuation(
                    self.layout,
                    map,
                    self.work_buffer.plays.plays@,
                    play,
                    rack_len,
                    opp_rack_score,
                    self.work_buffer.child_plays@.subrange(opp_lo, opp_hi),
                )
                &&& match play {
                    PlayView::Exchange { .. } => c.play_idx == 0 && c.new_state_idx == state,
                    PlayView::Place { .. } => c.new_state_idx == if spec_plays_out(play, rack_len) {
                        0
                    } else {
                        MISSING
                    },
                }
            }
    }

    /// What holds of a side's child plays holds of them in a solver with
    /// the same tables.
    pub(crate) proof fn lemma_side_valued_same(
        &self,
        other: &EndgameSolver,
        state: usize,
        whose: u8,
        candidates: Seq<Play>,
        lo: int,
        hi: int,
        opp_lo: int,
        opp_hi: int,
    )
        requires
            other.spec_side_valued(state, whose, candidates, lo, hi, opp_lo, opp_hi),
            self.same_start(other),
            self.work_buffer.states == other.work_buffer.states,
            self.work_buffer.plays == other.work_buffer.plays,
            self.work_buffer.child_plays == other.work_buffer.child_plays,
        ensures
            self.spec_side_valued(state, whose, candidates, lo, hi, opp_lo, opp_hi),
    {
        reveal(EndgameSolver::spec_side_valued);
        assert(self.spec_candidate_ids(candidates) =~= other.spec_candidate_ids(candidates));
    }

    /// The candidates keep their numbers when plays are added.
    pub(crate) proof fn lemma_candidate_ids_kept(&self, old: &EndgameSolver, candidates: Seq<Play>)
        requires
            old.work_buffer.plays.wf(),
            self.work_buffer.plays.wf(),
            self.work_buffer.plays.extends(&old.work_buffer.plays),
            forall|k: int|
                0 <= k < candidates.len() ==> old.work_buffer.plays.spec_find(
                    (#[trigger] candidates[k])@,
                ) is Some,
        ensures
            self.spec_candidate_ids(candidates) == old.spec_candidate_ids(candidates),
            forall|k: int|
                0 <= k < candidates.len() ==> self.work_buffer.plays.spec_find(
                    (#[trigger] candidates[k])@,
                ) is Some,
    {
        assert forall|k: int| 0 <= k < candidates.len() implies self.work_buffer.plays.spec_find(
            (#[trigger] candidates[k])@,
        ) == old.work_buffer.plays.spec_find(candidates[k]@) by {
            let play = candidates[k]@;
            assert(old.work_buffer.plays.spec_find(play) is Some);
            if play is Place {
                let i = old.work_buffer.plays.spec_find(play).unwrap();
                assert(1 <= i < old.work_buffer.plays.plays@.len()
                    && old.work_buffer.plays.plays@[i]@ == play);
                assert(self.work_buffer.plays.plays@[i]@ == old.work_buffer.plays.plays@[i]@);
                self.work_buffer.plays.lemma_find(play, i);
            }
        }
        assert(self.spec_candidate_ids(candidates) =~= old.spec_candidate_ids(candidates));
    }

    /// Fresh children stay what they are when plays are added and other
    /// child plays change.
    pub(crate) proof fn lemma_children_entered_kept(
        &self,
        old: &EndgameSolver,
        state: usize,
        candidates: Seq<Play>,
        lo: int,
        hi: int,
    )
        requires
            old.spec_children_entered(state, candidates, lo, hi),
            old.work_buffer.plays.wf(),
            self.work_buffer.plays.wf(),
            self.work_buffer.plays.extends(&old.work_buffer.plays),
            self.work_buffer.child_plays@.len() >= old.work_buffer.child_plays@.len(),
            forall|i: int|
                lo <= i < hi ==> #[trigger] self.work_buffer.child_plays@[i]
                    == old.work_buffer.child_plays@[i],
        ensures
            self.spec_children_entered(state, candidates, lo, hi),
    {
        reveal(EndgameSolver::spec_children_entered);
        assert forall|i: int| lo <= i < hi implies self.spec_fresh(
            state,
            #[trigger] self.work_buffer.child_plays@[i],
        ) by {
            let c = old.work_buffer.child_plays@[i];
            assert(old.spec_fresh(state, c));
            assert(self.work_buffer.plays.plays@[c.play_idx as int]@
                == old.work_buffer.plays.plays@[c.play_idx as int]@);
        }
        assert forall|i: int, j: int| lo <= i < j < hi implies spec_child_key(
            self.work_buffer.plays.plays@,
            #[trigger] self.work_buffer.child_plays@[i],
            true,
        ) >= spec_child_key(
            self.work_buffer.plays.plays@,
            #[trigger] self.work_buffer.child_plays@[j],
            true,
        ) by {
            let ci = old.work_buffer.child_plays@[i];
            let cj = old.work_buffer.child_plays@[j];
            assert(self.work_buffer.child_plays@[i] == ci);
            assert(self.work_buffer.child_plays@[j] == cj);
            assert(old.spec_fresh(state, ci));
            assert(old.spec_fresh(state, cj));
            assert(spec_child_key(old.work_buffer.plays.plays@, ci, true) >= spec_child_key(
                old.work_buffer.plays.plays@,
                cj,
                true,
            ));
            assert(self.work_buffer.plays.plays@[ci.play_idx as int]@
                == old.work_buffer.plays.plays@[ci.play_idx as int]@);
            assert(self.work_buffer.plays.plays@[cj.play_idx as int]@
                == old.work_buffer.plays.plays@[cj.play_idx as int]@);
        }
        self.lemma_candidate_ids_kept(old, candidates);
        assert(self.work_buffer.child_plays@.subrange(lo, hi)
            =~= old.work_buffer.child_plays@.subrange(lo, hi));
    }

    /// Appends the child plays of a side's candidates and puts them in
    /// descending order of score.
    pub(crate) fn enter_children(&mut self, state_idx: usize, whose: u8, candidates: &Vec<Play>)
        requires
            old(self).wf(),
            state_idx < old(self).work_buffer.states.states@.len(),
            whose <= 1,
            forall|k: int|
                0 <= k < candidates@.len() ==> spec_play_fits(
                    old(self).layout,
                    old(self).spec_board(state_idx as int),
                    old(self).spec_rack(state_idx as int, whose),
                    (#[trigger] candidates@[k])@,
                    whose,
                ),
        ensures
            final(self).wf(),
            final(self).extends(old(self)),
            final(self).tables_kept(old(self)),
            final(self).work_buffer.child_plays@.len() == old(self).work_buffer.child_plays@.len()
                + candidates@.len(),
            forall|i: int|
                0 <= i < old(self).work_buffer.child_plays@.len()
                    ==> #[trigger] final(self).work_buffer.child_plays@[i] == old(
                    self,
                ).work_buffer.child_plays@[i],
            final(self).pending_ok(
                state_idx as int,
                whose,
                old(self).work_buffer.child_plays@.len() as int,
                final(self).work_buffer.child_plays@.len() as int,
            ),
            final(self).spec_children_entered(
                state_idx,
                candidates@,
                old(self).work_buffer.child_plays@.len() as int,
                final(self).work_buffer.child_plays@.len() as int,
            ),
    {
        let ghost before = *self;
        let a = self.work_buffer.child_plays.len();
        self.add_candidates(state_idx, whose, candidates);
        let ghost added = *self;
        let b = self.work_buffer.child_plays.len();
        proof {
            before.lemma_stretches_below();
        }
        sort_children(&mut self.work_buffer.child_plays, a, b, &self.work_buffer.plays.plays, true);
        proof {
            self.lemma_wf_kept(&added, a as int);
            let r_old = added.work_buffer.child_plays@.subrange(a as int, b as int);
            let r_new = self.work_buffer.child_plays@.subrange(a as int, b as int);
            assert forall|i: int| a <= i < b implies self.child_ok(
                state_idx as int,
                whose,
                #[trigger] self.work_buffer.child_plays@[i],
            ) by {
                assert(self.work_buffer.child_plays@[i] == r_new[i - a]);
                let j = lemma_same_members(r_new, r_old, i - a);
                assert(r_old[j] == added.work_buffer.child_plays@[j + a]);
                self.lemma_child_ok_stable(
                    &added,
                    state_idx as int,
                    whose,
                    added.work_buffer.child_plays@[j + a],
                );
            }
            reveal(EndgameSolver::spec_children_entered);
            // each candidate is in the table, under the number of its child
            assert forall|k: int| 0 <= k < candidates@.len() implies self.work_buffer.plays.spec_find(
                (#[trigger] candidates@[k])@,
            ) == Some(added.work_buffer.child_plays@[a + k].play_idx as int) by {
                let c = added.work_buffer.child_plays@[a + k];
                assert(added.spec_fresh_child_of(state_idx, candidates@[k]@, c));
                if candidates@[k]@ is Place {
                    self.work_buffer.plays.lemma_find(candidates@[k]@, c.play_idx as int);
                }
            }
            assert(spec_child_ids(r_old) =~= self.spec_candidate_ids(candidates@));
            crate::children::lemma_ids_multiset(r_new, r_old);
            assert forall|i: int| a <= i < b implies self.spec_fresh(
                state_idx,
                #[trigger] self.work_buffer.child_plays@[i],
            ) by {
                assert(self.work_buffer.child_plays@[i] == r_new[i - a]);
                let j = lemma_same_members(r_new, r_old, i - a);
                assert(r_old[j] == added.work_buffer.child_plays@[a + j]);
                assert(added.spec_fresh_child_of(
                    state_idx,
                    candidates@[j]@,
                    added.work_buffer.child_plays@[a + j],
                ));
            }
        }
    }

    /// Fresh children that have been valued are the valued children of the
    /// candidates.
    pub(crate) proof fn lemma_side_valued(
        &self,
        pre: &EndgameSolver,
        post: &EndgameSolver,
        state: usize,
        whose: u8,
        candidates: Seq<Play>,
        lo: int,
        hi: int,
        opp_lo: int,
        opp_hi: int,
        map: Seq<Nearest>,
        rack_len: int,
        opp_rack_score: int,
    )
        requires
            pre.spec_children_entered(state, candidates, lo, hi),
            pre.work_buffer.plays.wf(),
            0 <= opp_lo <= opp_hi <= pre.work_buffer.child_plays@.len(),
            self.same_start(pre),
            self.work_buffer.states == pre.work_buffer.states,
            self.work_buffer.plays == pre.work_buffer.plays,
            post.work_buffer.plays == pre.work_buffer.plays,
            self.work_buffer.child_plays@.len() == pre.work_buffer.child_plays@.len(),
            post.work_buffer.child_plays@.len() == pre.work_buffer.child_plays@.len(),
            map == spec_blocking_map(self.layout, self.spec_board(state as int)),
            rack_len == self.spec_rack(state as int, whose).len(),
            opp_rack_score == spec_rack_score(
                self.alphabet,
                self.spec_rack(state as int, (1 - whose) as u8),
            ),
            forall|i: int|
                lo <= i < hi ==> {
                    let c0 = pre.work_buffer.child_plays@[i];
                    let c = #[trigger] post.work_buffer.child_plays@[i];
                    let play = pre.work_buffer.plays.plays@[c0.play_idx as int]@;
                    &&& c.play_idx == c0.play_idx
                    &&& c.valuation == spec_valuation(
                        pre.layout,
                        map,
                        pre.work_buffer.plays.plays@,
                        play,
                        rack_len,
                        opp_rack_score,
                        pre.work_buffer.child_plays@.subrange(opp_lo, opp_hi),
                    )
                    &&& c.new_state_idx == if spec_plays_out(play, rack_len) {
                        0
                    } else {
                        c0.new_state_idx
                    }
                },
            forall|i: int|
                lo <= i < hi ==> #[trigger] self.work_buffer.child_plays@[i]
                    == post.work_buffer.child_plays@[i],
            forall|i: int|
                opp_lo <= i < opp_hi ==> (#[trigger] self.work_buffer.child_plays@[i]).play_idx
                    == pre.work_buffer.child_plays@[i].play_idx,
        ensures
            self.spec_side_valued(state, whose, candidates, lo, hi, opp_lo, opp_hi),
    {
        reveal(EndgameSolver::spec_children_entered);
        reveal(EndgameSolver::spec_side_valued);
        let opp_then = pre.work_buffer.child_plays@.subrange(opp_lo, opp_hi);
        let opp_now = self.work_buffer.child_plays@.subrange(opp_lo, opp_hi);
        assert forall|k: int| 0 <= k < opp_then.len() implies (#[trigger] opp_then[k]).play_idx
            == opp_now[k].play_idx by {
            assert(opp_now[k] == self.work_buffer.child_plays@[opp_lo + k]);
        }
        assert forall|i: int, j: int| lo <= i < j < hi implies spec_child_key(
            self.work_buffer.plays.plays@,
            #[trigger] self.work_buffer.child_plays@[i],
            true,
        ) >= spec_child_key(
            self.work_buffer.plays.plays@,
            #[trigger] self.work_buffer.child_plays@[j],
            true,
        ) by {
            assert(post.work_buffer.child_plays@[i].play_idx
                == pre.work_buffer.child_plays@[i].play_idx);
            assert(post.work_buffer.child_plays@[j].play_idx
                == pre.work_buffer.child_plays@[j].play_idx);
            assert(spec_child_key(
                pre.work_buffer.plays.plays@,
                pre.work_buffer.child_plays@[i],
                true,
            ) >= spec_child_key(
                pre.work_buffer.plays.plays@,
                pre.work_buffer.child_plays@[j],
                true,
            ));
        }
        let ids_then = spec_child_ids(pre.work_buffer.child_plays@.subrange(lo, hi));
        let ids_now = spec_child_ids(self.work_buffer.child_plays@.subrange(lo, hi));
        assert forall|k: int| 0 <= k < ids_then.len() implies ids_then[k] == ids_now[k] by {
            assert(self.work_buffer.child_plays@[lo + k] == post.work_buffer.child_plays@[lo + k]);
            assert(post.work_buffer.child_plays@[lo + k].play_idx
                == pre.work_buffer.child_plays@[lo + k].play_idx);
        }
        assert(ids_then =~= ids_now);
        assert(self.spec_candidate_ids(candidates) =~= pre.spec_candidate_ids(candidates));
        assert forall|i: int| lo <= i < hi implies {
            let c = #[trigger] self.work_buffer.child_plays@[i];
            let play = self.work_buffer.plays.plays@[c.play_idx as int]@;
            &&& c.play_idx < self.work_buffer.plays.plays@.len()
            &&& c.valuation == spec_valuation(
                self.layout,
                map,
                self.work_buffer.plays.plays@,
                play,
                rack_len,
                opp_rack_score,
                opp_now,
            )
            &&& match play {
                PlayView::Exchange { .. } => c.play_idx == 0 && c.new_state_idx == state,
                PlayView::Place { .. } => c.new_state_idx == if spec_plays_out(play, rack_len) {
                    0
                } else {
                    MISSING
                },
            }
        } by {
            let c0 = pre.work_buffer.child_plays@[i];
            let c = post.work_buffer.child_plays@[i];
            let play = pre.work_buffer.plays.plays@[c0.play_idx as int]@;
            assert(pre.spec_fresh(state, c0));
            assert(c.play_idx == c0.play_idx);
            assert(self.work_buffer.child_plays@[i] == c);
            lemma_valuation_same_plays(
                self.layout,
                map,
                self.work_buffer.plays.plays@,
                play,
                rack_len,
                opp_rack_score,
                opp_then,
                opp_now,
            );
        }
    }

    /// Enters the candidate plays of both sides as the child plays of a
    /// state that has none yet, and gives the state a fresh evaluation. Each
    /// side's child plays stand in descending order of score, each with its
    /// static valuation.
    pub(crate) fn expand(&mut self, state_idx: usize, plays0: &Vec<Play>, plays1: &Vec<Play>)
        requires
            old(self).wf(),
            state_idx < old(self).work_buffer.states.states@.len(),
            !old(self).work_buffer.state_eval@.contains_key(state_idx),
            old(self).spec_candidates_ok(state_idx as int, 0, plays0@),
            old(self).spec_candidates_ok(state_idx as int, 1, plays1@),
            forall|i: int|
                0 <= i < old(self).work_buffer.stack@.len() ==> (
                #[trigger] old(self).work_buffer.stack@[i]).phase != Phase::Expand,
        ensures
            final(self).wf(),
            final(self).extends(old(self)),
            final(self).same_start(old(self)),
            final(self).work_buffer.states == old(self).work_buffer.states,
            final(self).work_buffer.stack == old(self).work_buffer.stack,
            final(self).work_buffer.returned == old(self).work_buffer.returned,
            final(self).work_buffer.searching == old(self).work_buffer.searching,
            final(self).work_buffer.max_depth == old(self).work_buffer.max_depth,
            final(self).work_buffer.player_idx == old(self).work_buffer.player_idx,
            final(self).work_buffer.old_num_states == old(self).work_buffer.old_num_states,
            final(self).work_buffer.state_eval@.dom() == old(self).work_buffer.state_eval@.dom().insert(
                state_idx,
            ),
            forall|s: usize| #[trigger]
                old(self).work_buffer.state_eval@.contains_key(s)
                    ==> final(self).work_buffer.state_eval@[s] == old(self).work_buffer.state_eval@[s],
            final(self).work_buffer.state_eval@[state_idx].best_place_move@ == seq![
                StateSideEval::spec_new(),
                StateSideEval::spec_new(),
            ],
            final(self).work_buffer.state_eval@[state_idx].best_move@ == seq![
                StateSideEval::spec_new(),
                StateSideEval::spec_new(),
            ],
            final(self).work_buffer.state_eval@[state_idx].child_play_idxs@ == seq![
                old(self).work_buffer.child_plays@.len() as usize,
                (old(self).work_buffer.child_plays@.len() + plays0@.len()) as usize,
                (old(self).work_buffer.child_plays@.len() + plays0@.len() + plays1@.len()) as usize,
            ],
            final(self).work_buffer.child_plays@.len() == old(self).work_buffer.child_plays@.len()
                + plays0@.len() + plays1@.len(),
            forall|i: int|
                0 <= i < old(self).work_buffer.child_plays@.len()
                    ==> #[trigger] final(self).work_buffer.child_plays@[i] == old(
                    self,
                ).work_buffer.child_plays@[i],
            final(self).spec_side_valued(
                state_idx,
                0,
                plays0@,
                final(self).spec_range(state_idx, 0).0,
                final(self).spec_range(state_idx, 0).1,
                final(self).spec_range(state_idx, 1).0,
                final(self).spec_range(state_idx, 1).1,
            ),
            final(self).spec_side_valued(
                state_idx,
                1,
                plays1@,
                final(self).spec_range(state_idx, 1).0,
                final(self).spec_range(state_idx, 1).1,
                final(self).spec_range(state_idx, 0).0,
                final(self).spec_range(state_idx, 0).1,
            ),
    {
        let ghost before = *self;
        proof {
            reveal(position_ok);
            crate::position::lemma_board_after_len(self.board_tiles@, self.chain(state_idx as int));
            lemma_position_ok_len(
                self.layout,
                self.board_tiles@,
                self.rack0@,
                self.rack1@,
                self.chain(state_idx as int),
            );
        }
        let pos = reconstruct(
            &self.work_buffer.states,
            &self.board_tiles,
            &self.rack0,
            &self.rack1,
            state_idx,
        );
        let map = blocking_map(&self.layout, &pos.board_tiles);
        let score0 = self.alphabet.rack_score(pos.rack0.as_slice());
        let score1 = self.alphabet.rack_score(pos.rack1.as_slice());
        proof {
            lemma_rack_score_bounds(self.alphabet, pos.rack0@);
            lemma_rack_score_bounds(self.alphabet, pos.rack1@);
            before.lemma_stretches_below();
        }
        let a = self.work_buffer.child_plays.len();
        self.enter_children(state_idx, 0, plays0);
        let ghost mid = *self;
        let b = self.work_buffer.child_plays.len();
        proof {
            assert forall|k: int| 0 <= k < plays1@.len() implies spec_play_fits(
                self.layout,
                self.spec_board(state_idx as int),
                self.spec_rack(state_idx as int, 1),
                (#[trigger] plays1@[k])@,
                1,
            ) by {
                assert(spec_play_fits(
                    before.layout,
                    before.spec_board(state_idx as int),
                    before.spec_rack(state_idx as int, 1),
                    plays1@[k]@,
                    1,
                ));
            }
        }
        self.enter_children(state_idx, 1, plays1);
        let c = self.work_buffer.child_plays.len();
        let ghost entered = *self;
        proof {
            entered.lemma_pending_kept(&mid, state_idx as int, 0, a as int, b as int);
            assert(entered.stretches_below(a as int)) by {
                assert(entered.work_buffer.state_eval == before.work_buffer.state_eval);
            }
            entered.lemma_children_entered_kept(&mid, state_idx, plays0@, a as int, b as int);
            assert(a < b && b < c) by {
                let k0 = choose|k: int| 0 <= k < plays0@.len() && (#[trigger] plays0@[k])@ is Exchange;
                let k1 = choose|k: int| 0 <= k < plays1@.len() && (#[trigger] plays1@[k])@ is Exchange;
            }
        }
        self.fill_valuations(state_idx, 0, a, b, b, c, &map, pos.rack0.len(), score1);
        let ghost valued0 = *self;
        proof {
            valued0.lemma_children_entered_kept(&entered, state_idx, plays1@, b as int, c as int);
        }
        self.fill_valuations(state_idx, 1, b, c, a, b, &map, pos.rack1.len(), score0);
        let ghost valued = *self;
        let ev = StateEval::new(a, b, c);
        self.work_buffer.state_eval.insert(state_idx, ev);
        proof {
            self.lemma_expanded(&valued, state_idx, a, b, c);
            assert(self.work_buffer.state_eval@.dom() =~= before.work_buffer.state_eval@.dom().insert(
                state_idx,
            ));
            assert(self.spec_board(state_idx as int) == pos.board_tiles@);
            assert(self.spec_rack(state_idx as int, 0) == pos.rack0@);
            assert(self.spec_rack(state_idx as int, 1) == pos.rack1@);
            assert(self.spec_range(state_idx, 0) == (a as int, b as int));
            assert(self.spec_range(state_idx, 1) == (b as int, c as int));
            self.lemma_side_valued(
                &entered,
                &valued0,
                state_idx,
                0,
                plays0@,
                a as int,
                b as int,
                b as int,
                c as int,
                map@,
                pos.rack0@.len() as int,
                score1 as int,
            );
            self.lemma_side_valued(
                &valued0,
                &valued,
                state_idx,
                1,
                plays1@,
                b as int,
                c as int,
                a as int,
                b as int,
                map@,
                pos.rack1@.len() as int,
                score0 as int,
            );
        }
    }

    /// The invariant holds when a state whose child plays are in order
    /// gets its fresh evaluation.
    pub(crate) proof fn lemma_expanded(
        &self,
        valued: &EndgameSolver,
        state_idx: usize,
        a: usize,
        b: usize,
        c: usize,
    )
        requires
            valued.wf(),
            state_idx < valued.work_buffer.states.states@.len(),
            !valued.work_buffer.state_eval@.contains_key(state_idx),
            a < b < c <= valued.work_buffer.child_plays@.len(),
            valued.pending_ok(state_idx as int, 0, a as int, b as int),
            valued.pending_ok(state_idx as int, 1, b as int, c as int),
            valued.stretches_below(a as int),
            forall|i: int|
                0 <= i < valued.work_buffer.stack@.len() ==> (
                #[trigger] valued.work_buffer.stack@[i]).phase != Phase::Expand,
            self.same_start(valued),
            self.work_buffer.states == valued.work_buffer.states,
            self.work_buffer.plays == valued.work_buffer.plays,
            self.work_buffer.child_plays == valued.work_buffer.child_plays,
            self.work_buffer.stack == valued.work_buffer.stack,
            self.work_buffer.returned == valued.work_buffer.returned,
            self.work_buffer.searching == valued.work_buffer.searching,
            self.work_buffer.max_depth == valued.work_buffer.max_depth,
            self.work_buffer.player_idx == valued.work_buffer.player_idx,
            self.work_buffer.state_eval@.contains_key(state_idx),
            self.work_buffer.state_eval@ == valued.work_buffer.state_eval@.insert(
                state_idx,
                self.work_buffer.state_eval@[state_idx],
            ),
            self.work_buffer.state_eval@[state_idx].best_place_move@ == seq![
                StateSideEval::spec_new(),
                StateSideEval::spec_new(),
            ],
            self.work_buffer.state_eval@[state_idx].best_move@ == seq![
                StateSideEval::spec_new(),
                StateSideEval::spec_new(),
            ],
            self.work_buffer.state_eval@[state_idx].child_play_idxs@ == seq![a, b, c],
        ensures
            self.wf(),
            self.extends(valued),
    {
        assert forall|s: usize| #[trigger] self.work_buffer.state_eval@.contains_key(s) implies s
            < self.work_buffer.states.states@.len() && self.eval_ok(
            s as int,
            self.work_buffer.state_eval@[s],
        ) by {
            let e2 = self.work_buffer.state_eval@[s];
            if s == state_idx {
                assert forall|i: int| a <= i < b implies self.child_ok(
                    s as int,
                    0,
                    #[trigger] self.work_buffer.child_plays@[i],
                ) by {
                    self.lemma_child_ok_stable(
                        valued,
                        s as int,
                        0,
                        valued.work_buffer.child_plays@[i],
                    );
                }
                assert forall|i: int| b <= i < c implies self.child_ok(
                    s as int,
                    1,
                    #[trigger] self.work_buffer.child_plays@[i],
                ) by {
                    self.lemma_child_ok_stable(
                        valued,
                        s as int,
                        1,
                        valued.work_buffer.child_plays@[i],
                    );
                }
                reveal(EndgameSolver::side_ok);
                assert(self.work_buffer.plays.plays.len() == self.work_buffer.plays.plays@.len());
                assert(e2.best_place_move@[0] == StateSideEval::spec_new());
                assert(e2.best_place_move@[1] == StateSideEval::spec_new());
                assert(e2.best_move@[0] == StateSideEval::spec_new());
                assert(e2.best_move@[1] == StateSideEval::spec_new());
                assert(e2.child_play_idxs@[0] == a);
                assert(e2.child_play_idxs@[1] == b);
                assert(e2.child_play_idxs@[2] == c);
            } else {
                assert(valued.work_buffer.state_eval@.contains_key(s));
                assert(valued.eval_ok(s as int, e2));
                self.lemma_sides_ok_stable(valued, s as int, e2);
                assert forall|i: int|
                    e2.child_play_idxs@[0] <= i < e2.child_play_idxs@[1] implies self.child_ok(
                    s as int,
                    0,
                    #[trigger] self.work_buffer.child_plays@[i],
                ) by {
                    self.lemma_child_ok_stable(
                        valued,
                        s as int,
                        0,
                        valued.work_buffer.child_plays@[i],
                    );
                }
                assert forall|i: int|
                    e2.child_play_idxs@[1] <= i < e2.child_play_idxs@[2] implies self.child_ok(
                    s as int,
                    1,
                    #[trigger] self.work_buffer.child_plays@[i],
                ) by {
                    self.lemma_child_ok_stable(
                        valued,
                        s as int,
                        1,
                        valued.work_buffer.child_plays@[i],
                    );
                }
            }
        }
        assert forall|s: usize, t: usize|
            #![trigger self.work_buffer.state_eval@.contains_key(s), self.work_buffer.state_eval@.contains_key(t)]
            self.work_buffer.state_eval@.contains_key(s) && self.work_buffer.state_eval@.contains_key(
                t,
            ) && s != t implies self.work_buffer.state_eval@[s].child_play_idxs@[2]
            <= self.work_buffer.state_eval@[t].child_play_idxs@[0]
            || self.work_buffer.state_eval@[t].child_play_idxs@[2]
            <= self.work_buffer.state_eval@[s].child_play_idxs@[0] by {
            if s != state_idx && t != state_idx {
                assert(valued.work_buffer.state_eval@.contains_key(s));
                assert(valued.work_buffer.state_eval@.contains_key(t));
            } else if s == state_idx {
                assert(valued.work_buffer.state_eval@.contains_key(t));
            } else {
                assert(valued.work_buffer.state_eval@.contains_key(s));
            }
        }
        self.lemma_states_ok_same(valued);
        self.lemma_stack_stable(valued);
    }
}

} // verus!
