//! The search: iterative-deepening negamax with a window, a transposition
//! table and a pass that ends the game when it answers a pass.
//!
//! The search does not generate plays. It runs as a machine of suspended
//! searches: `step` takes it one decision further and says what it needs,
//! and `supply_moves` hands it the plays of the position it asked about.

use crate::children::ChildPlay;
use crate::placement::same_placements;
use crate::play::{move_score, spec_play_placements, Play};
use crate::position::reconstruct;
use crate::solver::{EndgameSolver, Frame, Phase};
use crate::transposition::{
    probe, spec_probe, Probe, SearchResult, StateSideEval, EQUITY_INFINITY, EQUITY_NEG_INFINITY,
    MISSING,
};
use vstd::prelude::*;

verus! {

/// What the search says after a step.
#[derive(Debug)]
pub enum Action {
    /// The search goes on: step again.
    Continue,
    /// The search needs the plays of both sides in this position: supply
    /// them, then step again.
    NeedMoves { state_idx: usize, board_tiles: Vec<u8>, rack0: Vec<u8>, rack1: Vec<u8> },
    /// An iteration has ended with this valuation of the root. If it is not
    /// the last, the next one, one ply deeper, has begun.
    DepthDone { depth: i8, valuation: i64, finished: bool },
    /// No evaluation is under way.
    Idle,
}

/// A frame for a search that has not begun.
pub open spec fn spec_fresh_frame(
    state_idx: usize,
    player_idx: u8,
    depth: i8,
    alpha: i64,
    beta: i64,
    just_passed: bool,
) -> Frame {
    Frame {
        state_idx,
        player_idx,
        depth,
        alpha,
        beta,
        just_passed,
        alpha_orig: alpha,
        beta_orig: beta,
        pass_valuation: 0,
        low_idx: 0,
        high_idx: 0,
        cursor: 0,
        best_idx: 0,
        pass_idx: 0,
        awaited: 0,
        child_score: 0,
        phase: Phase::Enter,
    }
}

/// A frame for a search that has not begun.
pub fn fresh_frame(
    state_idx: usize,
    player_idx: u8,
    depth: i8,
    alpha: i64,
    beta: i64,
    just_passed: bool,
) -> (f: Frame)
    ensures
        f == spec_fresh_frame(state_idx, player_idx, depth, alpha, beta, just_passed),
{
    Frame {
        state_idx,
        player_idx,
        depth,
        alpha,
        beta,
        just_passed,
        alpha_orig: alpha,
        beta_orig: beta,
        pass_valuation: 0,
        low_idx: 0,
        high_idx: 0,
        cursor: 0,
        best_idx: 0,
        pass_idx: 0,
        awaited: 0,
        child_score: 0,
        phase: Phase::Enter,
    }
}

/// What the search `g` has found when it ends with `best` as its best child.
pub open spec fn spec_found(g: Frame, best: ChildPlay) -> SearchResult {
    SearchResult {
        player_idx: g.player_idx,
        state_idx: g.state_idx,
        depth: g.depth,
        alpha_orig: g.alpha_orig,
        beta_orig: g.beta_orig,
        beta: g.beta,
        pass_valuation: g.pass_valuation,
        just_passed: g.just_passed,
        best_valuation: best.valuation,
        best_play_idx: best.play_idx,
        best_new_state_idx: best.new_state_idx,
        best_is_pass: g.best_idx == g.pass_idx,
    }
}

impl EndgameSolver {
    /// All but the suspended searches and the value handed down is as it was.
    pub open spec fn only_stack_changed(&self, old: &EndgameSolver) -> bool {
        &&& self.same_start(old)
        &&& self.work_buffer.states == old.work_buffer.states
        &&& self.work_buffer.plays == old.work_buffer.plays
        &&& self.work_buffer.state_eval == old.work_buffer.state_eval
        &&& self.work_buffer.child_plays == old.work_buffer.child_plays
        &&& self.work_buffer.searching == old.work_buffer.searching
        &&& self.work_buffer.max_depth == old.work_buffer.max_depth
        &&& self.work_buffer.player_idx == old.work_buffer.player_idx
        &&& self.work_buffer.old_num_states == old.work_buffer.old_num_states
    }

    /// The innermost suspended search.
    pub open spec fn spec_top(&self) -> Frame {
        self.work_buffer.stack@.last()
    }

    /// With the same tables, all of the invariant but the suspended searches holds on.
    proof fn lemma_tables_same(&self, old: &EndgameSolver)
        requires
            old.wf(),
            self.only_stack_changed(old),
        ensures
            self.config_ok(),
            self.states_ok(),
            self.work_buffer.plays.wf(),
            self.evals_ok(),
            self.extends(old),
            forall|f: Frame| old.frame_ok(f) ==> #[trigger] self.frame_ok(f),
    {
        self.lemma_states_ok_same(old);
        self.lemma_evals_stable(old);
        assert forall|f: Frame| old.frame_ok(f) implies #[trigger] self.frame_ok(f) by {
            reveal(EndgameSolver::frame_ok);
            self.lemma_frame_stable(old, f);
        }
    }

    /// Replaces the innermost search by `f`, which does not wait for a value.
    fn set_top(&mut self, f: Frame)
        requires
            old(self).wf(),
            old(self).work_buffer.stack@.len() > 0,
            old(self).frame_ok(f),
            !Self::spec_waiting(f),
            f.state_idx == old(self).spec_top().state_idx,
        ensures
            final(self).wf(),
            final(self).extends(old(self)),
            final(self).only_stack_changed(old(self)),
            final(self).work_buffer.returned == old(self).work_buffer.returned,
            final(self).work_buffer.stack@ == old(self).work_buffer.stack@.drop_last().push(f),
    {
        let ghost before = *self;
        let n = self.work_buffer.stack.len();
        self.work_buffer.stack.set(n - 1, f);
        proof {
            assert(self.work_buffer.stack@ =~= before.work_buffer.stack@.drop_last().push(f));
            self.lemma_tables_same(&before);
            assert forall|i: int| 0 <= i < self.work_buffer.stack@.len() implies self.frame_ok(
                #[trigger] self.work_buffer.stack@[i],
            ) by {
                if i < n - 1 {
                    assert(before.frame_ok(before.work_buffer.stack@[i]));
                }
            }
            assert forall|i: int|
                0 <= i < self.work_buffer.stack@.len() - 1 implies #[trigger] Self::spec_linked(
                self.work_buffer.stack@,
                i,
            ) by {
                assert(Self::spec_linked(before.work_buffer.stack@, i));
            }
        }
    }

    /// Suspends the innermost search as `f`, which waits for the value of
    /// the search `callee`, and begins that search.
    fn call(&mut self, f: Frame, callee: Frame)
        requires
            old(self).wf(),
            old(self).work_buffer.stack@.len() > 0,
            old(self).frame_ok(f),
            old(self).frame_ok(callee),
            Self::spec_waiting(f),
            f.state_idx == old(self).spec_top().state_idx,
            callee.state_idx == f.awaited,
            callee.phase == Phase::Enter,
        ensures
            final(self).wf(),
            final(self).extends(old(self)),
            final(self).only_stack_changed(old(self)),
            final(self).work_buffer.returned == old(self).work_buffer.returned,
            final(self).work_buffer.stack@ == old(self).work_buffer.stack@.drop_last().push(f).push(
                callee,
            ),
    {
        let ghost before = *self;
        let n = self.work_buffer.stack.len();
        self.work_buffer.stack.set(n - 1, f);
        self.work_buffer.stack.push(callee);
        proof {
            assert(self.work_buffer.stack@ =~= before.work_buffer.stack@.drop_last().push(f).push(
                callee,
            ));
            self.lemma_tables_same(&before);
            assert forall|i: int| 0 <= i < self.work_buffer.stack@.len() implies self.frame_ok(
                #[trigger] self.work_buffer.stack@[i],
            ) by {
                if i < n - 1 {
                    assert(before.frame_ok(before.work_buffer.stack@[i]));
                }
            }
            assert forall|i: int|
                0 <= i < self.work_buffer.stack@.len() - 1 implies #[trigger] Self::spec_linked(
                self.work_buffer.stack@,
                i,
            ) by {
                if i < n - 1 {
                    assert(Self::spec_linked(before.work_buffer.stack@, i));
                }
            }
        }
    }

    /// Ends the innermost search with the value `v`.
    fn ret(&mut self, v: i64)
        requires
            old(self).wf(),
            old(self).work_buffer.stack@.len() > 0,
            -old(self).spec_bound(old(self).spec_top().state_idx as int) <= v,
            v <= old(self).spec_bound(old(self).spec_top().state_idx as int),
        ensures
            final(self).wf(),
            final(self).extends(old(self)),
            final(self).only_stack_changed(old(self)),
            final(self).work_buffer.returned == v,
            final(self).work_buffer.stack@ == old(self).work_buffer.stack@.drop_last(),
    {
        let ghost before = *self;
        let n = self.work_buffer.stack.len();
        proof {
            reveal(EndgameSolver::frame_ok);
            assert(before.frame_ok(before.work_buffer.stack@[n - 1]));
            before.lemma_bound_range(before.spec_top().state_idx as int);
        }
        self.work_buffer.stack.pop();
        self.work_buffer.returned = v;
        proof {
            assert(self.work_buffer.stack@ =~= before.work_buffer.stack@.drop_last());
            self.lemma_tables_same(&before);
            assert forall|i: int| 0 <= i < self.work_buffer.stack@.len() implies self.frame_ok(
                #[trigger] self.work_buffer.stack@[i],
            ) by {
                assert(before.frame_ok(before.work_buffer.stack@[i]));
            }
            assert forall|i: int|
                0 <= i < self.work_buffer.stack@.len() - 1 implies #[trigger] Self::spec_linked(
                self.work_buffer.stack@,
                i,
            ) by {
                assert(Self::spec_linked(before.work_buffer.stack@, i));
            }
            if n >= 2 {
                assert(Self::spec_linked(before.work_buffer.stack@, n - 2));
            }
        }
    }

    /// The frame `f` is in order but for where it goes on.
    pub open spec fn frame_fits(&self, f: Frame) -> bool {
        self.frame_ok(Frame { phase: Phase::Enter, ..f })
    }

    /// Nothing but the tables of the search may have changed, and those only grown.
    pub open spec fn search_kept(&self, old: &EndgameSolver) -> bool {
        &&& self.extends(old)
        &&& self.work_buffer.searching == old.work_buffer.searching
        &&& self.work_buffer.max_depth == old.work_buffer.max_depth
        &&& self.work_buffer.player_idx == old.work_buffer.player_idx
        &&& self.work_buffer.old_num_states == old.work_buffer.old_num_states
    }

    /// `action` asks for the plays of state `state_idx`, with its position.
    pub open spec fn spec_asks(&self, state_idx: usize, action: Action) -> bool {
        action matches Action::NeedMoves { state_idx: s, board_tiles, rack0, rack1 } && s
            == state_idx && board_tiles@ == self.spec_board(state_idx as int) && rack0@
            == self.spec_rack(state_idx as int, 0) && rack1@ == self.spec_rack(state_idx as int, 1)
    }

    /// The search `g` has ended, with the child plays `children`: what it
    /// found is recorded in the evaluation of its state, and the valuation
    /// of its best child is handed down.
    pub open spec fn spec_finished(
        &self,
        old: &EndgameSolver,
        children: Seq<ChildPlay>,
        g: Frame,
    ) -> bool {
        &&& self.search_kept(old)
        &&& self.work_buffer.states == old.work_buffer.states
        &&& self.work_buffer.plays == old.work_buffer.plays
        &&& self.work_buffer.child_plays@ == children
        &&& self.work_buffer.stack@ == old.work_buffer.stack@.drop_last()
        &&& self.work_buffer.returned == children[g.best_idx as int].valuation
        &&& self.work_buffer.state_eval@ == old.work_buffer.state_eval@.insert(
            g.state_idx,
            self.work_buffer.state_eval@[g.state_idx],
        )
        &&& old.work_buffer.state_eval@[g.state_idx].spec_recorded(
            spec_found(g, children[g.best_idx as int]),
            self.work_buffer.state_eval@[g.state_idx],
        )
    }

    /// The child at the cursor of the search `f` has been found to be worth
    /// `cv`. The child keeps that valuation. It becomes the best child if it
    /// is worth more than the best so far, and it raises the window's lower
    /// end if it is worth more than that. If the window closes, the search
    /// ends; else it goes on with the next child.
    pub open spec fn spec_applied(&self, old: &EndgameSolver, f: Frame, cv: i64) -> bool {
        let child = old.work_buffer.child_plays@[f.cursor as int];
        let children = old.work_buffer.child_plays@.update(
            f.cursor as int,
            ChildPlay { valuation: cv, ..child },
        );
        let best_idx = if cv > children[f.best_idx as int].valuation {
            f.cursor
        } else {
            f.best_idx
        };
        let alpha = if cv > f.alpha {
            cv
        } else {
            f.alpha
        };
        if cv > f.alpha && alpha >= f.beta {
            self.spec_finished(old, children, Frame { best_idx, alpha, ..f })
        } else {
            &&& self.search_kept(old)
            &&& self.work_buffer.states == old.work_buffer.states
            &&& self.work_buffer.plays == old.work_buffer.plays
            &&& self.work_buffer.state_eval == old.work_buffer.state_eval
            &&& self.work_buffer.returned == old.work_buffer.returned
            &&& self.work_buffer.child_plays@ == children
            &&& self.work_buffer.stack@ == old.work_buffer.stack@.drop_last().push(
                Frame {
                    best_idx,
                    alpha,
                    cursor: (f.cursor + 1) as usize,
                    phase: Phase::Search,
                    ..f
                },
            )
        }
    }

    /// The search `g`, which knows what a pass is worth, has looked its
    /// state up in the transposition table. Without an evaluation it asks
    /// for the plays of the state. A usable entry that answers the search
    /// ends it with the cached equity; else the search of the children is to
    /// begin, with the window that the entry leaves.
    pub open spec fn spec_probed(&self, old: &EndgameSolver, g: Frame, action: Action) -> bool {
        let g = Frame { alpha_orig: g.alpha, beta_orig: g.beta, ..g };
        &&& self.only_stack_changed(old)
        &&& if !old.work_buffer.state_eval@.contains_key(g.state_idx) {
            &&& self.spec_asks(g.state_idx, action)
            &&& self.work_buffer.returned == old.work_buffer.returned
            &&& self.work_buffer.stack@ == old.work_buffer.stack@.drop_last().push(
                Frame { phase: Phase::Expand, ..g },
            )
        } else {
            match spec_probe(
                old.work_buffer.state_eval@[g.state_idx].best_move@[g.player_idx as int],
                g.depth,
                g.alpha,
                g.beta,
            ) {
                Probe::Cutoff(v) => {
                    &&& action is Continue
                    &&& self.work_buffer.returned == v
                    &&& self.work_buffer.stack@ == old.work_buffer.stack@.drop_last()
                },
                Probe::Window(a, b) => {
                    &&& action is Continue
                    &&& self.work_buffer.returned == old.work_buffer.returned
                    &&& self.work_buffer.stack@ == old.work_buffer.stack@.drop_last().push(
                        Frame { alpha: a, beta: b, phase: Phase::Begin, ..g },
                    )
                },
            }
        }
    }

    /// The innermost search has begun. At depth 0 it has ended at once with
    /// the value of two passes. After a pass, to pass again ends the game:
    /// a pass is worth the value of two passes, and the state is looked up.
    /// Else the position after a pass is searched first: at the same depth,
    /// for the other side, with the window negated and swapped.
    pub open spec fn spec_entered(&self, old: &EndgameSolver, action: Action) -> bool {
        let f = old.spec_top();
        let value = old.spec_both_pass_value(f.state_idx as int, f.player_idx);
        if f.depth == 0 {
            &&& action is Continue
            &&& self.only_stack_changed(old)
            &&& self.work_buffer.stack@ == old.work_buffer.stack@.drop_last()
            &&& self.work_buffer.returned == value
        } else if f.just_passed {
            self.spec_probed(old, Frame { pass_valuation: value as i64, ..f }, action)
        } else {
            &&& action is Continue
            &&& self.only_stack_changed(old)
            &&& self.work_buffer.returned == old.work_buffer.returned
            &&& self.work_buffer.stack@ == old.work_buffer.stack@.drop_last().push(
                Frame { phase: Phase::PassDone, awaited: f.state_idx, ..f },
            ).push(
                spec_fresh_frame(
                    f.state_idx,
                    (1 - f.player_idx) as u8,
                    f.depth,
                    (-f.beta) as i64,
                    (-f.alpha) as i64,
                    true,
                ),
            )
        }
    }

    /// The value of the position after a pass has come back: a pass is worth
    /// its negation, and the state is looked up.
    pub open spec fn spec_passed(&self, old: &EndgameSolver, action: Action) -> bool {
        self.spec_probed(
            old,
            Frame { pass_valuation: (-old.work_buffer.returned) as i64, ..old.spec_top() },
            action,
        )
    }

    /// The search of the children has begun: the child plays of the side to
    /// move stand in descending order of valuation, and the first of them is
    /// at the cursor.
    pub open spec fn spec_begun(&self, old: &EndgameSolver) -> bool {
        let f = old.spec_top();
        let (lo, hi) = old.spec_range(f.state_idx, f.player_idx);
        &&& self.search_kept(old)
        &&& self.only_children_changed(&EndgameSolver {
            work_buffer: crate::solver::WorkBuffer {
                stack: self.work_buffer.stack,
                ..old.work_buffer
            },
            ..*old
        })
        &&& self.work_buffer.child_plays@.len() == old.work_buffer.child_plays@.len()
        &&& forall|i: int|
            0 <= i < lo || hi <= i < old.work_buffer.child_plays@.len()
                ==> #[trigger] self.work_buffer.child_plays@[i] == old.work_buffer.child_plays@[i]
        &&& self.work_buffer.child_plays@.subrange(lo, hi).to_multiset()
            == old.work_buffer.child_plays@.subrange(lo, hi).to_multiset()
        &&& crate::children::is_sorted_desc(
            self.work_buffer.plays.plays@,
            self.work_buffer.child_plays@,
            lo,
            hi,
            false,
        )
        &&& self.work_buffer.stack@ == old.work_buffer.stack@.drop_last().push(
            Frame {
                low_idx: lo as usize,
                high_idx: hi as usize,
                cursor: lo as usize,
                best_idx: lo as usize,
                pass_idx: lo as usize,
                phase: Phase::Search,
                ..f
            },
        )
    }

    /// The child at the cursor of the innermost search has been taken up.
    /// With no child left the search has ended. A pass is worth what was
    /// found for it, and the cursor moves on. A play that ends the game is
    /// worth its valuation. For any other play the state it leads to has
    /// been computed, if it was not known, and its search has begun: one ply
    /// less deep, for the other side, with the window negated and swapped.
    pub open spec fn spec_searched(&self, old: &EndgameSolver) -> bool {
        let f = old.spec_top();
        let child = old.work_buffer.child_plays@[f.cursor as int];
        let play = old.work_buffer.plays.plays@[child.play_idx as int]@;
        if f.cursor >= f.high_idx {
            self.spec_finished(old, old.work_buffer.child_plays@, f)
        } else if play is Exchange {
            &&& self.only_children_changed(&EndgameSolver {
                work_buffer: crate::solver::WorkBuffer {
                    stack: self.work_buffer.stack,
                    ..old.work_buffer
                },
                ..*old
            })
            &&& self.work_buffer.child_plays@ == old.work_buffer.child_plays@.update(
                f.cursor as int,
                ChildPlay { valuation: f.pass_valuation, ..child },
            )
            &&& self.work_buffer.stack@ == old.work_buffer.stack@.drop_last().push(
                Frame { pass_idx: f.cursor, cursor: (f.cursor + 1) as usize, ..f },
            )
        } else if child.new_state_idx == 0 {
            self.spec_applied(old, f, child.valuation)
        } else {
            let next = self.spec_top().state_idx;
            &&& self.search_kept(old)
            &&& self.work_buffer.plays == old.work_buffer.plays
            &&& self.work_buffer.state_eval == old.work_buffer.state_eval
            &&& self.work_buffer.returned == old.work_buffer.returned
            &&& if child.new_state_idx == MISSING {
                &&& same_placements(
                    self.chain(next as int),
                    old.chain(f.state_idx as int) + spec_play_placements(
                        old.layout,
                        play,
                        f.player_idx,
                    ),
                )
                &&& self.work_buffer.child_plays@ == old.work_buffer.child_plays@.update(
                    f.cursor as int,
                    ChildPlay { new_state_idx: next, ..child },
                )
            } else {
                &&& next == child.new_state_idx
                &&& self.work_buffer.states == old.work_buffer.states
                &&& self.work_buffer.child_plays == old.work_buffer.child_plays
            }
            &&& self.work_buffer.stack@ == old.work_buffer.stack@.drop_last().push(
                Frame {
                    phase: Phase::ChildDone,
                    awaited: next,
                    child_score: crate::play::spec_move_score(play),
                    ..f
                },
            ).push(
                spec_fresh_frame(
                    next,
                    (1 - f.player_idx) as u8,
                    (f.depth - 1) as i8,
                    (-f.beta) as i64,
                    (-f.alpha) as i64,
                    false,
                ),
            )
        }
    }

    /// The value of the child at the cursor has come back: the child is
    /// worth the score of its play less that value.
    pub open spec fn spec_child_returned(&self, old: &EndgameSolver) -> bool {
        self.spec_applied(
            old,
            old.spec_top(),
            (old.spec_top().child_score - old.work_buffer.returned) as i64,
        )
    }

    /// An iteration has ended. It is the last if it added no state or if no
    /// deeper one is possible; else the next has begun, one ply deeper, with
    /// the widest window.
    pub open spec fn spec_deepened(&self, old: &EndgameSolver, action: Action) -> bool {
        let finished = old.work_buffer.states.states@.len() == old.work_buffer.old_num_states
            || old.work_buffer.max_depth == i8::MAX;
        &&& action == (Action::DepthDone {
            depth: old.work_buffer.max_depth,
            valuation: old.work_buffer.returned,
            finished,
        })
        &&& self.same_start(old)
        &&& self.work_buffer.states == old.work_buffer.states
        &&& self.work_buffer.plays == old.work_buffer.plays
        &&& self.work_buffer.state_eval == old.work_buffer.state_eval
        &&& self.work_buffer.child_plays == old.work_buffer.child_plays
        &&& self.work_buffer.returned == old.work_buffer.returned
        &&& self.work_buffer.player_idx == old.work_buffer.player_idx
        &&& self.work_buffer.searching == !finished
        &&& if finished {
            &&& self.work_buffer.stack@ == old.work_buffer.stack@
            &&& self.work_buffer.max_depth == old.work_buffer.max_depth
            &&& self.work_buffer.old_num_states == old.work_buffer.old_num_states
        } else {
            &&& self.work_buffer.max_depth == old.work_buffer.max_depth + 1
            &&& self.work_buffer.old_num_states == old.work_buffer.states.states@.len()
            &&& self.work_buffer.stack@ == seq![
                spec_fresh_frame(
                    0,
                    old.work_buffer.player_idx,
                    (old.work_buffer.max_depth + 1) as i8,
                    EQUITY_NEG_INFINITY,
                    EQUITY_INFINITY,
                    false,
                ),
            ]
        }
    }

    /// What one step does: nothing if no evaluation is under way; else it
    /// ends or begins an iteration, or takes the innermost search one
    /// decision further.
    pub open spec fn spec_stepped(&self, old: &EndgameSolver, action: Action) -> bool {
        if !old.work_buffer.searching {
            action is Idle && *self == *old
        } else if old.work_buffer.stack@.len() == 0 {
            self.spec_deepened(old, action)
        } else {
            match old.spec_top().phase {
                Phase::Enter => self.spec_entered(old, action),
                Phase::PassDone => self.spec_passed(old, action),
                Phase::Expand => *self == *old && self.spec_asks(old.spec_top().state_idx, action),
                Phase::Begin => action is Continue && self.spec_begun(old),
                Phase::Search => action is Continue && self.spec_searched(old),
                Phase::ChildDone => action is Continue && self.spec_child_returned(old),
            }
        }
    }

    /// Negamax symmetry along the pass: a search that did not come here by
    /// a pass first searches the same state, at the same depth, for the
    /// other side, as after a pass, with the window negated and swapped.
    pub proof fn lemma_pass_is_searched_first(&self, old: &EndgameSolver, action: Action)
        requires
            old.wf(),
            self.spec_stepped(old, action),
            old.work_buffer.searching,
            old.work_buffer.stack@.len() > 0,
            old.spec_top().phase == Phase::Enter,
            old.spec_top().depth > 0,
            !old.spec_top().just_passed,
        ensures
            self.work_buffer.stack@.len() == old.work_buffer.stack@.len() + 1,
            self.spec_top().state_idx == old.spec_top().state_idx,
            self.spec_top().player_idx == 1 - old.spec_top().player_idx,
            self.spec_top().depth == old.spec_top().depth,
            self.spec_top().alpha == -old.spec_top().beta,
            self.spec_top().beta == -old.spec_top().alpha,
            self.spec_top().just_passed,
            self.work_buffer.stack@[old.work_buffer.stack@.len() - 1].phase == Phase::PassDone,
    {
        reveal(EndgameSolver::frame_ok);
        assert(old.frame_ok(old.work_buffer.stack@[old.work_buffer.stack@.len() - 1]));
    }

    /// And a pass is worth the negation of what that search returns.
    pub proof fn lemma_pass_is_worth_the_negation(&self, old: &EndgameSolver, action: Action)
        requires
            old.wf(),
            self.spec_stepped(old, action),
            old.work_buffer.searching,
            old.work_buffer.stack@.len() > 0,
            old.spec_top().phase == Phase::PassDone,
            self.work_buffer.stack@.len() == old.work_buffer.stack@.len(),
        ensures
            self.spec_top().pass_valuation == -old.work_buffer.returned,
    {
    }

    /// At depth 0 a search returns what two passes are worth and changes no table.
    pub proof fn lemma_leaf_is_both_pass_value(&self, old: &EndgameSolver, action: Action)
        requires
            self.spec_stepped(old, action),
            old.work_buffer.searching,
            old.work_buffer.stack@.len() > 0,
            old.spec_top().phase == Phase::Enter,
            old.spec_top().depth == 0,
        ensures
            self.work_buffer.returned == old.spec_both_pass_value(
                old.spec_top().state_idx as int,
                old.spec_top().player_idx,
            ),
            self.work_buffer.stack@ == old.work_buffer.stack@.drop_last(),
            self.work_buffer.states == old.work_buffer.states,
            self.work_buffer.plays == old.work_buffer.plays,
            self.work_buffer.state_eval == old.work_buffer.state_eval,
            self.work_buffer.child_plays == old.work_buffer.child_plays,
    {
    }

    /// An iteration that added no state is the last: the evaluation ends
    /// with its valuation, and no table changes.
    pub proof fn lemma_no_new_state_ends_the_evaluation(&self, old: &EndgameSolver, action: Action)
        requires
            self.spec_stepped(old, action),
            old.work_buffer.searching,
            old.work_buffer.stack@.len() == 0,
            old.work_buffer.states.states@.len() == old.work_buffer.old_num_states,
        ensures
            action == (Action::DepthDone {
                depth: old.work_buffer.max_depth,
                valuation: old.work_buffer.returned,
                finished: true,
            }),
            !self.work_buffer.searching,
            self.work_buffer.states == old.work_buffer.states,
            self.work_buffer.plays == old.work_buffer.plays,
            self.work_buffer.state_eval == old.work_buffer.state_eval,
            self.work_buffer.child_plays == old.work_buffer.child_plays,
    {
    }

    /// The child plays of the side to move of frame `f`.
    proof fn lemma_frame_children(&self, f: Frame, i: int)
        requires
            self.wf(),
            self.frame_ok(f),
            f.phase == Phase::Search || f.phase == Phase::ChildDone,
            f.low_idx <= i < f.high_idx,
        ensures
            self.work_buffer.state_eval@.contains_key(f.state_idx),
            (f.low_idx as int, f.high_idx as int) == self.spec_range(f.state_idx, f.player_idx),
            f.low_idx < f.high_idx <= self.work_buffer.child_plays@.len(),
            self.child_ok(f.state_idx as int, f.player_idx, self.work_buffer.child_plays@[i]),
            self.eval_ok(f.state_idx as int, self.work_buffer.state_eval@[f.state_idx]),
    {
        reveal(EndgameSolver::frame_ok);
        assert(self.eval_ok(f.state_idx as int, self.work_buffer.state_eval@[f.state_idx]));
    }

    /// Asks for the plays of a state.
    fn request_moves(&self, state_idx: usize) -> (action: Action)
        requires
            self.wf(),
            state_idx < self.work_buffer.states.states@.len(),
        ensures
            self.spec_asks(state_idx, action),
    {
        let pos = reconstruct(
            &self.work_buffer.states,
            &self.board_tiles,
            &self.rack0,
            &self.rack1,
            state_idx,
        );
        Action::NeedMoves {
            state_idx,
            board_tiles: pos.board_tiles,
            rack0: pos.rack0,
            rack1: pos.rack1,
        }
    }

    /// Records what the search `g` has found, and ends it with the
    /// valuation of its best child.
    fn finish(&mut self, g: Frame)
        requires
            old(self).wf(),
            old(self).work_buffer.stack@.len() > 0,
            g.state_idx == old(self).spec_top().state_idx,
            old(self).frame_ok(Frame { phase: Phase::Search, ..g }),
        ensures
            final(self).wf(),
            final(self).spec_finished(old(self), old(self).work_buffer.child_plays@, g),
    {
        let ghost before = *self;
        let ghost h = Frame { phase: Phase::Search, ..g };
        proof {
            reveal(EndgameSolver::frame_ok);
            self.lemma_frame_children(h, g.best_idx as int);
            reveal(EndgameSolver::child_ok);
            self.lemma_bound_range(g.state_idx as int);
        }
        let ev = *self.work_buffer.state_eval.get(&g.state_idx).unwrap();
        let best = self.work_buffer.child_plays[g.best_idx];
        let found = SearchResult {
            player_idx: g.player_idx,
            state_idx: g.state_idx,
            depth: g.depth,
            alpha_orig: g.alpha_orig,
            beta_orig: g.beta_orig,
            beta: g.beta,
            pass_valuation: g.pass_valuation,
            just_passed: g.just_passed,
            best_valuation: best.valuation,
            best_play_idx: best.play_idx,
            best_new_state_idx: best.new_state_idx,
            best_is_pass: g.best_idx == g.pass_idx,
        };
        let ev2 = ev.record(&found);
        proof {
            reveal(EndgameSolver::side_ok);
            assert(self.sides_ok(g.state_idx as int, ev));
            let play = self.work_buffer.plays.plays@[best.play_idx as int]@;
            if play is Place && best.new_state_idx != 0 && best.new_state_idx != MISSING {
                let ps = spec_play_placements(self.layout, play, g.player_idx);
                assert(same_placements(
                    self.chain(best.new_state_idx as int),
                    self.chain(g.state_idx as int) + ps,
                ));
                assert(ps.len() >= 1);
            }
            assert(found == spec_found(g, best));
        }
        self.put_eval(g.state_idx, ev2);
        let ghost mid = *self;
        self.ret(best.valuation);
        proof {
            assert(self.extends(&before)) by {
                assert(self.extends(&mid));
                assert(mid.extends(&before));
                assert forall|s: usize| #[trigger]
                    before.work_buffer.state_eval@.contains_key(
                        s,
                    ) implies self.work_buffer.state_eval@.contains_key(s)
                    && self.work_buffer.state_eval@[s].child_play_idxs
                    == before.work_buffer.state_eval@[s].child_play_idxs by {
                    assert(mid.work_buffer.state_eval@.contains_key(s));
                }
            }
        }
    }

    /// Takes the valuation `cv` of the child at the cursor of the search `f`
    /// into account.
    fn apply_value(&mut self, f: Frame, cv: i64)
        requires
            old(self).wf(),
            old(self).work_buffer.stack@.len() > 0,
            f.state_idx == old(self).spec_top().state_idx,
            old(self).frame_ok(Frame { phase: Phase::Search, ..f }),
            f.cursor < f.high_idx,
            -old(self).spec_bound(f.state_idx as int) <= cv <= old(self).spec_bound(
                f.state_idx as int,
            ),
        ensures
            final(self).wf(),
            final(self).spec_applied(old(self), f, cv),
    {
        let ghost before = *self;
        let ghost h = Frame { phase: Phase::Search, ..f };
        proof {
            reveal(EndgameSolver::frame_ok);
            self.lemma_frame_children(h, f.cursor as int);
            reveal(EndgameSolver::child_ok);
            self.lemma_bound_range(f.state_idx as int);
        }
        let child = self.work_buffer.child_plays[f.cursor];
        let updated = ChildPlay {
            play_idx: child.play_idx,
            new_state_idx: child.new_state_idx,
            valuation: cv,
        };
        self.set_child(f.state_idx, f.player_idx, f.cursor, updated);
        let ghost mid = *self;
        let mut g = f;
        if cv > self.work_buffer.child_plays[g.best_idx].valuation {
            g.best_idx = g.cursor;
        }
        if cv > g.alpha {
            g.alpha = cv;
            if g.alpha >= g.beta {
                self.finish(g);
                proof {
                    assert(self.extends(&before)) by {
                        assert forall|s: usize| #[trigger]
                            before.work_buffer.state_eval@.contains_key(
                                s,
                            ) implies self.work_buffer.state_eval@.contains_key(s)
                            && self.work_buffer.state_eval@[s].child_play_idxs
                            == before.work_buffer.state_eval@[s].child_play_idxs by {
                            assert(mid.work_buffer.state_eval@.contains_key(s));
                        }
                    }
                }
                return ;
            }
        }
        g.cursor = g.cursor + 1;
        g.phase = Phase::Search;
        self.set_top(g);
    }

    /// Looks the state of the search `g` up in the transposition table.
    fn do_probe(&mut self, g: Frame) -> (action: Action)
        requires
            old(self).wf(),
            old(self).work_buffer.stack@.len() > 0,
            g.state_idx == old(self).spec_top().state_idx,
            old(self).frame_fits(g),
            g.depth >= 1,
        ensures
            final(self).wf(),
            final(self).spec_probed(old(self), g, action),
    {
        let mut g = g;
        g.alpha_orig = g.alpha;
        g.beta_orig = g.beta;
        proof {
            reveal(EndgameSolver::frame_ok);
            self.lemma_bound_range(g.state_idx as int);
        }
        let cached = self.work_buffer.state_eval.get(&g.state_idx);
        match cached {
            Some(ev) => {
                let sse = ev.best_move[g.player_idx as usize];
                proof {
                    assert(self.eval_ok(g.state_idx as int, *ev));
                    reveal(EndgameSolver::side_ok);
                }
                match probe(&sse, g.depth, g.alpha, g.beta) {
                    Probe::Cutoff(v) => {
                        self.ret(v);
                        Action::Continue
                    },
                    Probe::Window(a, b) => {
                        g.alpha = a;
                        g.beta = b;
                        g.phase = Phase::Begin;
                        self.set_top(g);
                        Action::Continue
                    },
                }
            },
            None => {
                g.phase = Phase::Expand;
                self.set_top(g);
                self.request_moves(g.state_idx)
            },
        }
    }

    /// Begins the innermost search.
    fn do_enter(&mut self) -> (action: Action)
        requires
            old(self).wf(),
            old(self).work_buffer.stack@.len() > 0,
            old(self).spec_top().phase == Phase::Enter,
        ensures
            final(self).wf(),
            final(self).spec_entered(old(self), action),
    {
        let n = self.work_buffer.stack.len();
        let f = self.work_buffer.stack[n - 1];
        proof {
            reveal(EndgameSolver::frame_ok);
            assert(self.frame_ok(self.work_buffer.stack@[n - 1]));
            self.lemma_bound_range(f.state_idx as int);
        }
        if f.depth == 0 {
            let v = self.both_pass_value(f.state_idx, f.player_idx);
            self.ret(v);
            return Action::Continue;
        }
        if f.just_passed {
            let v = self.both_pass_value(f.state_idx, f.player_idx);
            let mut g = f;
            g.pass_valuation = v;
            return self.do_probe(g);
        }
        let mut g = f;
        g.phase = Phase::PassDone;
        g.awaited = f.state_idx;
        let callee = fresh_frame(f.state_idx, 1 - f.player_idx, f.depth, -f.beta, -f.alpha, true);
        self.call(g, callee);
        Action::Continue
    }

    /// Goes on after the search of the position after a pass.
    fn do_after_pass(&mut self) -> (action: Action)
        requires
            old(self).wf(),
            old(self).work_buffer.stack@.len() > 0,
            old(self).spec_top().phase == Phase::PassDone,
        ensures
            final(self).wf(),
            final(self).spec_passed(old(self), action),
    {
        let n = self.work_buffer.stack.len();
        let f = self.work_buffer.stack[n - 1];
        proof {
            reveal(EndgameSolver::frame_ok);
            assert(self.frame_ok(self.work_buffer.stack@[n - 1]));
            self.lemma_bound_range(f.state_idx as int);
        }
        let mut g = f;
        g.pass_valuation = -self.work_buffer.returned;
        self.do_probe(g)
    }

    /// Begins the search of the children of the innermost search.
    fn do_begin(&mut self)
        requires
            old(self).wf(),
            old(self).work_buffer.stack@.len() > 0,
            old(self).spec_top().phase == Phase::Begin,
        ensures
            final(self).wf(),
            final(self).spec_begun(old(self)),
    {
        let n = self.work_buffer.stack.len();
        let g = self.work_buffer.stack[n - 1];
        proof {
            reveal(EndgameSolver::frame_ok);
            assert(self.frame_ok(self.work_buffer.stack@[n - 1]));
        }
        self.sort_by_valuation(g.state_idx, g.player_idx);
        let ev = *self.work_buffer.state_eval.get(&g.state_idx).unwrap();
        let low = ev.child_play_idxs[g.player_idx as usize];
        let high = ev.child_play_idxs[g.player_idx as usize + 1];
        proof {
            assert(self.eval_ok(g.state_idx as int, ev));
        }
        let h = Frame {
            low_idx: low,
            high_idx: high,
            cursor: low,
            best_idx: low,
            pass_idx: low,
            phase: Phase::Search,
            ..g
        };
        self.set_top(h);
    }

    /// Goes on after the search of a child.
    fn do_after_child(&mut self)
        requires
            old(self).wf(),
            old(self).work_buffer.stack@.len() > 0,
            old(self).spec_top().phase == Phase::ChildDone,
        ensures
            final(self).wf(),
            final(self).spec_child_returned(old(self)),
    {
        let n = self.work_buffer.stack.len();
        let f = self.work_buffer.stack[n - 1];
        proof {
            reveal(EndgameSolver::frame_ok);
            assert(self.frame_ok(self.work_buffer.stack@[n - 1]));
            self.lemma_bound_range(f.state_idx as int);
            self.lemma_bound_range(f.awaited as int);
        }
        let cv = f.child_score as i64 - self.work_buffer.returned;
        self.apply_value(f, cv);
    }

    /// Takes up the child at the cursor of the innermost search.
    fn do_search_child(&mut self)
        requires
            old(self).wf(),
            old(self).work_buffer.stack@.len() > 0,
            old(self).spec_top().phase == Phase::Search,
        ensures
            final(self).wf(),
            final(self).spec_searched(old(self)),
    {
        let ghost before = *self;
        let n = self.work_buffer.stack.len();
        let f = self.work_buffer.stack[n - 1];
        proof {
            reveal(EndgameSolver::frame_ok);
            assert(self.frame_ok(self.work_buffer.stack@[n - 1]));
            self.lemma_bound_range(f.state_idx as int);
        }
        if f.cursor >= f.high_idx {
            self.finish(f);
            return ;
        }
        proof {
            self.lemma_frame_children(f, f.cursor as int);
            reveal(EndgameSolver::child_ok);
        }
        let child = self.work_buffer.child_plays[f.cursor];
        if self.work_buffer.plays.plays[child.play_idx].is_exchange() {
            let updated = ChildPlay {
                play_idx: child.play_idx,
                new_state_idx: child.new_state_idx,
                valuation: f.pass_valuation,
            };
            self.set_child(f.state_idx, f.player_idx, f.cursor, updated);
            let mut g = f;
            g.pass_idx = f.cursor;
            g.cursor = f.cursor + 1;
            self.set_top(g);
            return ;
        }
        if child.new_state_idx == 0 {
            self.apply_value(f, child.valuation);
            return ;
        }
        let mut ns = child.new_state_idx;
        if ns == MISSING {
            ns = self.get_new_state_idx(f.state_idx, f.player_idx, child.play_idx);
            let updated = ChildPlay {
                play_idx: child.play_idx,
                new_state_idx: ns,
                valuation: child.valuation,
            };
            proof {
                self.work_buffer.states.lemma_extends_chain(
                    &before.work_buffer.states,
                    f.state_idx as int,
                );
                self.lemma_child_ok_stable(&before, f.state_idx as int, f.player_idx, child);
            }
            self.set_child(f.state_idx, f.player_idx, f.cursor, updated);
        }
        let score = move_score(&self.work_buffer.plays.plays[child.play_idx]);
        let mut g = f;
        g.phase = Phase::ChildDone;
        g.awaited = ns;
        g.child_score = score;
        let callee = fresh_frame(ns, 1 - f.player_idx, f.depth - 1, -f.beta, -f.alpha, false);
        proof {
            self.work_buffer.states.lemma_extends_chain(
                &before.work_buffer.states,
                f.state_idx as int,
            );
            self.lemma_bound_range(ns as int);
            let play = self.work_buffer.plays.plays@[child.play_idx as int]@;
            let ps = spec_play_placements(self.layout, play, f.player_idx);
            assert(same_placements(self.chain(ns as int), self.chain(f.state_idx as int) + ps));
            assert(ps.len() >= 1);
        }
        let ghost mid = *self;
        self.call(g, callee);
        proof {
            assert(self.extends(&before)) by {
                assert(mid.extends(&before));
            }
        }
    }

    /// Begins an evaluation of the root for `player_idx`: iterative
    /// deepening from depth 1, each iteration a search of the root with the
    /// widest window. The evaluation runs by `step`.
    pub fn evaluate(&mut self, player_idx: u8)
        requires
            old(self).wf(),
            player_idx <= 1,
        ensures
            final(self).wf(),
            final(self).extends(old(self)),
            final(self).work_buffer.states == old(self).work_buffer.states,
            final(self).work_buffer.plays == old(self).work_buffer.plays,
            final(self).work_buffer.state_eval == old(self).work_buffer.state_eval,
            final(self).work_buffer.child_plays == old(self).work_buffer.child_plays,
            final(self).work_buffer.returned == old(self).work_buffer.returned,
            final(self).work_buffer.searching,
            final(self).work_buffer.max_depth == 1,
            final(self).work_buffer.player_idx == player_idx,
            final(self).work_buffer.old_num_states == old(self).work_buffer.states.states@.len(),
            final(self).work_buffer.stack@ == seq![
                spec_fresh_frame(0, player_idx, 1, EQUITY_NEG_INFINITY, EQUITY_INFINITY, false),
            ],
    {
        let ghost before = *self;
        self.work_buffer.stack.clear();
        self.work_buffer.searching = true;
        self.work_buffer.max_depth = 1;
        self.work_buffer.player_idx = player_idx;
        self.work_buffer.old_num_states = self.work_buffer.states.len();
        let root = fresh_frame(0, player_idx, 1, EQUITY_NEG_INFINITY, EQUITY_INFINITY, false);
        self.work_buffer.stack.push(root);
        proof {
            self.lemma_states_ok_same(&before);
            self.lemma_evals_stable(&before);
            self.lemma_bound_range(0);
            reveal(EndgameSolver::frame_ok);
            assert(self.work_buffer.stack@ =~= seq![root]);
        }
    }

    /// Takes the evaluation one decision further and says what comes next.
    pub fn step(&mut self) -> (action: Action)
        requires
            old(self).wf(),
        ensures
            final(self).wf(),
            final(self).extends(old(self)),
            final(self).spec_stepped(old(self), action),
    {
        if !self.work_buffer.searching {
            return Action::Idle;
        }
        let n = self.work_buffer.stack.len();
        if n == 0 {
            let ghost before = *self;
            let depth = self.work_buffer.max_depth;
            let valuation = self.work_buffer.returned;
            let finished = self.work_buffer.states.len() == self.work_buffer.old_num_states
                || depth == i8::MAX;
            if finished {
                self.work_buffer.searching = false;
            } else {
                self.work_buffer.max_depth = depth + 1;
                self.work_buffer.old_num_states = self.work_buffer.states.len();
                let root = fresh_frame(
                    0,
                    self.work_buffer.player_idx,
                    depth + 1,
                    EQUITY_NEG_INFINITY,
                    EQUITY_INFINITY,
                    false,
                );
                self.work_buffer.stack.push(root);
                proof {
                    assert(self.work_buffer.stack@ =~= seq![root]);
                }
            }
            proof {
                self.lemma_states_ok_same(&before);
                self.lemma_evals_stable(&before);
                self.lemma_bound_range(0);
                reveal(EndgameSolver::frame_ok);
            }
            return Action::DepthDone { depth, valuation, finished };
        }
        let phase = self.work_buffer.stack[n - 1].phase;
        proof {
            reveal(EndgameSolver::frame_ok);
            assert(self.frame_ok(self.work_buffer.stack@[n - 1]));
        }
        match phase {
            Phase::Enter => self.do_enter(),
            Phase::PassDone => self.do_after_pass(),
            Phase::Expand => self.request_moves(self.work_buffer.stack[n - 1].state_idx),
            Phase::Begin => {
                self.do_begin();
                Action::Continue
            },
            Phase::Search => {
                self.do_search_child();
                Action::Continue
            },
            Phase::ChildDone => {
                self.do_after_child();
                Action::Continue
            },
        }
    }

    /// The plays of both sides have become the child plays of the state
    /// that the innermost search asked about: the state has its fresh
    /// evaluation, each side's child plays are the valued children of its
    /// candidates, and the search of the children is to begin.
    pub open spec fn spec_supplied(
        &self,
        old: &EndgameSolver,
        plays0: Seq<Play>,
        plays1: Seq<Play>,
    ) -> bool {
        &&& self.search_kept(old)
        &&& self.work_buffer.states == old.work_buffer.states
        &&& self.work_buffer.returned == old.work_buffer.returned
        &&& self.work_buffer.stack@ == old.work_buffer.stack@.drop_last().push(
            Frame { phase: Phase::Begin, ..old.spec_top() }
        )
        &&& self.work_buffer.state_eval@.dom() == old.work_buffer.state_eval@.dom().insert(
            old.spec_top().state_idx
        )
        &&& self.work_buffer.state_eval@[old.spec_top().state_idx].child_play_idxs@
            == seq![
            old.work_buffer.child_plays@.len() as usize,
            (old.work_buffer.child_plays@.len() + plays0.len()) as usize,
            (old.work_buffer.child_plays@.len() + plays0.len() + plays1.len()) as usize
        ]
        &&& self.work_buffer.child_plays@.len() == old.work_buffer.child_plays@.len()
            + plays0.len() + plays1.len()
        &&& forall|i: int|
            0 <= i < old.work_buffer.child_plays@.len()
                ==> #[trigger] self.work_buffer.child_plays@[i] == old.work_buffer.child_plays@[i]
        &&& forall|s: usize| #[trigger]
            old.work_buffer.state_eval@.contains_key(s)
                ==> self.work_buffer.state_eval@[s] == old.work_buffer.state_eval@[s]
        &&& self.work_buffer.state_eval@[old.spec_top().state_idx].best_place_move@
            == seq![StateSideEval::spec_new(), StateSideEval::spec_new()]
        &&& self.work_buffer.state_eval@[old.spec_top().state_idx].best_move@
            == seq![StateSideEval::spec_new(), StateSideEval::spec_new()]
        &&& self.spec_side_valued(
            old.spec_top().state_idx,
            0,
            plays0,
            self.spec_range(old.spec_top().state_idx, 0).0,
            self.spec_range(old.spec_top().state_idx, 0).1,
            self.spec_range(old.spec_top().state_idx, 1).0,
            self.spec_range(old.spec_top().state_idx, 1).1
        )
        &&& self.spec_side_valued(
            old.spec_top().state_idx,
            1,
            plays1,
            self.spec_range(old.spec_top().state_idx, 1).0,
            self.spec_range(old.spec_top().state_idx, 1).1,
            self.spec_range(old.spec_top().state_idx, 0).0,
            self.spec_range(old.spec_top().state_idx, 0).1
        )
    }

    /// Hands the search the plays of both sides in the position it asked
    /// about. They become the child plays of the state, the state gets its
    /// evaluation, and the search of its children is to begin.
    pub fn supply_moves(&mut self, plays0: &Vec<Play>, plays1: &Vec<Play>)
        requires
            old(self).wf(),
            old(self).work_buffer.stack@.len() > 0,
            old(self).spec_top().phase == Phase::Expand,
            old(self).spec_candidates_ok(old(self).spec_top().state_idx as int, 0, plays0@),
            old(self).spec_candidates_ok(old(self).spec_top().state_idx as int, 1, plays1@),
        ensures
            final(self).wf(),
            final(self).spec_supplied(old(self), plays0@, plays1@),
    {
        let ghost before = *self;
        let n = self.work_buffer.stack.len();
        let f = self.work_buffer.stack[n - 1];
        let mut g = f;
        g.phase = Phase::Enter;
        proof {
            reveal(EndgameSolver::frame_ok);
            assert(self.frame_ok(self.work_buffer.stack@[n - 1]));
        }
        self.set_top(g);
        proof {
            assert forall|i: int| 0 <= i < self.work_buffer.stack@.len() implies (
            #[trigger] self.work_buffer.stack@[i]).phase != Phase::Expand by {
                if i < n - 1 {
                    assert(Self::spec_linked(self.work_buffer.stack@, i));
                }
            }
        }
        self.expand(f.state_idx, plays0, plays1);
        let ghost expanded = *self;
        g.phase = Phase::Begin;
        self.set_top(g);
        proof {
            let (a, b) = self.spec_range(f.state_idx, 0);
            let (b2, c) = self.spec_range(f.state_idx, 1);
            self.lemma_side_valued_same(&expanded, f.state_idx, 0, plays0@, a, b, b2, c);
            self.lemma_side_valued_same(&expanded, f.state_idx, 1, plays1@, b2, c, a, b);
            assert(self.work_buffer.state_eval@.dom() =~= before.work_buffer.state_eval@.dom().insert(
                f.state_idx,
            ));
            assert(self.work_buffer.stack@ =~= before.work_buffer.stack@.drop_last().push(
                Frame { phase: Phase::Begin, ..before.spec_top() },
            ));
        }
    }

    /// Whether the search awaits plays and these are plays it can take: the
    /// candidates of both sides in the state it asked about.
    pub open spec fn spec_takes(&self, plays0: Seq<Play>, plays1: Seq<Play>) -> bool {
        &&& self.work_buffer.stack@.len() > 0
        &&& self.spec_top().phase == Phase::Expand
        &&& self.spec_candidates_ok(self.spec_top().state_idx as int, 0, plays0)
        &&& self.spec_candidates_ok(self.spec_top().state_idx as int, 1, plays1)
    }

    /// Hands the search the plays of both sides if it awaits plays and can
    /// take these; else nothing changes.
    pub fn offer_moves(&mut self, plays0: &Vec<Play>, plays1: &Vec<Play>) -> (taken: bool)
        requires
            old(self).wf(),
        ensures
            final(self).wf(),
            taken == old(self).spec_takes(plays0@, plays1@),
            taken ==> final(self).spec_supplied(old(self), plays0@, plays1@),
            !taken ==> *final(self) == *old(self),
    {
        let n = self.work_buffer.stack.len();
        if n == 0 {
            return false;
        }
        let f = self.work_buffer.stack[n - 1];
        proof {
            reveal(EndgameSolver::frame_ok);
            assert(self.frame_ok(self.work_buffer.stack@[n - 1]));
        }
        if f.phase != Phase::Expand {
            return false;
        }
        if !self.candidates_ok(f.state_idx, 0, plays0) || !self.candidates_ok(
            f.state_idx,
            1,
            plays1,
        ) {
            return false;
        }
        self.supply_moves(plays0, plays1);
        true
    }
}

} // verus!
