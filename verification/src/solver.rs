//! The solver: the position at the start of the endgame, the tables that the
//! search fills, and the invariant that holds them together.

use crate::children::ChildPlay;
use crate::game_config::{
    lemma_rack_score_bounds, spec_rack_score, Alphabet, BoardLayout, GameConfig,
};
use crate::move_cache::MoveCache;
use crate::placement::{blanked, same_placements, PlacedTile};
use crate::play::{spec_play_placements, PlayView};
use crate::position::{
    lemma_placed_score_bounds, lemma_play_extends_position, lemma_position_ok_len,
    lemma_position_ok_prefix, lemma_position_ok_same, position_ok, spec_board_after,
    spec_placed_score, spec_play_fits, spec_rack_after, MAX_TILES,
};
use crate::state_table::{is_prefix, StateTable};
use crate::transposition::{is_equity, StateEval, StateSideEval, EQUITY_LIMIT, MISSING};
use std::collections::HashMap;
use vstd::prelude::*;

verus! {

/// By how much the bound on equities grows with each tile still to be placed.
pub const EQUITY_STEP: i64 = 0x400_0000;

/// Where a suspended search of a position goes on.
#[derive(Clone, Copy, PartialEq, Eq, Structural, Debug)]
pub enum Phase {
    /// The search of the position has not begun.
    Enter,
    /// The value of the position after a pass is awaited.
    PassDone,
    /// The plays of the position are awaited.
    Expand,
    /// The children of the position are known; their search is to begin.
    Begin,
    /// The child at the cursor is next.
    Search,
    /// The value of the child at the cursor is awaited.
    ChildDone,
}

/// One suspended search of a position: the arguments it was started with and
/// what it has found so far.
#[derive(Clone, Copy, Debug)]
pub struct Frame {
    pub state_idx: usize,
    pub player_idx: u8,
    pub depth: i8,
    pub alpha: i64,
    pub beta: i64,
    pub just_passed: bool,
    pub alpha_orig: i64,
    pub beta_orig: i64,
    pub pass_valuation: i64,
    pub low_idx: usize,
    pub high_idx: usize,
    pub cursor: usize,
    pub best_idx: usize,
    pub pass_idx: usize,
    /// The state whose value is awaited.
    pub awaited: usize,
    /// The score of the play whose value is awaited.
    pub child_score: i16,
    pub phase: Phase,
}

/// The tables that a search fills, and the searches under way.
pub struct WorkBuffer {
    pub states: StateTable,
    pub state_eval: HashMap<usize, StateEval>,
    pub plays: MoveCache,
    pub child_plays: Vec<ChildPlay>,
    /// The suspended searches, the innermost last.
    pub stack: Vec<Frame>,
    /// The value of the search that ended last.
    pub returned: i64,
    /// Whether an evaluation is under way.
    pub searching: bool,
    /// The depth of the iteration under way.
    pub max_depth: i8,
    /// The player to move at the root.
    pub player_idx: u8,
    /// Number of states when the iteration under way began.
    pub old_num_states: usize,
}

impl WorkBuffer {
    /// Tables that hold state 0 and play 0 alone.
    pub fn new() -> (r: WorkBuffer)
        ensures
            r.states.wf(),
            r.states.states@.len() == 1,
            r.plays.wf(),
            r.plays.plays@.len() == 1,
            r.state_eval@ == Map::<usize, StateEval>::empty(),
            r.child_plays@.len() == 0,
            r.stack@.len() == 0,
            !r.searching,
            r.returned == 0,
            r.player_idx == 0,
            r.max_depth == 0,
            r.old_num_states == 0,
    {
        WorkBuffer {
            states: StateTable::new(),
            state_eval: HashMap::new(),
            plays: MoveCache::new(),
            child_plays: Vec::new(),
            stack: Vec::new(),
            returned: 0,
            searching: false,
            max_depth: 0,
            player_idx: 0,
            old_num_states: 0,
        }
    }

    /// Empties the tables for a new position: state 0 and play 0 remain.
    pub fn init(&mut self)
        ensures
            final(self).states.wf(),
            final(self).states.states@.len() == 1,
            final(self).plays.wf(),
            final(self).plays.plays@.len() == 1,
            final(self).state_eval@ == Map::<usize, StateEval>::empty(),
            final(self).child_plays@.len() == 0,
            final(self).stack@.len() == 0,
            !final(self).searching,
            final(self).returned == 0,
            final(self).player_idx == 0,
            final(self).max_depth == 0,
            final(self).old_num_states == 0,
    {
        self.states.reset();
        self.state_eval.clear();
        self.plays.reset();
        self.child_plays.clear();
        self.stack.clear();
        self.returned = 0;
        self.searching = false;
        self.max_depth = 0;
        self.player_idx = 0;
        self.old_num_states = 0;
    }
}

/// The two-player endgame solver.
pub struct EndgameSolver {
    pub alphabet: Alphabet,
    pub layout: BoardLayout,
    /// The board at the start of the endgame.
    pub board_tiles: Vec<u8>,
    /// Player 0's rack at the start of the endgame.
    pub rack0: Vec<u8>,
    /// Player 1's rack at the start of the endgame.
    pub rack1: Vec<u8>,
    /// The scores of the two racks at the start.
    pub rack_scores: [i64; 2],
    pub work_buffer: WorkBuffer,
}

impl EndgameSolver {
    /// The placements of state `id`.
    pub open spec fn chain(&self, id: int) -> Seq<PlacedTile> {
        self.work_buffer.states.chain(id)
    }

    /// The rack of a player at the start of the endgame.
    pub open spec fn spec_start_rack(&self, whose: u8) -> Seq<u8> {
        if whose == 0 {
            self.rack0@
        } else {
            self.rack1@
        }
    }

    /// The board of state `id`.
    pub open spec fn spec_board(&self, id: int) -> Seq<u8> {
        spec_board_after(self.board_tiles@, self.chain(id))
    }

    /// The rack of player `whose` in state `id`.
    pub open spec fn spec_rack(&self, id: int, whose: u8) -> Seq<u8> {
        spec_rack_after(self.spec_start_rack(whose), self.chain(id), whose)
    }

    /// No equity of state `id` is farther from 0 than this. The bound
    /// shrinks with every tile placed.
    pub open spec fn spec_bound(&self, id: int) -> int {
        0x400_0000 * (self.rack0@.len() + self.rack1@.len() + 1 - self.chain(id).len())
    }

    /// The score of the tiles that player `whose` still holds in state `id`.
    pub open spec fn spec_remaining_score(&self, id: int, whose: u8) -> int {
        spec_rack_score(self.alphabet, self.spec_start_rack(whose)) - spec_placed_score(
            self.alphabet,
            self.chain(id),
            whose,
        )
    }

    /// What the game is worth to `player_idx` if it ends in state `id` by two
    /// passes: the opponent's remaining tiles less the player's own.
    pub open spec fn spec_both_pass_value(&self, id: int, player_idx: u8) -> int {
        self.spec_remaining_score(id, (1 - player_idx) as u8) - self.spec_remaining_score(
            id,
            player_idx,
        )
    }

    /// The board fits the layout, the racks are not too long, and their scores are known.
    pub open spec fn config_ok(&self) -> bool {
        &&& self.layout.wf()
        &&& self.board_tiles@.len() == self.layout.spec_size()
        &&& self.rack0@.len() + self.rack1@.len() <= MAX_TILES
        &&& self.rack_scores@[0] == spec_rack_score(self.alphabet, self.rack0@)
        &&& self.rack_scores@[1] == spec_rack_score(self.alphabet, self.rack1@)
    }

    /// Every state is a position that can be reached from the start.
    pub open spec fn states_ok(&self) -> bool {
        &&& self.work_buffer.states.wf()
        &&& forall|id: int|
            0 <= id < self.work_buffer.states.states@.len() ==> position_ok(
                self.layout,
                self.board_tiles@,
                self.rack0@,
                self.rack1@,
                #[trigger] self.chain(id),
            )
    }

    /// A child of state `state` for player `whose`: a pass that stays in the
    /// state, or a placement that the player can make there and that leads
    /// to the state of its placements, if that state is known.
    #[verifier::opaque]
    pub open spec fn child_ok(&self, state: int, whose: u8, c: ChildPlay) -> bool {
        &&& c.play_idx < self.work_buffer.plays.plays@.len()
        &&& -self.spec_bound(state) <= c.valuation <= self.spec_bound(state)
        &&& match self.work_buffer.plays.plays@[c.play_idx as int]@ {
            PlayView::Exchange { .. } => c.play_idx == 0 && c.new_state_idx == state,
            PlayView::Place { .. } => {
                &&& spec_play_fits(
                    self.layout,
                    self.spec_board(state),
                    self.spec_rack(state, whose),
                    self.work_buffer.plays.plays@[c.play_idx as int]@,
                    whose,
                )
                &&& (c.new_state_idx == 0 || c.new_state_idx == MISSING || (c.new_state_idx
                    < self.work_buffer.states.states@.len() && same_placements(
                    self.chain(c.new_state_idx as int),
                    self.chain(state) + spec_play_placements(
                        self.layout,
                        self.work_buffer.plays.plays@[c.play_idx as int]@,
                        whose,
                    ),
                )))
            },
        }
    }

    /// A cached equity is within the bound of its state once it has been
    /// searched, and a cached placement that leads to a state leads to one
    /// with more tiles placed.
    #[verifier::opaque]
    pub open spec fn side_ok(&self, state: int, e: StateSideEval) -> bool {
        &&& is_equity(e.equity)
        &&& e.depth >= 0 ==> -self.spec_bound(state) <= e.equity <= self.spec_bound(state)
        &&& e.play_idx == MISSING || e.play_idx < self.work_buffer.plays.plays@.len()
        &&& e.play_idx < self.work_buffer.plays.plays@.len()
            && self.work_buffer.plays.plays@[e.play_idx as int]@ is Place && e.new_state_idx != 0
            && e.new_state_idx != MISSING ==> e.new_state_idx
            < self.work_buffer.states.states@.len() && self.chain(e.new_state_idx as int).len()
            > self.chain(state).len()
    }

    /// The four entries of an evaluation are in order.
    pub open spec fn sides_ok(&self, state: int, ev: StateEval) -> bool {
        &&& self.side_ok(state, ev.best_place_move@[0])
        &&& self.side_ok(state, ev.best_place_move@[1])
        &&& self.side_ok(state, ev.best_move@[0])
        &&& self.side_ok(state, ev.best_move@[1])
    }

    /// An evaluation of a state: each side has a stretch of child plays of
    /// its own, not empty, and its entries are in order.
    pub open spec fn eval_ok(&self, state: int, ev: StateEval) -> bool {
        &&& ev.child_play_idxs@[0] < ev.child_play_idxs@[1] < ev.child_play_idxs@[2]
            <= self.work_buffer.child_plays@.len()
        &&& forall|i: int|
            ev.child_play_idxs@[0] <= i < ev.child_play_idxs@[1] ==> self.child_ok(
                state,
                0,
                #[trigger] self.work_buffer.child_plays@[i],
            )
        &&& forall|i: int|
            ev.child_play_idxs@[1] <= i < ev.child_play_idxs@[2] ==> self.child_ok(
                state,
                1,
                #[trigger] self.work_buffer.child_plays@[i],
            )
        &&& self.sides_ok(state, ev)
    }

    /// Every evaluation belongs to a state and owns its stretch of the child plays.
    pub open spec fn evals_ok(&self) -> bool {
        &&& forall|s: usize| #[trigger]
            self.work_buffer.state_eval@.contains_key(s) ==> s
                < self.work_buffer.states.states@.len() && self.eval_ok(
                s as int,
                self.work_buffer.state_eval@[s],
            )
        &&& forall|s: usize, t: usize|
            #![trigger self.work_buffer.state_eval@.contains_key(s), self.work_buffer.state_eval@.contains_key(t)]
            self.work_buffer.state_eval@.contains_key(s) && self.work_buffer.state_eval@.contains_key(
                t,
            ) && s != t ==> self.work_buffer.state_eval@[s].child_play_idxs@[2]
                <= self.work_buffer.state_eval@[t].child_play_idxs@[0]
                || self.work_buffer.state_eval@[t].child_play_idxs@[2]
                <= self.work_buffer.state_eval@[s].child_play_idxs@[0]
    }

    /// The frame waits for a value.
    pub open spec fn spec_waiting(f: Frame) -> bool {
        f.phase == Phase::PassDone || f.phase == Phase::ChildDone
    }

    /// The frame at `i` waits for the value of the frame above it.
    pub open spec fn spec_linked(stack: Seq<Frame>, i: int) -> bool {
        Self::spec_waiting(stack[i]) && stack[i + 1].state_idx == stack[i].awaited
    }

    /// A suspended search is in order: it is of a state of the table, its
    /// window and its pass valuation are equities, and it holds what its
    /// phase needs.
    #[verifier::opaque]
    pub open spec fn frame_ok(&self, f: Frame) -> bool {
        &&& f.state_idx < self.work_buffer.states.states@.len()
        &&& f.player_idx <= 1
        &&& f.depth >= 0
        &&& is_equity(f.alpha)
        &&& is_equity(f.beta)
        &&& is_equity(f.alpha_orig)
        &&& is_equity(f.beta_orig)
        &&& -self.spec_bound(f.state_idx as int) <= f.pass_valuation <= self.spec_bound(
            f.state_idx as int,
        )
        &&& f.phase != Phase::Enter ==> f.depth >= 1
        &&& f.phase == Phase::PassDone ==> f.awaited == f.state_idx
        &&& f.phase == Phase::Expand ==> !self.work_buffer.state_eval@.contains_key(f.state_idx)
        &&& f.phase == Phase::Begin ==> self.work_buffer.state_eval@.contains_key(f.state_idx)
        &&& f.phase == Phase::Search || f.phase == Phase::ChildDone ==> {
            &&& self.work_buffer.state_eval@.contains_key(f.state_idx)
            &&& f.low_idx == self.work_buffer.state_eval@[f.state_idx].child_play_idxs@[f.player_idx as int]
            &&& f.high_idx == self.work_buffer.state_eval@[f.state_idx].child_play_idxs@[f.player_idx
                + 1]
            &&& f.low_idx <= f.cursor <= f.high_idx
            &&& f.low_idx <= f.best_idx < f.high_idx
            &&& f.low_idx <= f.pass_idx < f.high_idx
        }
        &&& f.phase == Phase::ChildDone ==> {
            &&& f.cursor < f.high_idx
            &&& f.awaited < self.work_buffer.states.states@.len()
            &&& self.chain(f.awaited as int).len() > self.chain(f.state_idx as int).len()
        }
    }

    /// Every suspended search but the innermost waits for the one above it,
    /// and the innermost, if it waits, has its value.
    pub open spec fn stack_ok(&self) -> bool {
        &&& is_equity(self.work_buffer.returned)
        &&& forall|i: int|
            0 <= i < self.work_buffer.stack@.len() ==> self.frame_ok(
                #[trigger] self.work_buffer.stack@[i],
            )
        &&& forall|i: int|
            0 <= i < self.work_buffer.stack@.len() - 1 ==> #[trigger] Self::spec_linked(
                self.work_buffer.stack@,
                i,
            )
        &&& self.work_buffer.stack@.len() > 0 && Self::spec_waiting(self.work_buffer.stack@.last())
            ==> -self.spec_bound(self.work_buffer.stack@.last().awaited as int)
            <= self.work_buffer.returned <= self.spec_bound(
            self.work_buffer.stack@.last().awaited as int,
        )
        &&& self.work_buffer.player_idx <= 1
        &&& self.work_buffer.searching ==> self.work_buffer.max_depth >= 1
    }

    /// The solver's invariant.
    pub open spec fn wf(&self) -> bool {
        &&& self.config_ok()
        &&& self.states_ok()
        &&& self.work_buffer.plays.wf()
        &&& self.evals_ok()
        &&& self.stack_ok()
    }

    /// The position at the start is the same.
    pub open spec fn same_start(&self, old: &EndgameSolver) -> bool {
        &&& self.alphabet == old.alphabet
        &&& self.layout == old.layout
        &&& self.board_tiles@ == old.board_tiles@
        &&& self.rack0@ == old.rack0@
        &&& self.rack1@ == old.rack1@
        &&& self.rack_scores == old.rack_scores
    }

    /// The tables are append-only: the solver holds every state, play, and
    /// evaluation that `old` held, under the same numbers, and each
    /// evaluation keeps its stretch of the child plays.
    pub open spec fn extends(&self, old: &EndgameSolver) -> bool {
        &&& self.same_start(old)
        &&& self.work_buffer.states.extends(&old.work_buffer.states)
        &&& self.work_buffer.plays.extends(&old.work_buffer.plays)
        &&& self.work_buffer.child_plays@.len() >= old.work_buffer.child_plays@.len()
        &&& forall|s: usize| #[trigger]
            old.work_buffer.state_eval@.contains_key(s) ==> self.work_buffer.state_eval@.contains_key(
                s,
            ) && self.work_buffer.state_eval@[s].child_play_idxs
                == old.work_buffer.state_eval@[s].child_play_idxs
    }

    /// The bound on a state's equities lies between one step and the limit.
    pub proof fn lemma_bound_range(&self, id: int)
        requires
            self.config_ok(),
            self.states_ok(),
            0 <= id < self.work_buffer.states.states@.len(),
        ensures
            EQUITY_STEP <= self.spec_bound(id) <= EQUITY_LIMIT,
            self.chain(id).len() <= self.rack0@.len() + self.rack1@.len(),
    {
        lemma_position_ok_len(
            self.layout,
            self.board_tiles@,
            self.rack0@,
            self.rack1@,
            self.chain(id),
        );
    }

    /// Negamax symmetry where the game ends: what two passes are worth to
    /// one side is the negation of what they are worth to the other.
    pub proof fn lemma_both_pass_value_symmetric(&self, state: int, player_idx: u8)
        requires
            player_idx <= 1,
        ensures
            self.spec_both_pass_value(state, player_idx) == -self.spec_both_pass_value(
                state,
                (1 - player_idx) as u8,
            ),
    {
    }

    /// What two passes are worth is the score of the opponent's rack in the
    /// position less the score of the player's own.
    pub proof fn lemma_both_pass_value_is_rack_difference(&self, id: int, player_idx: u8)
        requires
            self.config_ok(),
            self.states_ok(),
            0 <= id < self.work_buffer.states.states@.len(),
            player_idx <= 1,
        ensures
            self.spec_both_pass_value(id, player_idx) == spec_rack_score(
                self.alphabet,
                self.spec_rack(id, (1 - player_idx) as u8),
            ) - spec_rack_score(self.alphabet, self.spec_rack(id, player_idx)),
    {
        reveal(position_ok);
        assert(position_ok(
            self.layout,
            self.board_tiles@,
            self.rack0@,
            self.rack1@,
            self.chain(id),
        ));
        crate::position::lemma_remaining_score(self.alphabet, self.rack0@, self.chain(id), 0);
        crate::position::lemma_remaining_score(self.alphabet, self.rack1@, self.chain(id), 1);
    }

    /// Append-only tables: every state but the start comes after its parent,
    /// and play 0 is the pass.
    pub proof fn lemma_tables_append_only(&self, id: int)
        requires
            self.wf(),
            0 < id < self.work_buffer.states.states@.len(),
        ensures
            self.work_buffer.states.states@[id].parent < id,
            self.work_buffer.plays.plays@[0]@ == crate::play::spec_pass(),
    {
    }

    /// What held of a child holds of it in a solver whose tables have grown.
    pub(crate) proof fn lemma_child_ok_stable(&self, old: &EndgameSolver, state: int, whose: u8, c: ChildPlay)
        requires
            self.same_start(old),
            self.work_buffer.states.extends(&old.work_buffer.states),
            self.work_buffer.plays.extends(&old.work_buffer.plays),
            0 <= state < old.work_buffer.states.states@.len(),
            old.child_ok(state, whose, c),
        ensures
            self.child_ok(state, whose, c),
    {
        reveal(EndgameSolver::child_ok);
        self.work_buffer.states.lemma_extends_chain(&old.work_buffer.states, state);
        if c.new_state_idx < old.work_buffer.states.states@.len() {
            self.work_buffer.states.lemma_extends_chain(
                &old.work_buffer.states,
                c.new_state_idx as int,
            );
        }
        assert(self.work_buffer.plays.plays@[c.play_idx as int]@
            == old.work_buffer.plays.plays@[c.play_idx as int]@);
    }

    /// The states are in order in a solver that has the same states.
    pub(crate) proof fn lemma_states_ok_same(&self, old: &EndgameSolver)
        requires
            old.states_ok(),
            self.same_start(old),
            self.work_buffer.states.states@ == old.work_buffer.states.states@,
            self.work_buffer.states.finder@ == old.work_buffer.states.finder@,
        ensures
            self.states_ok(),
    {
        assert forall|id: int| 0 <= id < self.work_buffer.states.states@.len() implies position_ok(
            self.layout,
            self.board_tiles@,
            self.rack0@,
            self.rack1@,
            #[trigger] self.chain(id),
        ) by {
            assert(self.chain(id) == old.chain(id));
        }
        assert forall|id: int|
            0 <= id < self.work_buffer.states.states@.len() implies crate::placement::is_canonical(
            #[trigger] self.work_buffer.states.chain(id),
        ) by {
            assert(self.work_buffer.states.chain(id) == old.work_buffer.states.chain(id));
        }
    }

    /// What held of a cached entry holds of it in a solver whose tables have grown.
    pub(crate) proof fn lemma_side_ok_stable(&self, old: &EndgameSolver, state: int, e: StateSideEval)
        requires
            self.same_start(old),
            self.work_buffer.states.extends(&old.work_buffer.states),
            self.work_buffer.plays.extends(&old.work_buffer.plays),
            0 <= state < old.work_buffer.states.states@.len(),
            old.side_ok(state, e),
        ensures
            self.side_ok(state, e),
    {
        reveal(EndgameSolver::side_ok);
        self.work_buffer.states.lemma_extends_chain(&old.work_buffer.states, state);
        assert(self.work_buffer.plays.plays.len() == self.work_buffer.plays.plays@.len());
        if e.play_idx < old.work_buffer.plays.plays@.len() {
            assert(self.work_buffer.plays.plays@[e.play_idx as int]@
                == old.work_buffer.plays.plays@[e.play_idx as int]@);
            if e.new_state_idx < old.work_buffer.states.states@.len() {
                self.work_buffer.states.lemma_extends_chain(
                    &old.work_buffer.states,
                    e.new_state_idx as int,
                );
            }
        }
    }

    /// What held of the entries of an evaluation holds of them when the tables have grown.
    pub(crate) proof fn lemma_sides_ok_stable(&self, old: &EndgameSolver, state: int, ev: StateEval)
        requires
            self.same_start(old),
            self.work_buffer.states.extends(&old.work_buffer.states),
            self.work_buffer.plays.extends(&old.work_buffer.plays),
            0 <= state < old.work_buffer.states.states@.len(),
            old.sides_ok(state, ev),
        ensures
            self.sides_ok(state, ev),
    {
        self.lemma_side_ok_stable(old, state, ev.best_place_move@[0]);
        self.lemma_side_ok_stable(old, state, ev.best_place_move@[1]);
        self.lemma_side_ok_stable(old, state, ev.best_move@[0]);
        self.lemma_side_ok_stable(old, state, ev.best_move@[1]);
    }

    /// The evaluations stay in order when the tables of states and plays grow.
    pub(crate) proof fn lemma_evals_stable(&self, old: &EndgameSolver)
        requires
            old.config_ok(),
            old.states_ok(),
            old.evals_ok(),
            self.same_start(old),
            self.work_buffer.states.extends(&old.work_buffer.states),
            self.work_buffer.plays.extends(&old.work_buffer.plays),
            self.work_buffer.state_eval@ == old.work_buffer.state_eval@,
            self.work_buffer.child_plays@.len() >= old.work_buffer.child_plays@.len(),
            forall|s: usize, i: int|
                #![trigger old.work_buffer.state_eval@.contains_key(s), self.work_buffer.child_plays@[i]]
                old.work_buffer.state_eval@.contains_key(s) && 0 <= i
                    < old.work_buffer.state_eval@[s].child_play_idxs@[2]
                    ==> self.work_buffer.child_plays@[i] == old.work_buffer.child_plays@[i],
        ensures
            self.evals_ok(),
    {
        assert forall|s: usize| #[trigger] self.work_buffer.state_eval@.contains_key(s) implies s
            < self.work_buffer.states.states@.len() && self.eval_ok(
            s as int,
            self.work_buffer.state_eval@[s],
        ) by {
            let ev = self.work_buffer.state_eval@[s];
            assert(old.eval_ok(s as int, ev));
            self.lemma_sides_ok_stable(old, s as int, ev);
            self.work_buffer.states.lemma_extends_chain(&old.work_buffer.states, s as int);
            assert forall|i: int|
                ev.child_play_idxs@[0] <= i < ev.child_play_idxs@[1] implies self.child_ok(
                s as int,
                0,
                #[trigger] self.work_buffer.child_plays@[i],
            ) by {
                self.lemma_child_ok_stable(old, s as int, 0, old.work_buffer.child_plays@[i]);
            }
            assert forall|i: int|
                ev.child_play_idxs@[1] <= i < ev.child_play_idxs@[2] implies self.child_ok(
                s as int,
                1,
                #[trigger] self.work_buffer.child_plays@[i],
            ) by {
                self.lemma_child_ok_stable(old, s as int, 1, old.work_buffer.child_plays@[i]);
            }
        }
    }

    /// What held of a frame holds of it when the tables have grown and the
    /// evaluations have kept their stretches.
    pub(crate) proof fn lemma_frame_stable(&self, old: &EndgameSolver, f: Frame)
        requires
            old.frame_ok(f),
            self.same_start(old),
            self.work_buffer.states.extends(&old.work_buffer.states),
            forall|s: usize| #[trigger]
                old.work_buffer.state_eval@.contains_key(s)
                    ==> self.work_buffer.state_eval@.contains_key(s)
                    && self.work_buffer.state_eval@[s].child_play_idxs
                    == old.work_buffer.state_eval@[s].child_play_idxs,
            f.phase == Phase::Expand ==> !self.work_buffer.state_eval@.contains_key(f.state_idx),
        ensures
            self.frame_ok(f),
    {
        reveal(EndgameSolver::frame_ok);
        self.work_buffer.states.lemma_extends_chain(&old.work_buffer.states, f.state_idx as int);
        if f.phase == Phase::ChildDone {
            self.work_buffer.states.lemma_extends_chain(&old.work_buffer.states, f.awaited as int);
        }
        if f.phase == Phase::Search || f.phase == Phase::ChildDone || f.phase == Phase::Begin {
            assert(old.work_buffer.state_eval@.contains_key(f.state_idx));
        }
    }

    /// A search that awaits the plays of its state has found no evaluation of it.
    pub(crate) proof fn lemma_expanding_unkeyed(&self)
        requires
            self.stack_ok(),
        ensures
            forall|i: int|
                0 <= i < self.work_buffer.stack@.len() && (#[trigger] self.work_buffer.stack@[i]).phase
                    == Phase::Expand ==> !self.work_buffer.state_eval@.contains_key(
                    self.work_buffer.stack@[i].state_idx,
                ),
    {
        reveal(EndgameSolver::frame_ok);
        assert forall|i: int|
            0 <= i < self.work_buffer.stack@.len() && (#[trigger] self.work_buffer.stack@[i]).phase
                == Phase::Expand implies !self.work_buffer.state_eval@.contains_key(
            self.work_buffer.stack@[i].state_idx,
        ) by {
            assert(self.frame_ok(self.work_buffer.stack@[i]));
        }
    }

    /// The suspended searches stay in order when the tables grow.
    pub(crate) proof fn lemma_stack_stable(&self, old: &EndgameSolver)
        requires
            old.stack_ok(),
            self.same_start(old),
            self.work_buffer.states.extends(&old.work_buffer.states),
            forall|s: usize| #[trigger]
                old.work_buffer.state_eval@.contains_key(s)
                    ==> self.work_buffer.state_eval@.contains_key(s)
                    && self.work_buffer.state_eval@[s].child_play_idxs
                    == old.work_buffer.state_eval@[s].child_play_idxs,
            forall|i: int|
                0 <= i < old.work_buffer.stack@.len() && (#[trigger] old.work_buffer.stack@[i]).phase
                    == Phase::Expand ==> !self.work_buffer.state_eval@.contains_key(
                    old.work_buffer.stack@[i].state_idx,
                ),
            self.work_buffer.stack@ == old.work_buffer.stack@,
            self.work_buffer.returned == old.work_buffer.returned,
            self.work_buffer.player_idx == old.work_buffer.player_idx,
            self.work_buffer.searching == old.work_buffer.searching,
            self.work_buffer.max_depth == old.work_buffer.max_depth,
        ensures
            self.stack_ok(),
    {
        assert forall|i: int| 0 <= i < self.work_buffer.stack@.len() implies self.frame_ok(
            #[trigger] self.work_buffer.stack@[i],
        ) by {
            let f = old.work_buffer.stack@[i];
            assert(old.frame_ok(f));
            self.lemma_frame_stable(old, f);
        }
        assert forall|i: int|
            0 <= i < self.work_buffer.stack@.len() - 1 implies #[trigger] Self::spec_linked(
            self.work_buffer.stack@,
            i,
        ) by {
            assert(Self::spec_linked(old.work_buffer.stack@, i));
        }
        if self.work_buffer.stack@.len() > 0 {
            reveal(EndgameSolver::frame_ok);
            let top = self.work_buffer.stack@.last();
            assert(old.frame_ok(old.work_buffer.stack@[old.work_buffer.stack@.len() - 1]));
            if Self::spec_waiting(top) {
                if top.phase == Phase::ChildDone {
                    self.work_buffer.states.lemma_extends_chain(
                        &old.work_buffer.states,
                        top.awaited as int,
                    );
                } else {
                    self.work_buffer.states.lemma_extends_chain(
                        &old.work_buffer.states,
                        top.state_idx as int,
                    );
                }
            }
        }
    }

    /// Creates a solver for games played with this configuration. It holds
    /// no position until `init` gives it one.
    pub fn new<C: GameConfig>(game_config: &C) -> (r: EndgameSolver)
        requires
            game_config.spec_board_layout().wf(),
        ensures
            r.layout == game_config.spec_board_layout(),
            r.alphabet.scores@ == game_config.spec_alphabet().scores@,
            r.layout.wf(),
            r.board_tiles@.len() == 0,
            r.rack0@.len() == 0,
            r.rack1@.len() == 0,
            r.rack_scores@ == seq![0i64, 0i64],
            r.work_buffer.states.states@.len() == 1,
            r.work_buffer.plays.plays@.len() == 1,
            r.work_buffer.state_eval@ == Map::<usize, StateEval>::empty(),
            r.work_buffer.child_plays@.len() == 0,
            r.work_buffer.stack@.len() == 0,
            !r.work_buffer.searching,
    {
        let alphabet = Alphabet::new(crate::play::copy_bytes(&game_config.alphabet().scores));
        let rack_scores: [i64; 2] = [0, 0];
        proof {
            assert(rack_scores@ =~= seq![0i64, 0i64]);
        }
        EndgameSolver {
            alphabet,
            layout: game_config.board_layout(),
            board_tiles: Vec::new(),
            rack0: Vec::new(),
            rack1: Vec::new(),
            rack_scores,
            work_buffer: WorkBuffer::new(),
        }
    }

    /// Sets the position at the start of the endgame and empties the tables.
    pub fn init(&mut self, board_tiles: &[u8], racks: [&[u8]; 2])
        requires
            old(self).layout.wf(),
            board_tiles@.len() == old(self).layout.spec_size(),
            racks@[0]@.len() + racks@[1]@.len() <= MAX_TILES,
        ensures
            final(self).wf(),
            final(self).layout == old(self).layout,
            final(self).alphabet == old(self).alphabet,
            final(self).board_tiles@ == board_tiles@,
            final(self).rack0@ == racks@[0]@,
            final(self).rack1@ == racks@[1]@,
            final(self).work_buffer.states.states@.len() == 1,
            final(self).work_buffer.plays.plays@.len() == 1,
            final(self).work_buffer.state_eval@ == Map::<usize, StateEval>::empty(),
            final(self).work_buffer.child_plays@.len() == 0,
            final(self).work_buffer.stack@.len() == 0,
            !final(self).work_buffer.searching,
    {
        self.board_tiles = copy_slice(board_tiles);
        self.rack0 = copy_slice(racks[0]);
        self.rack1 = copy_slice(racks[1]);
        let s0 = self.alphabet.rack_score(racks[0]);
        let s1 = self.alphabet.rack_score(racks[1]);
        self.rack_scores = [s0, s1];
        self.work_buffer.init();
        proof {
            reveal(position_ok);
            reveal(EndgameSolver::frame_ok);
            assert(self.chain(0) =~= Seq::empty());
            assert forall|id: int| 0 <= id < self.work_buffer.states.states@.len() implies position_ok(
                self.layout,
                self.board_tiles@,
                self.rack0@,
                self.rack1@,
                #[trigger] self.chain(id),
            ) by {
                assert(id == 0);
            }
        }
    }

    /// What the game is worth to `player_idx` if it ends in state `state_idx`
    /// by two passes.
    pub fn both_pass_value(&self, state_idx: usize, player_idx: u8) -> (r: i64)
        requires
            self.config_ok(),
            self.states_ok(),
            state_idx < self.work_buffer.states.states@.len(),
            player_idx <= 1,
        ensures
            r == self.spec_both_pass_value(state_idx as int, player_idx),
            -EQUITY_STEP <= r <= EQUITY_STEP,
    {
        let mut placed0: i64 = 0;
        let mut placed1: i64 = 0;
        let mut cur: usize = state_idx;
        let ghost whole = self.chain(state_idx as int);
        proof {
            self.lemma_bound_range(state_idx as int);
            lemma_placed_score_bounds(self.alphabet, whole, 0);
            lemma_placed_score_bounds(self.alphabet, whole, 1);
            lemma_rack_score_bounds(self.alphabet, self.rack0@);
            lemma_rack_score_bounds(self.alphabet, self.rack1@);
        }
        while cur != 0
            invariant
                self.work_buffer.states.wf(),
                cur < self.work_buffer.states.states@.len(),
                whole == self.chain(state_idx as int),
                0 <= placed0,
                0 <= placed1,
                placed0 + spec_placed_score(self.alphabet, self.chain(cur as int), 0)
                    == spec_placed_score(self.alphabet, whole, 0),
                placed1 + spec_placed_score(self.alphabet, self.chain(cur as int), 1)
                    == spec_placed_score(self.alphabet, whole, 1),
                spec_placed_score(self.alphabet, whole, 0) <= 255 * MAX_TILES,
                spec_placed_score(self.alphabet, whole, 1) <= 255 * MAX_TILES,
            decreases cur,
        {
            let state = self.work_buffer.states.states[cur];
            let p = state.placement;
            proof {
                assert(self.work_buffer.states.states@[cur as int].parent < cur);
                let c = self.chain(cur as int);
                assert(c == self.chain(state.parent as int).push(p));
                assert(c.drop_last() =~= self.chain(state.parent as int));
                assert(c.last() == p);
                lemma_placed_score_bounds(self.alphabet, self.chain(state.parent as int), 0);
                lemma_placed_score_bounds(self.alphabet, self.chain(state.parent as int), 1);
            }
            let score = self.alphabet.score(blanked(p.tile)) as i64;
            if p.whose == 0 {
                placed0 = placed0 + score;
            }
            if p.whose == 1 {
                placed1 = placed1 + score;
            }
            cur = state.parent;
        }
        proof {
            assert(self.chain(0) =~= Seq::empty());
        }
        let left0 = self.rack_scores[0] - placed0;
        let left1 = self.rack_scores[1] - placed1;
        if player_idx == 0 {
            left1 - left0
        } else {
            left0 - left1
        }
    }
}

impl EndgameSolver {
    /// All but the table of states is as it was.
    pub open spec fn only_states_changed(&self, old: &EndgameSolver) -> bool {
        &&& self.same_start(old)
        &&& self.work_buffer.plays == old.work_buffer.plays
        &&& self.work_buffer.state_eval == old.work_buffer.state_eval
        &&& self.work_buffer.child_plays == old.work_buffer.child_plays
        &&& self.work_buffer.stack == old.work_buffer.stack
        &&& self.work_buffer.returned == old.work_buffer.returned
        &&& self.work_buffer.searching == old.work_buffer.searching
        &&& self.work_buffer.max_depth == old.work_buffer.max_depth
        &&& self.work_buffer.player_idx == old.work_buffer.player_idx
        &&& self.work_buffer.old_num_states == old.work_buffer.old_num_states
    }

    /// All but the child plays is as it was.
    pub open spec fn only_children_changed(&self, old: &EndgameSolver) -> bool {
        &&& self.same_start(old)
        &&& self.work_buffer.states == old.work_buffer.states
        &&& self.work_buffer.plays == old.work_buffer.plays
        &&& self.work_buffer.state_eval == old.work_buffer.state_eval
        &&& self.work_buffer.stack == old.work_buffer.stack
        &&& self.work_buffer.returned == old.work_buffer.returned
        &&& self.work_buffer.searching == old.work_buffer.searching
        &&& self.work_buffer.max_depth == old.work_buffer.max_depth
        &&& self.work_buffer.player_idx == old.work_buffer.player_idx
        &&& self.work_buffer.old_num_states == old.work_buffer.old_num_states
    }

    /// The stretch of child plays of player `whose` in state `state`.
    pub open spec fn spec_range(&self, state: usize, whose: u8) -> (int, int) {
        (
            self.work_buffer.state_eval@[state].child_play_idxs@[whose as int] as int,
            self.work_buffer.state_eval@[state].child_play_idxs@[whose + 1] as int,
        )
    }

    /// The state that play `play_idx` by `which_player` leads to from state
    /// `state_idx`. An exchange stays in the state. A placement leads to the
    /// state of the canonical list of all placements made, which is entered
    /// into the table if it is new.
    pub fn get_new_state_idx(&mut self, state_idx: usize, which_player: u8, play_idx: usize) -> (r:
        usize)
        requires
            old(self).wf(),
            state_idx < old(self).work_buffer.states.states@.len(),
            which_player <= 1,
            play_idx < old(self).work_buffer.plays.plays@.len(),
            spec_play_fits(
                old(self).layout,
                old(self).spec_board(state_idx as int),
                old(self).spec_rack(state_idx as int, which_player),
                old(self).work_buffer.plays.plays@[play_idx as int]@,
                which_player,
            ),
        ensures
            final(self).wf(),
            final(self).extends(old(self)),
            final(self).only_states_changed(old(self)),
            r < final(self).work_buffer.states.states@.len(),
            old(self).work_buffer.plays.plays@[play_idx as int]@ is Exchange ==> r == state_idx
                && final(self).work_buffer.states == old(self).work_buffer.states,
            same_placements(
                final(self).chain(r as int),
                old(self).chain(state_idx as int) + spec_play_placements(
                    old(self).layout,
                    old(self).work_buffer.plays.plays@[play_idx as int]@,
                    which_player,
                ),
            ),
    {
        let ghost before = *self;
        let ghost play = self.work_buffer.plays.plays@[play_idx as int]@;
        let ghost extra_spec = spec_play_placements(self.layout, play, which_player);
        if self.work_buffer.plays.plays[play_idx].is_exchange() {
            proof {
                assert(self.chain(state_idx as int) + extra_spec =~= self.chain(state_idx as int));
            }
            return state_idx;
        }
        let extra = self.work_buffer.plays.plays[play_idx].placements(&self.layout, which_player);
        proof {
            lemma_play_extends_position(
                self.layout,
                self.board_tiles@,
                self.rack0@,
                self.rack1@,
                self.chain(state_idx as int),
                play,
                which_player,
            );
        }
        let r = self.work_buffer.states.successor(state_idx, &extra);
        proof {
            let whole = self.chain(r as int);
            lemma_position_ok_same(
                self.layout,
                self.board_tiles@,
                self.rack0@,
                self.rack1@,
                whole,
                before.chain(state_idx as int) + extra@,
            );
            assert forall|id: int|
                0 <= id < self.work_buffer.states.states@.len() implies position_ok(
                self.layout,
                self.board_tiles@,
                self.rack0@,
                self.rack1@,
                #[trigger] self.chain(id),
            ) by {
                if id < before.work_buffer.states.states@.len() {
                    self.work_buffer.states.lemma_extends_chain(&before.work_buffer.states, id);
                    assert(position_ok(
                        self.layout,
                        self.board_tiles@,
                        self.rack0@,
                        self.rack1@,
                        before.chain(id),
                    ));
                } else {
                    assert(is_prefix(self.chain(id), whole));
                    lemma_position_ok_prefix(
                        self.layout,
                        self.board_tiles@,
                        self.rack0@,
                        self.rack1@,
                        whole,
                        self.chain(id).len() as int,
                    );
                }
            }
            self.lemma_evals_stable(&before);
            before.lemma_expanding_unkeyed();
            self.lemma_stack_stable(&before);
        }
        r
    }

    /// Replaces one child play of a state by another child play of it.
    pub(crate) fn set_child(&mut self, state_idx: usize, whose: u8, idx: usize, c: ChildPlay)
        requires
            old(self).wf(),
            whose <= 1,
            old(self).work_buffer.state_eval@.contains_key(state_idx),
            old(self).spec_range(state_idx, whose).0 <= idx < old(self).spec_range(state_idx, whose).1,
            old(self).child_ok(state_idx as int, whose, c),
        ensures
            final(self).wf(),
            final(self).extends(old(self)),
            final(self).only_children_changed(old(self)),
            final(self).work_buffer.child_plays@ == old(self).work_buffer.child_plays@.update(
                idx as int,
                c,
            ),
    {
        let ghost before = *self;
        self.work_buffer.child_plays.set(idx, c);
        proof {
            assert forall|s: usize| #[trigger] self.work_buffer.state_eval@.contains_key(s) implies s
                < self.work_buffer.states.states@.len() && self.eval_ok(
                s as int,
                self.work_buffer.state_eval@[s],
            ) by {
                let ev = self.work_buffer.state_eval@[s];
                assert(before.eval_ok(s as int, ev));
                self.lemma_sides_ok_stable(&before, s as int, ev);
                assert(before.eval_ok(state_idx as int, before.work_buffer.state_eval@[state_idx]));
                assert forall|i: int|
                    ev.child_play_idxs@[0] <= i < ev.child_play_idxs@[1] implies self.child_ok(
                    s as int,
                    0,
                    #[trigger] self.work_buffer.child_plays@[i],
                ) by {
                    if i != idx {
                        self.lemma_child_ok_stable(
                            &before,
                            s as int,
                            0,
                            before.work_buffer.child_plays@[i],
                        );
                    } else {
                        self.lemma_child_ok_stable(&before, state_idx as int, whose, c);
                    }
                }
                assert forall|i: int|
                    ev.child_play_idxs@[1] <= i < ev.child_play_idxs@[2] implies self.child_ok(
                    s as int,
                    1,
                    #[trigger] self.work_buffer.child_plays@[i],
                ) by {
                    if i != idx {
                        self.lemma_child_ok_stable(
                            &before,
                            s as int,
                            1,
                            before.work_buffer.child_plays@[i],
                        );
                    } else {
                        self.lemma_child_ok_stable(&before, state_idx as int, whose, c);
                    }
                }
            }
            before.lemma_expanding_unkeyed();
            self.lemma_stack_stable(&before);
            self.lemma_states_ok_same(&before);
        }
    }

    /// Sorts the child plays of a player in a state by valuation, best first.
    pub(crate) fn sort_by_valuation(&mut self, state_idx: usize, whose: u8)
        requires
            old(self).wf(),
            whose <= 1,
            old(self).work_buffer.state_eval@.contains_key(state_idx),
        ensures
            final(self).wf(),
            final(self).extends(old(self)),
            final(self).only_children_changed(old(self)),
            final(self).work_buffer.child_plays@.len() == old(self).work_buffer.child_plays@.len(),
            forall|i: int|
                0 <= i < old(self).spec_range(state_idx, whose).0 || old(self).spec_range(
                    state_idx,
                    whose,
                ).1 <= i < old(self).work_buffer.child_plays@.len()
                    ==> #[trigger] final(self).work_buffer.child_plays@[i] == old(
                    self,
                ).work_buffer.child_plays@[i],
            final(self).work_buffer.child_plays@.subrange(
                old(self).spec_range(state_idx, whose).0,
                old(self).spec_range(state_idx, whose).1,
            ).to_multiset() == old(self).work_buffer.child_plays@.subrange(
                old(self).spec_range(state_idx, whose).0,
                old(self).spec_range(state_idx, whose).1,
            ).to_multiset(),
            crate::children::is_sorted_desc(
                final(self).work_buffer.plays.plays@,
                final(self).work_buffer.child_plays@,
                old(self).spec_range(state_idx, whose).0,
                old(self).spec_range(state_idx, whose).1,
                false,
            ),
    {
        let ghost before = *self;
        let ev = *self.work_buffer.state_eval.get(&state_idx).unwrap();
        let lo = ev.child_play_idxs[whose as usize];
        let hi = ev.child_play_idxs[whose as usize + 1];
        proof {
            assert(before.eval_ok(state_idx as int, ev));
        }
        crate::children::sort_children(
            &mut self.work_buffer.child_plays,
            lo,
            hi,
            &self.work_buffer.plays.plays,
            false,
        );
        proof {
            let old_range = before.work_buffer.child_plays@.subrange(lo as int, hi as int);
            let new_range = self.work_buffer.child_plays@.subrange(lo as int, hi as int);
            assert forall|s: usize| #[trigger] self.work_buffer.state_eval@.contains_key(s) implies s
                < self.work_buffer.states.states@.len() && self.eval_ok(
                s as int,
                self.work_buffer.state_eval@[s],
            ) by {
                let e2 = self.work_buffer.state_eval@[s];
                assert(before.eval_ok(s as int, e2));
                self.lemma_sides_ok_stable(&before, s as int, e2);
                assert forall|i: int|
                    e2.child_play_idxs@[0] <= i < e2.child_play_idxs@[1] implies self.child_ok(
                    s as int,
                    0,
                    #[trigger] self.work_buffer.child_plays@[i],
                ) by {
                    if lo <= i < hi {
                        assert(s == state_idx && whose == 0);
                        assert(new_range[i - lo] == self.work_buffer.child_plays@[i]);
                        let j = crate::children::lemma_same_members(new_range, old_range, i - lo);
                        assert(old_range[j] == before.work_buffer.child_plays@[j + lo]);
                        self.lemma_child_ok_stable(
                            &before,
                            s as int,
                            0,
                            before.work_buffer.child_plays@[j + lo],
                        );
                    } else {
                        self.lemma_child_ok_stable(
                            &before,
                            s as int,
                            0,
                            before.work_buffer.child_plays@[i],
                        );
                    }
                }
                assert forall|i: int|
                    e2.child_play_idxs@[1] <= i < e2.child_play_idxs@[2] implies self.child_ok(
                    s as int,
                    1,
                    #[trigger] self.work_buffer.child_plays@[i],
                ) by {
                    if lo <= i < hi {
                        assert(s == state_idx && whose == 1);
                        assert(new_range[i - lo] == self.work_buffer.child_plays@[i]);
                        let j = crate::children::lemma_same_members(new_range, old_range, i - lo);
                        assert(old_range[j] == before.work_buffer.child_plays@[j + lo]);
                        self.lemma_child_ok_stable(
                            &before,
                            s as int,
                            1,
                            before.work_buffer.child_plays@[j + lo],
                        );
                    } else {
                        self.lemma_child_ok_stable(
                            &before,
                            s as int,
                            1,
                            before.work_buffer.child_plays@[i],
                        );
                    }
                }
            }
            before.lemma_expanding_unkeyed();
            self.lemma_stack_stable(&before);
            self.lemma_states_ok_same(&before);
        }
    }

    /// Replaces the evaluation of a state by one with the same child plays.
    pub(crate) fn put_eval(&mut self, state_idx: usize, ev: StateEval)
        requires
            old(self).wf(),
            old(self).work_buffer.state_eval@.contains_key(state_idx),
            ev.child_play_idxs == old(self).work_buffer.state_eval@[state_idx].child_play_idxs,
            old(self).sides_ok(state_idx as int, ev),
        ensures
            final(self).wf(),
            final(self).extends(old(self)),
            final(self).same_start(old(self)),
            final(self).work_buffer.states == old(self).work_buffer.states,
            final(self).work_buffer.plays == old(self).work_buffer.plays,
            final(self).work_buffer.child_plays == old(self).work_buffer.child_plays,
            final(self).work_buffer.stack == old(self).work_buffer.stack,
            final(self).work_buffer.returned == old(self).work_buffer.returned,
            final(self).work_buffer.searching == old(self).work_buffer.searching,
            final(self).work_buffer.max_depth == old(self).work_buffer.max_depth,
            final(self).work_buffer.player_idx == old(self).work_buffer.player_idx,
            final(self).work_buffer.old_num_states == old(self).work_buffer.old_num_states,
            final(self).work_buffer.state_eval@ == old(self).work_buffer.state_eval@.insert(
                state_idx,
                ev,
            ),
    {
        let ghost before = *self;
        self.work_buffer.state_eval.insert(state_idx, ev);
        proof {
            assert forall|s: usize| #[trigger] self.work_buffer.state_eval@.contains_key(s) implies s
                < self.work_buffer.states.states@.len() && self.eval_ok(
                s as int,
                self.work_buffer.state_eval@[s],
            ) by {
                assert(before.work_buffer.state_eval@.contains_key(s));
                let e0 = before.work_buffer.state_eval@[s];
                let e2 = self.work_buffer.state_eval@[s];
                assert(before.eval_ok(s as int, e0));
                assert(e0.child_play_idxs == e2.child_play_idxs);
                if s == state_idx {
                    self.lemma_sides_ok_stable(&before, s as int, ev);
                } else {
                    self.lemma_sides_ok_stable(&before, s as int, e0);
                }
                assert forall|i: int|
                    e2.child_play_idxs@[0] <= i < e2.child_play_idxs@[1] implies self.child_ok(
                    s as int,
                    0,
                    #[trigger] self.work_buffer.child_plays@[i],
                ) by {
                    self.lemma_child_ok_stable(
                        &before,
                        s as int,
                        0,
                        before.work_buffer.child_plays@[i],
                    );
                }
                assert forall|i: int|
                    e2.child_play_idxs@[1] <= i < e2.child_play_idxs@[2] implies self.child_ok(
                    s as int,
                    1,
                    #[trigger] self.work_buffer.child_plays@[i],
                ) by {
                    self.lemma_child_ok_stable(
                        &before,
                        s as int,
                        1,
                        before.work_buffer.child_plays@[i],
                    );
                }
            }
            assert forall|s: usize, t: usize|
                #![trigger self.work_buffer.state_eval@.contains_key(s), self.work_buffer.state_eval@.contains_key(t)]
                self.work_buffer.state_eval@.contains_key(s)
                    && self.work_buffer.state_eval@.contains_key(t) && s
                    != t implies self.work_buffer.state_eval@[s].child_play_idxs@[2]
                <= self.work_buffer.state_eval@[t].child_play_idxs@[0]
                || self.work_buffer.state_eval@[t].child_play_idxs@[2]
                <= self.work_buffer.state_eval@[s].child_play_idxs@[0] by {
                assert(before.work_buffer.state_eval@.contains_key(s));
                assert(before.work_buffer.state_eval@.contains_key(t));
            }
            before.lemma_expanding_unkeyed();
            self.lemma_stack_stable(&before);
            self.lemma_states_ok_same(&before);
        }
    }
}

/// A copy of the bytes of a slice.
pub fn copy_slice(src: &[u8]) -> (r: Vec<u8>)
    ensures
        r@ == src@,
{
    let mut out: Vec<u8> = Vec::new();
    let mut i: usize = 0;
    while i < src.len()
        invariant
            i <= src@.len(),
            out@ == src@.take(i as int),
        decreases src@.len() - i,
    {
        out.push(src[i]);
        proof {
            assert(src@.take(i + 1) =~= src@.take(i as int).push(src@[i as int]));
        }
        i = i + 1;
    }
    proof {
        assert(src@.take(src@.len() as int) =~= src@);
    }
    out
}

} // verus!
