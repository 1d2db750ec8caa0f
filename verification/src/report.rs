//! Reporting: the principal variation read off the transposition table, the
//! board it leads to, and how far the search has come.

use crate::placement::PlacedTile;
use crate::play::{spec_in_bounds, spec_play_placements, Play, PlayView};
use crate::position::{play_fits, reconstruct, spec_play_fits};
use crate::solver::EndgameSolver;
use crate::transposition::{StateSideEval, MISSING};
use vstd::prelude::*;

verus! {

/// A move of the principal variation, with what it is worth to its mover.
#[derive(Debug)]
pub struct FoundPlay<'a> {
    pub equity: i64,
    pub play: &'a Play,
}

/// Why a principal variation ends where it ends.
#[derive(Clone, Copy, PartialEq, Eq, Structural, Debug)]
pub enum LineEnd {
    /// The state reached has no evaluation.
    NoEvaluation,
    /// The side to move has no best move on record.
    MissingPlay,
    /// The side to move passes, and the other side has no best move on record.
    MissingCounterplay,
    /// Both sides pass: the game is over.
    BothPassed,
    /// The last move empties its mover's rack: the game is over.
    PlayedOut,
    /// The state that the last move leads to was never computed.
    Unexplored,
}

/// How many of each thing the search holds.
#[derive(Clone, Copy, Debug)]
pub struct Progress {
    pub states: usize,
    pub evaluated: usize,
    pub child_plays: usize,
    pub plays: usize,
}

/// The board after the placements, made first to last; one outside the board
/// is passed over.
pub open spec fn spec_board_with(board: Seq<u8>, ps: Seq<PlacedTile>) -> Seq<u8>
    decreases ps.len(),
{
    if ps.len() == 0 {
        board
    } else {
        let before = spec_board_with(board, ps.drop_last());
        let p = ps.last();
        if 0 <= p.square < before.len() {
            before.update(p.square as int, p.tile)
        } else {
            before
        }
    }
}

/// The board after a play: that of its placements if its word lies on the
/// board, else the board as it was.
pub open spec fn spec_board_after_play(
    layout: crate::game_config::BoardLayout,
    board: Seq<u8>,
    play: PlayView,
) -> Seq<u8> {
    if spec_in_bounds(layout, play) {
        spec_board_with(board, spec_play_placements(layout, play, 0))
    } else {
        board
    }
}

/// The board after a line of plays, made first to last.
pub open spec fn spec_board_after_line(
    layout: crate::game_config::BoardLayout,
    board: Seq<u8>,
    line: Seq<PlayView>,
) -> Seq<u8>
    decreases line.len(),
{
    if line.len() == 0 {
        board
    } else {
        spec_board_after_play(
            layout,
            spec_board_after_line(layout, board, line.drop_last()),
            line.last(),
        )
    }
}

impl EndgameSolver {
    /// How far the chain of a state is from using up both racks.
    pub open spec fn spec_tiles_left(&self, state_idx: usize) -> int {
        self.rack0@.len() + self.rack1@.len() - self.chain(state_idx as int).len()
    }

    /// Whether the walk can go on from `from` to the state `next`.
    pub open spec fn spec_can_follow(&self, from: usize, next: usize) -> bool {
        &&& next != 0
        &&& next != MISSING
        &&& next < self.work_buffer.states.states@.len()
        &&& self.chain(next as int).len() > self.chain(from as int).len()
        &&& self.spec_tiles_left(next) >= 0
    }

    /// How the walk ends at the state `next` if it cannot go on there.
    pub open spec fn spec_stop(next: usize) -> LineEnd {
        if next == 0 {
            LineEnd::PlayedOut
        } else {
            LineEnd::Unexplored
        }
    }

    /// The principal variation from a state with `player_idx` to move: the
    /// best moves on record, each with the side to move after it, and why
    /// the line ends. A pass is followed by the other side's best move in
    /// the same state; two passes end the line.
    pub open spec fn spec_solution(&self, state_idx: usize, player_idx: u8) -> (Seq<StateSideEval>, LineEnd)
        decreases self.spec_tiles_left(state_idx),
    {
        if !self.work_buffer.state_eval@.contains_key(state_idx) || player_idx > 1 {
            (Seq::empty(), LineEnd::NoEvaluation)
        } else {
            let ev = self.work_buffer.state_eval@[state_idx];
            let first = ev.best_move@[player_idx as int];
            if first.play_idx >= self.work_buffer.plays.plays@.len() {
                (Seq::empty(), LineEnd::MissingPlay)
            } else if self.work_buffer.plays.plays@[first.play_idx as int]@ is Exchange {
                let second = ev.best_move@[1 - player_idx];
                if second.play_idx >= self.work_buffer.plays.plays@.len() {
                    (seq![first], LineEnd::MissingCounterplay)
                } else if self.work_buffer.plays.plays@[second.play_idx as int]@ is Exchange {
                    (seq![first, second], LineEnd::BothPassed)
                } else if self.spec_can_follow(state_idx, second.new_state_idx) {
                    let rest = self.spec_solution(second.new_state_idx, player_idx);
                    (seq![first, second] + rest.0, rest.1)
                } else {
                    (seq![first, second], Self::spec_stop(second.new_state_idx))
                }
            } else if self.spec_can_follow(state_idx, first.new_state_idx) {
                let rest = self.spec_solution(first.new_state_idx, (1 - player_idx) as u8);
                (seq![first] + rest.0, rest.1)
            } else {
                (seq![first], Self::spec_stop(first.new_state_idx))
            }
        }
    }

    /// The moves in `found` are those of the entries `entries`.
    pub open spec fn spec_reports(&self, found: Seq<FoundPlay>, entries: Seq<StateSideEval>) -> bool {
        &&& found.len() == entries.len()
        &&& forall|i: int|
            0 <= i < found.len() ==> (#[trigger] found[i]).equity == entries[i].equity
                && entries[i].play_idx < self.work_buffer.plays.plays@.len() && *found[i].play
                == self.work_buffer.plays.plays@[entries[i].play_idx as int]
    }

    /// A cached placement that leads to a state leads to one the walk can follow.
    proof fn lemma_can_follow(&self, state_idx: usize, e: StateSideEval)
        requires
            self.wf(),
            state_idx < self.work_buffer.states.states@.len(),
            self.side_ok(state_idx as int, e),
            e.play_idx < self.work_buffer.plays.plays@.len(),
            self.work_buffer.plays.plays@[e.play_idx as int]@ is Place,
            e.new_state_idx != 0,
            e.new_state_idx != MISSING,
        ensures
            self.spec_can_follow(state_idx, e.new_state_idx),
    {
        reveal(EndgameSolver::side_ok);
        self.lemma_bound_range(e.new_state_idx as int);
    }

    /// Appends the principal variation from state `state_idx` with
    /// `player_idx` to move to `out`, and says why the line ends.
    pub fn append_solution<'a>(
        &'a self,
        state_idx: usize,
        player_idx: u8,
        out: &mut Vec<FoundPlay<'a>>,
    ) -> (end: LineEnd)
        requires
            self.wf(),
        ensures
            final(out)@.len() == old(out)@.len() + self.spec_solution(state_idx, player_idx).0.len(),
            final(out)@.take(old(out)@.len() as int) == old(out)@,
            self.spec_reports(
                final(out)@.skip(old(out)@.len() as int),
                self.spec_solution(state_idx, player_idx).0,
            ),
            end == self.spec_solution(state_idx, player_idx).1,
    {
        let ghost whole = self.spec_solution(state_idx, player_idx);
        let ghost start = out@;
        let ghost mut emitted: Seq<StateSideEval> = Seq::empty();
        let mut cur: usize = state_idx;
        let mut who: u8 = player_idx;
        let mut end = LineEnd::NoEvaluation;
        let mut going = true;
        proof {
            assert(out@.skip(start.len() as int) =~= Seq::<FoundPlay>::empty());
            assert(out@.take(start.len() as int) =~= start);
            assert(emitted + whole.0 =~= whole.0);
            if self.work_buffer.state_eval@.contains_key(cur) {
                self.lemma_bound_range(cur as int);
            }
        }
        while going
            invariant
                self.wf(),
                out@.len() == start.len() + emitted.len(),
                out@.take(start.len() as int) == start,
                self.spec_reports(out@.skip(start.len() as int), emitted),
                going ==> emitted + self.spec_solution(cur, who).0 == whole.0,
                going ==> self.spec_solution(cur, who).1 == whole.1,
                going ==> self.spec_tiles_left(cur) >= 0 || !self.work_buffer.state_eval@.contains_key(
                    cur,
                ),
                !going ==> emitted == whole.0 && end == whole.1,
            decreases
                    (if going {
                        1 + if self.work_buffer.state_eval@.contains_key(cur) {
                            self.spec_tiles_left(cur) + 1
                        } else {
                            0
                        }
                    } else {
                        0
                    }),
        {
            let ghost before_out = out@;
            let ghost before_emitted = emitted;
            let cached = self.work_buffer.state_eval.get(&cur);
            if cached.is_none() || who > 1 {
                end = LineEnd::NoEvaluation;
                going = false;
                proof {
                    assert(emitted + Seq::<StateSideEval>::empty() =~= emitted);
                }
            } else {
                let ev = cached.unwrap();
                proof {
                    assert(self.work_buffer.state_eval@.contains_key(cur));
                    assert(self.eval_ok(cur as int, *ev));
                    self.lemma_bound_range(cur as int);
                }
                let first = ev.best_move[who as usize];
                if first.play_idx >= self.work_buffer.plays.plays.len() {
                    end = LineEnd::MissingPlay;
                    going = false;
                    proof {
                        assert(emitted + Seq::<StateSideEval>::empty() =~= emitted);
                    }
                } else {
                    let play = &self.work_buffer.plays.plays[first.play_idx];
                    out.push(FoundPlay { equity: first.equity, play });
                    proof {
                        emitted = emitted.push(first);
                    }
                    if play.is_exchange() {
                        let second = ev.best_move[1 - who as usize];
                        if second.play_idx >= self.work_buffer.plays.plays.len() {
                            end = LineEnd::MissingCounterplay;
                            going = false;
                            proof {
                                assert(before_emitted + seq![first] =~= emitted);
                            }
                        } else {
                            let reply = &self.work_buffer.plays.plays[second.play_idx];
                            out.push(FoundPlay { equity: second.equity, play: reply });
                            proof {
                                emitted = emitted.push(second);
                                assert(before_emitted + seq![first, second] =~= emitted);
                            }
                            if reply.is_exchange() {
                                end = LineEnd::BothPassed;
                                going = false;
                            } else if second.new_state_idx == 0 || second.new_state_idx == MISSING {
                                end = if second.new_state_idx == 0 {
                                    LineEnd::PlayedOut
                                } else {
                                    LineEnd::Unexplored
                                };
                                going = false;
                            } else {
                                proof {
                                    self.lemma_can_follow(cur, second);
                                    let rest = self.spec_solution(second.new_state_idx, who);
                                    assert(before_emitted + (seq![first, second] + rest.0) =~= emitted
                                        + rest.0);
                                }
                                cur = second.new_state_idx;
                            }
                        }
                    } else if first.new_state_idx == 0 || first.new_state_idx == MISSING {
                        end = if first.new_state_idx == 0 {
                            LineEnd::PlayedOut
                        } else {
                            LineEnd::Unexplored
                        };
                        going = false;
                        proof {
                            assert(before_emitted + seq![first] =~= emitted);
                        }
                    } else {
                        proof {
                            self.lemma_can_follow(cur, first);
                            let rest = self.spec_solution(first.new_state_idx, (1 - who) as u8);
                            assert(before_emitted + (seq![first] + rest.0) =~= emitted + rest.0);
                        }
                        cur = first.new_state_idx;
                        who = 1 - who;
                    }
                }
            }
            proof {
                let found = out@.skip(start.len() as int);
                let earlier = before_out.skip(start.len() as int);
                assert(out@.take(start.len() as int) =~= before_out.take(start.len() as int));
                assert forall|i: int| 0 <= i < found.len() implies (#[trigger] found[i]).equity
                    == emitted[i].equity && emitted[i].play_idx
                    < self.work_buffer.plays.plays@.len() && *found[i].play
                    == self.work_buffer.plays.plays@[emitted[i].play_idx as int] by {
                    if i < earlier.len() {
                        assert(found[i] == earlier[i]);
                        assert(emitted[i] == before_emitted[i]);
                    }
                }
            }
        }
        end
    }

    /// Puts the tiles of a play on a board. A play whose word does not lie
    /// on the board puts down nothing.
    pub fn place_on(&self, board: &mut Vec<u8>, play: &Play)
        requires
            self.layout.wf(),
        ensures
            final(board)@ == spec_board_after_play(self.layout, old(board)@, play@),
    {
        if play.in_bounds(&self.layout) {
            let ps = play.placements(&self.layout, 0);
            let ghost base = board@;
            let mut k: usize = 0;
            proof {
                assert(ps@.take(0) =~= Seq::<PlacedTile>::empty());
            }
            while k < ps.len()
                invariant
                    k <= ps@.len(),
                    board@ == spec_board_with(base, ps@.take(k as int)),
                decreases ps@.len() - k,
            {
                let p = ps[k];
                proof {
                    assert(ps@.take(k + 1).drop_last() =~= ps@.take(k as int));
                    assert(ps@.take(k + 1).last() == p);
                }
                if p.square >= 0 && (p.square as usize) < board.len() {
                    board.set(p.square as usize, p.tile);
                }
                k = k + 1;
            }
            proof {
                assert(ps@.take(k as int) =~= ps@);
            }
        }
    }

    /// The principal variation from the root with `player_idx` to move, and
    /// the board it leads to.
    pub fn best_line<'a>(&'a self, player_idx: u8) -> (r: (Vec<FoundPlay<'a>>, Vec<u8>))
        requires
            self.wf(),
        ensures
            self.spec_reports(r.0@, self.spec_solution(0, player_idx).0),
            r.1@ == spec_board_after_line(
                self.layout,
                self.board_tiles@,
                r.0@.map_values(|f: FoundPlay| f.play@),
            ),
    {
        let mut soln: Vec<FoundPlay<'a>> = Vec::new();
        self.append_solution(0, player_idx, &mut soln);
        proof {
            assert(soln@.skip(0) =~= soln@);
        }
        let mut board = crate::play::copy_bytes(&self.board_tiles);
        let ghost line = soln@.map_values(|f: FoundPlay| f.play@);
        let mut i: usize = 0;
        proof {
            assert(line.take(0) =~= Seq::<PlayView>::empty());
        }
        while i < soln.len()
            invariant
                i <= soln@.len(),
                self.layout.wf(),
                line == soln@.map_values(|f: FoundPlay| f.play@),
                board@ == spec_board_after_line(self.layout, self.board_tiles@, line.take(i as int)),
            decreases soln@.len() - i,
        {
            let play = soln[i].play;
            proof {
                assert(line.take(i + 1).drop_last() =~= line.take(i as int));
                assert(line.take(i + 1).last() == play@);
            }
            self.place_on(&mut board, play);
            i = i + 1;
        }
        proof {
            assert(line.take(i as int) =~= line);
        }
        (soln, board)
    }

    /// How many states, evaluations, child plays and plays the search holds.
    pub fn progress(&self) -> (r: Progress)
        ensures
            r.states == self.work_buffer.states.states@.len(),
            r.evaluated == self.work_buffer.state_eval@.len(),
            r.child_plays == self.work_buffer.child_plays@.len(),
            r.plays == self.work_buffer.plays.plays@.len(),
    {
        Progress {
            states: self.work_buffer.states.len(),
            evaluated: self.work_buffer.state_eval.len(),
            child_plays: self.work_buffer.child_plays.len(),
            plays: self.work_buffer.plays.len(),
        }
    }

    /// Whether `candidates` are plays that player `whose` can make in state
    /// `state_idx`, with a pass among them: what `supply_moves` asks of the
    /// plays it is handed.
    pub fn candidates_ok(&self, state_idx: usize, whose: u8, candidates: &Vec<Play>) -> (r: bool)
        requires
            self.wf(),
            state_idx < self.work_buffer.states.states@.len(),
            whose <= 1,
        ensures
            r == self.spec_candidates_ok(state_idx as int, whose, candidates@),
    {
        let pos = reconstruct(
            &self.work_buffer.states,
            &self.board_tiles,
            &self.rack0,
            &self.rack1,
            state_idx,
        );
        let mut has_pass = false;
        let mut k: usize = 0;
        while k < candidates.len()
            invariant
                k <= candidates@.len(),
                self.layout.wf(),
                whose <= 1,
                pos.board_tiles@ == self.spec_board(state_idx as int),
                pos.spec_rack(whose) == self.spec_rack(state_idx as int, whose),
                has_pass == exists|j: int| 0 <= j < k && (#[trigger] candidates@[j])@ is Exchange,
                forall|j: int|
                    0 <= j < k ==> spec_play_fits(
                        self.layout,
                        self.spec_board(state_idx as int),
                        self.spec_rack(state_idx as int, whose),
                        (#[trigger] candidates@[j])@,
                        whose,
                    ),
            decreases candidates@.len() - k,
        {
            if !play_fits(&self.layout, &pos.board_tiles, pos.rack(whose), &candidates[k], whose) {
                return false;
            }
            if candidates[k].is_exchange() {
                has_pass = true;
            }
            k = k + 1;
        }
        has_pass
    }
}

} // verus!
