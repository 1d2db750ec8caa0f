//! Cached evaluations of positions, with the bounds that make them reusable.

use vstd::prelude::*;

verus! {

/// Stands for an equity above every score.
pub const EQUITY_INFINITY: i64 = 0x4000_0000_0000_0000;

/// Stands for an equity below every score.
pub const EQUITY_NEG_INFINITY: i64 = -0x4000_0000_0000_0000;

/// No equity that the search computes is farther from 0.
pub const EQUITY_LIMIT: i64 = 0x400_0000_0000;

/// A number that stands for no play and no state: not computed yet.
pub const MISSING: usize = usize::MAX;

/// An equity of the search: a number within the limit, or one of the two infinities.
pub open spec fn is_equity(e: i64) -> bool {
    e == EQUITY_INFINITY || e == EQUITY_NEG_INFINITY || -EQUITY_LIMIT <= e <= EQUITY_LIMIT
}

/// How a cached equity relates to the value of the position.
#[derive(Clone, Copy, PartialEq, Eq, Structural, Debug)]
pub enum StateSideEvalEquityType {
    /// The value itself.
    Exact,
    /// The value is at least this.
    LowerBound,
    /// The value is at most this.
    UpperBound,
}

/// The best move found for one side in a position.
#[derive(Clone, Copy, Debug)]
pub struct StateSideEval {
    pub equity: i64,
    pub play_idx: usize,
    pub new_state_idx: usize,
    pub equity_type: StateSideEvalEquityType,
    pub depth: i8,
}

impl StateSideEval {
    /// Nothing found yet: below every score, at no depth.
    pub open spec fn spec_new() -> StateSideEval {
        StateSideEval {
            equity: EQUITY_NEG_INFINITY,
            play_idx: MISSING,
            new_state_idx: MISSING,
            equity_type: StateSideEvalEquityType::LowerBound,
            depth: i8::MIN,
        }
    }

    /// An entry that holds nothing yet.
    pub fn new() -> (r: StateSideEval)
        ensures
            r == StateSideEval::spec_new(),
    {
        StateSideEval {
            equity: EQUITY_NEG_INFINITY,
            play_idx: MISSING,
            new_state_idx: MISSING,
            equity_type: StateSideEvalEquityType::LowerBound,
            depth: i8::MIN,
        }
    }
}

/// What a cached evaluation says to a search of `depth` with the window from
/// `alpha` to `beta`.
#[derive(Clone, Copy, PartialEq, Eq, Structural, Debug)]
pub enum Probe {
    /// The search is answered: this is its value.
    Cutoff(i64),
    /// The search goes on, with this window.
    Window(i64, i64),
}

/// A cached evaluation is usable if it was made at `depth` or deeper. Then an
/// exact one answers the search; a lower bound raises `alpha` and an upper
/// bound lowers `beta`, and if the window closes, the cached equity answers.
pub open spec fn spec_probe(e: StateSideEval, depth: i8, alpha: i64, beta: i64) -> Probe {
    if e.depth >= depth {
        match e.equity_type {
            StateSideEvalEquityType::Exact => Probe::Cutoff(e.equity),
            StateSideEvalEquityType::LowerBound => {
                let a = if e.equity > alpha {
                    e.equity
                } else {
                    alpha
                };
                if a >= beta {
                    Probe::Cutoff(e.equity)
                } else {
                    Probe::Window(a, beta)
                }
            },
            StateSideEvalEquityType::UpperBound => {
                let b = if e.equity < beta {
                    e.equity
                } else {
                    beta
                };
                if alpha >= b {
                    Probe::Cutoff(e.equity)
                } else {
                    Probe::Window(alpha, b)
                }
            },
        }
    } else {
        Probe::Window(alpha, beta)
    }
}

/// What a cached evaluation says to a search.
pub fn probe(e: &StateSideEval, depth: i8, alpha: i64, beta: i64) -> (r: Probe)
    ensures
        r == spec_probe(*e, depth, alpha, beta),
{
    if e.depth >= depth {
        match e.equity_type {
            StateSideEvalEquityType::Exact => Probe::Cutoff(e.equity),
            StateSideEvalEquityType::LowerBound => {
                let a = if e.equity > alpha {
                    e.equity
                } else {
                    alpha
                };
                if a >= beta {
                    Probe::Cutoff(e.equity)
                } else {
                    Probe::Window(a, beta)
                }
            },
            StateSideEvalEquityType::UpperBound => {
                let b = if e.equity < beta {
                    e.equity
                } else {
                    beta
                };
                if alpha >= b {
                    Probe::Cutoff(e.equity)
                } else {
                    Probe::Window(alpha, b)
                }
            },
        }
    } else {
        Probe::Window(alpha, beta)
    }
}

/// An exact entry answers every search that is no deeper than it, whatever
/// the window: two such searches get the same equity.
pub proof fn lemma_exact_is_window_independent(
    e: StateSideEval,
    depth1: i8,
    alpha1: i64,
    beta1: i64,
    depth2: i8,
    alpha2: i64,
    beta2: i64,
)
    requires
        e.equity_type == StateSideEvalEquityType::Exact,
        e.depth >= depth1,
        e.depth >= depth2,
    ensures
        spec_probe(e, depth1, alpha1, beta1) == Probe::Cutoff(e.equity),
        spec_probe(e, depth1, alpha1, beta1) == spec_probe(e, depth2, alpha2, beta2),
{
}

/// A bound narrows the window from its own side only, and never widens it: a
/// lower bound leaves `beta` alone and an upper bound leaves `alpha` alone.
/// It answers the search only when the window closes, and then with the
/// cached equity, which lies at or beyond the side of the window it bounds.
pub proof fn lemma_bounds_narrow(e: StateSideEval, depth: i8, alpha: i64, beta: i64)
    ensures
        match spec_probe(e, depth, alpha, beta) {
            Probe::Window(a, b) => {
                &&& alpha <= a
                &&& b <= beta
                &&& (alpha < beta ==> a < b)
                &&& e.equity_type == StateSideEvalEquityType::LowerBound ==> b == beta
                &&& e.equity_type == StateSideEvalEquityType::UpperBound ==> a == alpha
                &&& e.depth < depth ==> a == alpha && b == beta
            },
            Probe::Cutoff(v) => {
                &&& v == e.equity
                &&& e.depth >= depth
                &&& e.equity_type == StateSideEvalEquityType::LowerBound ==> v >= beta || alpha
                    >= beta
                &&& e.equity_type == StateSideEvalEquityType::UpperBound ==> v <= alpha || alpha
                    >= beta
            },
        },
{
}

/// How the equity of a finished search relates to the position's value: an
/// upper bound if the search failed low (no better than `alpha`), a lower
/// bound if it failed high (no worse than `beta`), else exact.
pub open spec fn spec_bound_type(value: i64, alpha: i64, beta: i64) -> StateSideEvalEquityType {
    if value <= alpha {
        StateSideEvalEquityType::UpperBound
    } else if value >= beta {
        StateSideEvalEquityType::LowerBound
    } else {
        StateSideEvalEquityType::Exact
    }
}

/// How the equity of a finished search relates to the position's value.
pub fn bound_type(value: i64, alpha: i64, beta: i64) -> (r: StateSideEvalEquityType)
    ensures
        r == spec_bound_type(value, alpha, beta),
{
    if value <= alpha {
        StateSideEvalEquityType::UpperBound
    } else if value >= beta {
        StateSideEvalEquityType::LowerBound
    } else {
        StateSideEvalEquityType::Exact
    }
}

/// The bound that a search records says how it ended: an upper bound if and
/// only if it failed low, a lower bound if and only if it failed high, and
/// exact if and only if its value lies strictly inside the window.
pub proof fn lemma_bound_says_how_the_search_ended(value: i64, alpha: i64, beta: i64)
    ensures
        spec_bound_type(value, alpha, beta) == StateSideEvalEquityType::UpperBound <==> value
            <= alpha,
        spec_bound_type(value, alpha, beta) == StateSideEvalEquityType::LowerBound <==> alpha
            < value && beta <= value,
        spec_bound_type(value, alpha, beta) == StateSideEvalEquityType::Exact <==> alpha < value
            < beta,
{
}

/// The evaluation of a position: for each side its best placement and its
/// best move (a pass allowed), and where the side's candidate plays stand in
/// the buffer of child plays: player 0's from `child_play_idxs[0]` up to
/// `child_play_idxs[1]`, player 1's from there up to `child_play_idxs[2]`.
#[derive(Clone, Copy, Debug)]
pub struct StateEval {
    pub best_place_move: [StateSideEval; 2],
    pub best_move: [StateSideEval; 2],
    pub child_play_idxs: [usize; 3],
}

/// What a finished search of a position has found.
pub struct SearchResult {
    /// The side that was to move.
    pub player_idx: u8,
    pub state_idx: usize,
    pub depth: i8,
    /// The window's lower end when the search began.
    pub alpha_orig: i64,
    /// The window's upper end when the search began.
    pub beta_orig: i64,
    /// The window's upper end after the cached evaluation was applied.
    pub beta: i64,
    pub pass_valuation: i64,
    pub just_passed: bool,
    /// The best child: its valuation, its play and the state it leads to.
    pub best_valuation: i64,
    pub best_play_idx: usize,
    pub best_new_state_idx: usize,
    /// Whether the best child is the pass.
    pub best_is_pass: bool,
}

impl SearchResult {
    /// The valuation that is held against the window: none if only the pass is left.
    pub open spec fn spec_window_valuation(self) -> i64 {
        if self.best_is_pass {
            EQUITY_NEG_INFINITY
        } else {
            self.best_valuation
        }
    }

    /// The mover's best placement: the best child, bounded by the window.
    pub open spec fn spec_best_place_move(self) -> StateSideEval {
        StateSideEval {
            equity: self.best_valuation,
            play_idx: self.best_play_idx,
            new_state_idx: self.best_new_state_idx,
            equity_type: spec_bound_type(self.spec_window_valuation(), self.alpha_orig, self.beta),
            depth: self.depth,
        }
    }

    /// The mover's best move: the pass if it is worth more than the best
    /// placement, else the best placement.
    pub open spec fn spec_best_move(self) -> StateSideEval {
        if self.pass_valuation > self.best_valuation {
            StateSideEval {
                equity: self.pass_valuation,
                play_idx: 0,
                new_state_idx: self.state_idx,
                equity_type: StateSideEvalEquityType::Exact,
                depth: self.depth,
            }
        } else {
            self.spec_best_place_move()
        }
    }

    /// The other side's best move, seen after the mover's search: to pass,
    /// if the mover's best is worse for the other side than its own best
    /// placement `other_place`; else that placement.
    pub open spec fn spec_other_best_move(self, other_place: StateSideEval) -> StateSideEval {
        if -self.best_valuation > other_place.equity {
            StateSideEval {
                equity: (-self.best_valuation) as i64,
                play_idx: 0,
                new_state_idx: self.state_idx,
                equity_type: if self.beta_orig <= self.spec_window_valuation() {
                    StateSideEvalEquityType::UpperBound
                } else if self.alpha_orig >= self.spec_window_valuation() {
                    StateSideEvalEquityType::LowerBound
                } else {
                    StateSideEvalEquityType::Exact
                },
                depth: self.depth,
            }
        } else {
            other_place
        }
    }
}

impl StateEval {
    /// A fresh evaluation whose child plays begin at `first`.
    pub fn new(first: usize, second: usize, end: usize) -> (r: StateEval)
        ensures
            r.best_place_move@ == seq![StateSideEval::spec_new(), StateSideEval::spec_new()],
            r.best_move@ == seq![StateSideEval::spec_new(), StateSideEval::spec_new()],
            r.child_play_idxs@ == seq![first, second, end],
    {
        let r = StateEval {
            best_place_move: [StateSideEval::new(), StateSideEval::new()],
            best_move: [StateSideEval::new(), StateSideEval::new()],
            child_play_idxs: [first, second, end],
        };
        proof {
            assert(r.best_place_move@ =~= seq![StateSideEval::spec_new(), StateSideEval::spec_new()]);
            assert(r.best_move@ =~= seq![StateSideEval::spec_new(), StateSideEval::spec_new()]);
            assert(r.child_play_idxs@ =~= seq![first, second, end]);
        }
        r
    }

    /// `r` is this evaluation after the search that found `found`: the
    /// mover's two entries are replaced, and unless the mover came here by a
    /// pass, so is the other side's best move. The child plays stay.
    pub open spec fn spec_recorded(self, found: SearchResult, r: StateEval) -> bool {
        &&& r.child_play_idxs == self.child_play_idxs
        &&& r.best_place_move@[found.player_idx as int] == found.spec_best_place_move()
        &&& r.best_place_move@[1 - found.player_idx] == self.best_place_move@[1
            - found.player_idx]
        &&& r.best_move@[found.player_idx as int] == found.spec_best_move()
        &&& r.best_move@[1 - found.player_idx] == if found.just_passed {
            self.best_move@[1 - found.player_idx]
        } else {
            found.spec_other_best_move(self.best_place_move@[1 - found.player_idx])
        }
    }

    /// The evaluation after a search.
    pub fn record(&self, found: &SearchResult) -> (r: StateEval)
        requires
            found.player_idx <= 1,
            is_equity(found.best_valuation),
        ensures
            self.spec_recorded(*found, r),
    {
        let p = found.player_idx as usize;
        let q = 1 - p;
        let window_valuation = if found.best_is_pass {
            EQUITY_NEG_INFINITY
        } else {
            found.best_valuation
        };
        let place = StateSideEval {
            equity: found.best_valuation,
            play_idx: found.best_play_idx,
            new_state_idx: found.best_new_state_idx,
            equity_type: bound_type(window_valuation, found.alpha_orig, found.beta),
            depth: found.depth,
        };
        let best = if found.pass_valuation > found.best_valuation {
            StateSideEval {
                equity: found.pass_valuation,
                play_idx: 0,
                new_state_idx: found.state_idx,
                equity_type: StateSideEvalEquityType::Exact,
                depth: found.depth,
            }
        } else {
            place
        };
        let other_place = self.best_place_move[q];
        let other = if found.just_passed {
            self.best_move[q]
        } else if -found.best_valuation > other_place.equity {
            StateSideEval {
                equity: -found.best_valuation,
                play_idx: 0,
                new_state_idx: found.state_idx,
                equity_type: if found.beta_orig <= window_valuation {
                    StateSideEvalEquityType::UpperBound
                } else if found.alpha_orig >= window_valuation {
                    StateSideEvalEquityType::LowerBound
                } else {
                    StateSideEvalEquityType::Exact
                },
                depth: found.depth,
            }
        } else {
            other_place
        };
        if p == 0 {
            StateEval {
                best_place_move: [place, other_place],
                best_move: [best, other],
                child_play_idxs: self.child_play_idxs,
            }
        } else {
            StateEval {
                best_place_move: [other_place, place],
                best_move: [other, best],
                child_play_idxs: self.child_play_idxs,
            }
        }
    }
}

} // verus!
