use endgame::game_config::{Alphabet, BoardLayout, GenericGameConfig};
use endgame::play::Play;
use endgame::search::Action;
use endgame::solver::EndgameSolver;
use endgame::transposition::{
    StateSideEval, StateSideEvalEquityType, EQUITY_INFINITY, EQUITY_NEG_INFINITY, MISSING,
};
use std::collections::HashMap;

// The search written as one recursive function, with the plays generated
// where they are needed. The stepwise search must do the same, step by step.

#[derive(Clone, Copy, PartialEq, Eq, Hash, Debug)]
struct Placed {
    tile: u8,
    whose: u8,
    square: i16,
}

#[derive(Clone, Copy, PartialEq, Eq, Debug)]
struct Side {
    equity: i64,
    play_idx: usize,
    new_state_idx: usize,
    equity_type: StateSideEvalEquityType,
    depth: i8,
}

fn no_side() -> Side {
    Side {
        equity: EQUITY_NEG_INFINITY,
        play_idx: MISSING,
        new_state_idx: MISSING,
        equity_type: StateSideEvalEquityType::LowerBound,
        depth: i8::MIN,
    }
}

#[derive(Clone, Copy, PartialEq, Eq, Debug)]
struct Eval {
    best_place_move: [Side; 2],
    best_move: [Side; 2],
    child_play_idxs: [usize; 3],
}

#[derive(Clone, Copy, PartialEq, Eq, Debug)]
struct Child {
    play_idx: usize,
    new_state_idx: usize,
    valuation: i64,
}

struct Recursive {
    rows: usize,
    cols: usize,
    scores: Vec<i64>,
    board: Vec<u8>,
    racks: [Vec<u8>; 2],
    states: Vec<(usize, Placed)>,
    finder: HashMap<(usize, Placed), usize>,
    evals: HashMap<usize, Eval>,
    plays: Vec<Play>,
    children: Vec<Child>,
}

fn blank_wiped(tile: u8) -> u8 {
    if tile >= 0x80 {
        0
    } else {
        tile
    }
}

fn move_score(play: &Play) -> i64 {
    match play {
        Play::Exchange { .. } => 0,
        Play::Place { score, .. } => *score as i64,
    }
}

impl Recursive {
    fn new(rows: usize, cols: usize, scores: &[u8], board: &[u8], racks: [&[u8]; 2]) -> Self {
        Recursive {
            rows,
            cols,
            scores: scores.iter().map(|&s| s as i64).collect(),
            board: board.to_vec(),
            racks: [racks[0].to_vec(), racks[1].to_vec()],
            states: vec![(MISSING, Placed { tile: 255, whose: 255, square: -1 })],
            finder: HashMap::new(),
            evals: HashMap::new(),
            plays: vec![Play::pass()],
            children: Vec::new(),
        }
    }

    fn score(&self, tile: u8) -> i64 {
        if tile == 0 || tile as usize >= self.scores.len() {
            0
        } else {
            self.scores[tile as usize]
        }
    }

    fn rack_score(&self, rack: &[u8]) -> i64 {
        rack.iter().map(|&t| self.score(t)).sum()
    }

    fn squares(&self, play: &Play) -> Vec<(usize, u8)> {
        let mut out = Vec::new();
        if let Play::Place { down, lane, idx, word, .. } = play {
            for (k, &tile) in word.iter().enumerate() {
                if tile != 0 {
                    let i = *idx as usize + k;
                    let lane = *lane as usize;
                    out.push((if *down { i * self.cols + lane } else { lane * self.cols + i }, tile));
                }
            }
        }
        out
    }

    fn chain(&self, mut state_idx: usize) -> Vec<Placed> {
        let mut out = Vec::new();
        while state_idx != 0 {
            out.push(self.states[state_idx].1);
            state_idx = self.states[state_idx].0;
        }
        out.reverse();
        out
    }

    fn get_new_state_idx(&mut self, state_idx: usize, which_player: u8, play_idx: usize) -> usize {
        let play = self.plays[play_idx].duplicate();
        if play.is_exchange() {
            return state_idx;
        }
        let mut list = self.chain(state_idx);
        for (square, tile) in self.squares(&play) {
            list.push(Placed { tile, whose: which_player, square: square as i16 });
        }
        list.sort_by_key(|p| (p.tile, p.square));
        // within each run of equal tiles, and among all the blanks, player 0 first
        let mut start = 0;
        while start < list.len() {
            let group = list[start].tile.min(0x80);
            let mut end = start;
            while end < list.len() && list[end].tile.min(0x80) == group {
                end += 1;
            }
            let zeros = list[start..end].iter().filter(|p| p.whose == 0).count();
            for (k, p) in list[start..end].iter_mut().enumerate() {
                p.whose = if k < zeros { 0 } else { 1 };
            }
            start = end;
        }
        let mut new_state_idx = 0;
        for placed in list {
            let next = self.states.len();
            let found = *self.finder.entry((new_state_idx, placed)).or_insert(next);
            if found == next {
                self.states.push((new_state_idx, placed));
            }
            new_state_idx = found;
        }
        new_state_idx
    }

    fn position(&self, state_idx: usize) -> (Vec<u8>, [Vec<u8>; 2]) {
        let mut board = self.board.clone();
        let mut racks = self.racks.clone();
        let mut cur = state_idx;
        while cur != 0 {
            let (parent, placed) = self.states[cur];
            board[placed.square as usize] = placed.tile;
            let rack = &mut racks[placed.whose as usize];
            let at = rack.iter().rposition(|&t| t == blank_wiped(placed.tile)).unwrap();
            rack.remove(at);
            cur = parent;
        }
        (board, racks)
    }

    fn both_pass_value(&self, state_idx: usize, player_idx: u8) -> i64 {
        let mut left = [self.rack_score(&self.racks[0]), self.rack_score(&self.racks[1])];
        for placed in self.chain(state_idx) {
            left[placed.whose as usize] -= self.score(blank_wiped(placed.tile));
        }
        left[player_idx as usize ^ 1] - left[player_idx as usize]
    }

    // for every square the nearest empty squares: left, right, up, down
    fn blocked(&self, board: &[u8]) -> Vec<[usize; 4]> {
        let mut map = vec![[0usize; 4]; board.len()];
        for row in 0..self.rows {
            let at = |i: usize| row * self.cols + i;
            let mut last = at(0);
            for i in 0..self.cols {
                if board[at(i)] == 0 {
                    last = at(i);
                }
                map[at(i)][0] = last;
            }
            last = at(self.cols - 1);
            for i in (0..self.cols).rev() {
                if board[at(i)] == 0 {
                    last = at(i);
                }
                map[at(i)][1] = last;
            }
        }
        for col in 0..self.cols {
            let at = |i: usize| i * self.cols + col;
            let mut last = at(0);
            for i in 0..self.rows {
                if board[at(i)] == 0 {
                    last = at(i);
                }
                map[at(i)][2] = last;
            }
            last = at(self.rows - 1);
            for i in (0..self.rows).rev() {
                if board[at(i)] == 0 {
                    last = at(i);
                }
                map[at(i)][3] = last;
            }
        }
        map
    }

    fn expand(&mut self, state_idx: usize, gen: &dyn Fn(&[u8], &[u8], u8) -> Vec<Play>) {
        let (board, racks) = self.position(state_idx);
        let rack_scores = [self.rack_score(&racks[0]), self.rack_score(&racks[1])];
        let blocked = self.blocked(&board);
        let mut idxs = [self.children.len(), 0, 0];
        for which_player in 0..2 {
            for candidate in gen(&board, &racks[which_player], which_player as u8) {
                if candidate.is_exchange() {
                    self.children.push(Child { play_idx: 0, new_state_idx: state_idx, valuation: 0 });
                } else {
                    let play_idx = match self.plays.iter().position(|p| p.same(&candidate)) {
                        Some(found) => found,
                        None => {
                            self.plays.push(candidate);
                            self.plays.len() - 1
                        }
                    };
                    self.children.push(Child { play_idx, new_state_idx: MISSING, valuation: 0 });
                }
            }
            idxs[which_player + 1] = self.children.len();
        }
        let plays = &self.plays;
        for which_player in 0..2 {
            self.children[idxs[which_player]..idxs[which_player + 1]]
                .sort_by(|a, b| move_score(&plays[b.play_idx]).cmp(&move_score(&plays[a.play_idx])));
        }
        for which_player in 0..2 {
            let (lo, hi) = (idxs[which_player], idxs[which_player + 1]);
            let (opp_lo, opp_hi) = (idxs[which_player ^ 1], idxs[(which_player ^ 1) + 1]);
            for i in lo..hi {
                let play = &self.plays[self.children[i].play_idx];
                if play.is_exchange() {
                    self.children[i].valuation =
                        -move_score(&self.plays[self.children[opp_lo].play_idx]);
                } else if self.squares(play).len() == racks[which_player].len() {
                    self.children[i].new_state_idx = 0;
                    self.children[i].valuation =
                        move_score(play) + 2 * rack_scores[which_player ^ 1];
                } else {
                    let mut affected = Vec::new();
                    for (square, _) in self.squares(play) {
                        affected.push(square);
                        affected.extend_from_slice(&blocked[square]);
                    }
                    let mut best_unblocked = 0;
                    for reply in &self.children[opp_lo..opp_hi] {
                        let reply = &self.plays[reply.play_idx];
                        if reply.is_exchange() {
                            continue;
                        }
                        if !self.squares(reply).iter().any(|(square, _)| affected.contains(square)) {
                            best_unblocked = move_score(reply);
                            break;
                        }
                    }
                    self.children[i].valuation = move_score(play) - best_unblocked;
                }
            }
        }
        self.evals.insert(
            state_idx,
            Eval {
                best_place_move: [no_side(), no_side()],
                best_move: [no_side(), no_side()],
                child_play_idxs: idxs,
            },
        );
    }

    fn negamax(
        &mut self,
        gen: &dyn Fn(&[u8], &[u8], u8) -> Vec<Play>,
        state_idx: usize,
        player_idx: u8,
        depth: i8,
        mut alpha: i64,
        mut beta: i64,
        just_passed: bool,
    ) -> i64 {
        if depth == 0 {
            return self.both_pass_value(state_idx, player_idx);
        }
        let pass_valuation = if just_passed {
            self.both_pass_value(state_idx, player_idx)
        } else {
            -self.negamax(gen, state_idx, player_idx ^ 1, depth, -beta, -alpha, true)
        };
        let alpha_orig = alpha;
        let beta_orig = beta;
        if let Some(eval) = self.evals.get(&state_idx) {
            let cached = eval.best_move[player_idx as usize];
            if cached.depth >= depth {
                match cached.equity_type {
                    StateSideEvalEquityType::Exact => return cached.equity,
                    StateSideEvalEquityType::LowerBound => alpha = alpha.max(cached.equity),
                    StateSideEvalEquityType::UpperBound => beta = beta.min(cached.equity),
                }
                if alpha >= beta {
                    return cached.equity;
                }
            }
        } else {
            self.expand(state_idx, gen);
        }
        let eval = self.evals[&state_idx];
        let low = eval.child_play_idxs[player_idx as usize];
        let high = eval.child_play_idxs[player_idx as usize + 1];
        self.children[low..high].sort_by(|a, b| b.valuation.cmp(&a.valuation));
        let mut best_idx = low;
        let mut pass_idx = low;
        for i in low..high {
            let play_idx = self.children[i].play_idx;
            if self.plays[play_idx].is_exchange() {
                pass_idx = i;
                self.children[i].valuation = pass_valuation;
                continue;
            }
            let child_valuation = if self.children[i].new_state_idx == 0 {
                self.children[i].valuation
            } else {
                if self.children[i].new_state_idx == MISSING {
                    self.children[i].new_state_idx =
                        self.get_new_state_idx(state_idx, player_idx, play_idx);
                }
                move_score(&self.plays[play_idx])
                    - self.negamax(
                        gen,
                        self.children[i].new_state_idx,
                        player_idx ^ 1,
                        depth - 1,
                        -beta,
                        -alpha,
                        false,
                    )
            };
            self.children[i].valuation = child_valuation;
            if child_valuation > self.children[best_idx].valuation {
                best_idx = i;
            }
            if child_valuation > alpha {
                alpha = child_valuation;
                if alpha >= beta {
                    break;
                }
            }
        }
        let best = self.children[best_idx];
        let window_valuation = if best_idx == pass_idx { EQUITY_NEG_INFINITY } else { best.valuation };
        let eval = self.evals.get_mut(&state_idx).unwrap();
        let p = player_idx as usize;
        eval.best_place_move[p] = Side {
            equity: best.valuation,
            play_idx: best.play_idx,
            new_state_idx: best.new_state_idx,
            equity_type: if window_valuation <= alpha_orig {
                StateSideEvalEquityType::UpperBound
            } else if window_valuation >= beta {
                StateSideEvalEquityType::LowerBound
            } else {
                StateSideEvalEquityType::Exact
            },
            depth,
        };
        eval.best_move[p] = if pass_valuation > best.valuation {
            Side {
                equity: pass_valuation,
                play_idx: 0,
                new_state_idx: state_idx,
                equity_type: StateSideEvalEquityType::Exact,
                depth,
            }
        } else {
            eval.best_place_move[p]
        };
        if !just_passed {
            eval.best_move[p ^ 1] = if -best.valuation > eval.best_place_move[p ^ 1].equity {
                Side {
                    equity: -best.valuation,
                    play_idx: 0,
                    new_state_idx: state_idx,
                    equity_type: if beta_orig <= window_valuation {
                        StateSideEvalEquityType::UpperBound
                    } else if alpha_orig >= window_valuation {
                        StateSideEvalEquityType::LowerBound
                    } else {
                        StateSideEvalEquityType::Exact
                    },
                    depth,
                }
            } else {
                eval.best_place_move[p ^ 1]
            };
        }
        best.valuation
    }

    fn evaluate(
        &mut self,
        gen: &dyn Fn(&[u8], &[u8], u8) -> Vec<Play>,
        player_idx: u8,
    ) -> Vec<(i8, i64)> {
        let mut out = Vec::new();
        for max_depth in 1..=i8::MAX {
            let old_num_states = self.states.len();
            let valuation = self.negamax(
                gen,
                0,
                player_idx,
                max_depth,
                EQUITY_NEG_INFINITY,
                EQUITY_INFINITY,
                false,
            );
            out.push((max_depth, valuation));
            if self.states.len() == old_num_states {
                break;
            }
        }
        out
    }
}

fn stepwise(
    solver: &mut EndgameSolver,
    player: u8,
    gen: &dyn Fn(&[u8], &[u8], u8) -> Vec<Play>,
) -> Vec<(i8, i64)> {
    let mut out = Vec::new();
    solver.evaluate(player);
    loop {
        match solver.step() {
            Action::Continue => {}
            Action::NeedMoves { board_tiles, rack0, rack1, .. } => {
                let plays0 = gen(&board_tiles, &rack0, 0);
                let plays1 = gen(&board_tiles, &rack1, 1);
                assert!(solver.offer_moves(&plays0, &plays1));
            }
            Action::DepthDone { depth, valuation, finished } => {
                out.push((depth, valuation));
                if finished {
                    break;
                }
            }
            Action::Idle => break,
        }
    }
    out
}

fn side_of(e: &StateSideEval) -> Side {
    Side {
        equity: e.equity,
        play_idx: e.play_idx,
        new_state_idx: e.new_state_idx,
        equity_type: e.equity_type,
        depth: e.depth,
    }
}

/// Every tile of the rack on every empty square, and the first two tiles of
/// the rack side by side; a blank stands for the letter 1.
fn all_placements(cols: usize) -> impl Fn(&[u8], &[u8], u8) -> Vec<Play> {
    move |board: &[u8], rack: &[u8], whose: u8| {
        let mut plays = Vec::new();
        let mut tiles: Vec<u8> = rack.to_vec();
        tiles.sort();
        tiles.dedup();
        for square in 0..board.len() {
            if board[square] != 0 {
                continue;
            }
            let (row, col) = ((square / cols) as i8, (square % cols) as i8);
            for &tile in &tiles {
                let placed = if tile == 0 { 0x81 } else { tile };
                let score = (tile as i16 * 7 + square as i16 * 5 + whose as i16 * 3) % 13;
                if (square + tile as usize) % 2 == 0 {
                    plays.push(Play::Place { down: false, lane: row, idx: col, word: vec![placed], score });
                } else {
                    plays.push(Play::Place { down: true, lane: col, idx: row, word: vec![placed], score });
                }
            }
            if rack.len() >= 2 && rack[0] != 0 && rack[1] != 0 && col as usize + 1 < cols {
                if board[square + 1] == 0 {
                    plays.push(Play::Place {
                        down: false,
                        lane: row,
                        idx: col,
                        word: vec![rack[0], rack[1]],
                        score: 9 + (square as i16 % 4),
                    });
                } else if col as usize + 2 < cols && board[square + 2] == 0 {
                    plays.push(Play::Place {
                        down: false,
                        lane: row,
                        idx: col,
                        word: vec![rack[0], 0, rack[1]],
                        score: 14,
                    });
                }
            }
        }
        plays.insert(plays.len() / 2, Play::pass());
        plays
    }
}

fn compare(rows: i8, cols: i8, scores: &[u8], board: &[u8], racks: [&[u8]; 2], player: u8) {
    let gen = all_placements(cols as usize);
    let mut recursive = Recursive::new(rows as usize, cols as usize, scores, board, racks);
    let expected = recursive.evaluate(&gen, player);

    let config =
        GenericGameConfig::new(Alphabet::new(scores.to_vec()), BoardLayout::new(rows, cols));
    let mut solver = EndgameSolver::new(&config);
    solver.init(board, racks);
    let results = stepwise(&mut solver, player, &gen);

    assert_eq!(results, expected);
    let states: Vec<(usize, Placed)> = solver
        .work_buffer
        .states
        .states
        .iter()
        .map(|s| {
            let p = s.placement;
            (s.parent, Placed { tile: p.tile, whose: p.whose, square: p.square })
        })
        .collect();
    assert_eq!(states, recursive.states);
    assert_eq!(solver.work_buffer.plays.plays, recursive.plays);
    let children: Vec<Child> = solver
        .work_buffer
        .child_plays
        .iter()
        .map(|c| Child { play_idx: c.play_idx, new_state_idx: c.new_state_idx, valuation: c.valuation })
        .collect();
    assert_eq!(children, recursive.children);
    assert_eq!(solver.work_buffer.state_eval.len(), recursive.evals.len());
    for (state_idx, eval) in &recursive.evals {
        let found = solver.work_buffer.state_eval.get(state_idx).unwrap();
        assert_eq!(found.child_play_idxs, eval.child_play_idxs);
        for p in 0..2 {
            assert_eq!(side_of(&found.best_place_move[p]), eval.best_place_move[p]);
            assert_eq!(side_of(&found.best_move[p]), eval.best_move[p]);
        }
    }
}

#[test]
fn stepwise_and_recursive_search_agree_on_a_small_board() {
    compare(2, 2, &[0, 1, 3, 2], &[0; 4], [&[1, 2], &[3, 1]], 0);
    compare(2, 2, &[0, 1, 3, 2], &[0; 4], [&[1, 2], &[3, 1]], 1);
    compare(2, 2, &[0, 1, 3, 2], &[0, 2, 0, 0], [&[1], &[3, 3]], 0);
}

#[test]
fn stepwise_and_recursive_search_agree_with_blanks() {
    compare(2, 3, &[0, 1, 3, 2], &[0, 0, 3, 0, 0, 0], [&[0, 2], &[1, 1]], 0);
    compare(2, 3, &[0, 1, 3, 2], &[0, 0, 3, 0, 0, 0], [&[0, 2], &[1, 1]], 1);
    compare(1, 4, &[0, 4, 1, 1], &[0; 4], [&[2, 0], &[0, 3]], 1);
}

#[test]
fn stepwise_and_recursive_search_agree_on_many_positions() {
    let mut seed: u32 = 12345;
    let mut next = move |n: u32| {
        seed = seed.wrapping_mul(1103515245).wrapping_add(12345);
        (seed >> 16) % n
    };
    for _ in 0..12 {
        let (rows, cols) = [(1, 4), (2, 2), (2, 3), (1, 5)][next(4) as usize];
        let size = (rows * cols) as usize;
        let mut board = vec![0u8; size];
        if next(2) == 0 {
            board[next(size as u32) as usize] = 1 + next(3) as u8;
        }
        let rack0: Vec<u8> = (0..1 + next(2)).map(|_| next(4) as u8).collect();
        let rack1: Vec<u8> = (0..1 + next(2)).map(|_| next(4) as u8).collect();
        let scores = [0, 1 + next(4) as u8, 1 + next(4) as u8, 1 + next(4) as u8];
        compare(rows, cols, &scores, &board, [&rack0, &rack1], next(2) as u8);
    }
}
