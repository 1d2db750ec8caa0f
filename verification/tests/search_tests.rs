use endgame::game_config::{Alphabet, BoardLayout, GenericGameConfig};
use endgame::play::Play;
use endgame::report::{FoundPlay, LineEnd};
use endgame::search::Action;
use endgame::solver::EndgameSolver;
use endgame::transposition::StateSideEvalEquityType;

fn new_solver(rows: i8, cols: i8, scores: Vec<u8>) -> EndgameSolver {
    let config = GenericGameConfig::new(Alphabet::new(scores), BoardLayout::new(rows, cols));
    EndgameSolver::new(&config)
}

fn place(down: bool, lane: i8, idx: i8, word: &[u8], score: i16) -> Play {
    Play::Place { down, lane, idx, word: word.to_vec(), score }
}

fn pass() -> Play {
    Play::Exchange { tiles: Vec::new() }
}

/// Runs an evaluation to its end and returns the valuation of every iteration.
fn run(
    solver: &mut EndgameSolver,
    player: u8,
    gen: &dyn Fn(&[u8], &[u8], u8) -> Vec<Play>,
) -> Vec<(i8, i64)> {
    let mut out = Vec::new();
    solver.evaluate(player);
    loop {
        match solver.step() {
            Action::Continue => {}
            Action::NeedMoves { state_idx, board_tiles, rack0, rack1 } => {
                let plays0 = gen(&board_tiles, &rack0, 0);
                let plays1 = gen(&board_tiles, &rack1, 1);
                assert!(solver.candidates_ok(state_idx, 0, &plays0));
                assert!(solver.candidates_ok(state_idx, 1, &plays1));
                solver.supply_moves(&plays0, &plays1);
            }
            Action::DepthDone { depth, valuation, finished } => {
                out.push((depth, valuation));
                if finished {
                    break;
                }
            }
            Action::Idle => break,
        }
    }
    out
}

fn only_pass(_board: &[u8], _rack: &[u8], _whose: u8) -> Vec<Play> {
    vec![pass()]
}

fn line(solver: &EndgameSolver, player: u8) -> (Vec<(i64, Play)>, LineEnd) {
    let mut found: Vec<FoundPlay> = Vec::new();
    let end = solver.append_solution(0, player, &mut found);
    (found.iter().map(|f| (f.equity, f.play.duplicate())).collect(), end)
}

#[test]
fn empty_racks_evaluate_to_zero_in_one_iteration() {
    let mut solver = new_solver(3, 3, vec![0, 1, 3, 3, 2]);
    solver.init(&[0; 9], [&[], &[]]);
    let results = run(&mut solver, 0, &only_pass);
    assert_eq!(results, vec![(1, 0)]);
    assert_eq!(solver.progress().states, 1);
}

#[test]
fn empty_racks_return_the_score_difference_accumulated_on_the_board() {
    let mut solver = new_solver(3, 3, vec![0, 1, 3, 3, 2]);
    solver.init(&[0, 0, 0, 0, 1, 2, 0, 0, 0], [&[], &[]]);
    for player in 0..2u8 {
        let results = run(&mut solver, player, &only_pass);
        assert_eq!(results.last().unwrap().1, 0);
    }
}

#[test]
fn both_sides_passing_from_the_root_is_worth_the_both_pass_value() {
    let mut solver = new_solver(3, 3, vec![0, 1, 3, 3, 2]);
    // player 0 holds A and B (1 + 3), player 1 holds D (2)
    solver.init(&[0; 9], [&[1, 2], &[4]]);
    assert_eq!(solver.both_pass_value(0, 0), 2 - 4);
    assert_eq!(solver.both_pass_value(0, 1), 4 - 2);
    let results = run(&mut solver, 0, &only_pass);
    assert_eq!(results, vec![(1, -2)]);
    let (moves, end) = line(&solver, 0);
    assert_eq!(moves, vec![(-2, pass()), (2, pass())]);
    assert_eq!(end, LineEnd::BothPassed);
    let mut other = new_solver(3, 3, vec![0, 1, 3, 3, 2]);
    other.init(&[0; 9], [&[1, 2], &[4]]);
    assert_eq!(run(&mut other, 1, &only_pass), vec![(1, 2)]);
}

fn play_out_gen(board: &[u8], rack: &[u8], whose: u8) -> Vec<Play> {
    let mut plays = vec![pass()];
    if whose == 0 && rack == [1, 2] && board[0] == 0 && board[1] == 0 {
        plays.push(place(false, 0, 0, &[1, 2], 10));
    }
    plays
}

#[test]
fn playing_out_earns_the_score_and_twice_the_opponents_rack() {
    let mut solver = new_solver(3, 3, vec![0, 1, 3, 3, 2]);
    // the opponent holds C and D: 3 + 2
    solver.init(&[0; 9], [&[1, 2], &[3, 4]]);
    let results = run(&mut solver, 0, &play_out_gen);
    assert_eq!(results, vec![(1, 20)]);
    let (moves, end) = line(&solver, 0);
    assert_eq!(moves, vec![(20, place(false, 0, 0, &[1, 2], 10))]);
    assert_eq!(end, LineEnd::PlayedOut);
    // the play that ends the game leads to no new state
    assert_eq!(solver.progress().states, 1);
    let root = solver.work_buffer.state_eval.get(&0).unwrap();
    assert_eq!(root.best_move[0].equity, 20);
    assert_eq!(root.best_move[0].new_state_idx, 0);
    assert_eq!(root.best_move[0].equity_type, StateSideEvalEquityType::Exact);
    assert_eq!(root.best_move[0].depth, 1);
}

fn play_out_or_more_gen(big: i16) -> impl Fn(&[u8], &[u8], u8) -> Vec<Play> {
    move |board: &[u8], rack: &[u8], whose: u8| {
        let mut plays = vec![pass()];
        if whose == 0 && rack == [1, 2] && board[0] == 0 && board[1] == 0 {
            plays.push(place(false, 0, 0, &[1, 2], 10));
            plays.push(place(false, 1, 0, &[2], big));
        }
        plays
    }
}

#[test]
fn a_play_out_is_chosen_iff_it_beats_the_best_other_play() {
    // the play-out is worth 10 + 2 * 5 = 20; the other play keeps tile A (1)
    // and meets a rack of 5, so at depth 1 it is worth its score + 5 - 1
    let mut solver = new_solver(3, 3, vec![0, 1, 3, 3, 2]);
    solver.init(&[0; 9], [&[1, 2], &[3, 4]]);
    solver.evaluate(0);
    let mut depth1 = None;
    loop {
        match solver.step() {
            Action::NeedMoves { board_tiles, rack0, rack1, .. } => {
                let gen = play_out_or_more_gen(15);
                solver.supply_moves(&gen(&board_tiles, &rack0, 0), &gen(&board_tiles, &rack1, 1));
            }
            Action::DepthDone { valuation, .. } => {
                depth1 = Some(valuation);
                break;
            }
            _ => {}
        }
    }
    assert_eq!(depth1, Some(20));
    let root = solver.work_buffer.state_eval.get(&0).unwrap();
    assert_eq!(root.best_move[0].new_state_idx, 0);

    let mut solver = new_solver(3, 3, vec![0, 1, 3, 3, 2]);
    solver.init(&[0; 9], [&[1, 2], &[3, 4]]);
    solver.evaluate(0);
    let mut depth1 = None;
    loop {
        match solver.step() {
            Action::NeedMoves { board_tiles, rack0, rack1, .. } => {
                let gen = play_out_or_more_gen(17);
                solver.supply_moves(&gen(&board_tiles, &rack0, 0), &gen(&board_tiles, &rack1, 1));
            }
            Action::DepthDone { valuation, .. } => {
                depth1 = Some(valuation);
                break;
            }
            _ => {}
        }
    }
    assert_eq!(depth1, Some(17 + 5 - 1));
    let root = solver.work_buffer.state_eval.get(&0).unwrap();
    assert_ne!(root.best_move[0].new_state_idx, 0);
}

/// Player 0 can put tile 1 on square 0 for 10 or on square 8 for 6; player 1
/// can put tile 3 on square 8 for 20 while that square is empty.
fn blocking_gen(board: &[u8], rack: &[u8], whose: u8) -> Vec<Play> {
    let mut plays = vec![pass()];
    if whose == 0 && rack.contains(&1) {
        if board[8] == 0 {
            plays.push(place(false, 2, 2, &[1], 6));
        }
        if board[0] == 0 {
            plays.push(place(false, 0, 0, &[1], 10));
        }
    }
    if whose == 1 && rack.contains(&3) && board[8] == 0 {
        plays.push(place(false, 2, 2, &[3], 20));
    }
    plays
}

fn blocking_solver() -> EndgameSolver {
    let mut solver = new_solver(3, 3, vec![0, 1, 1, 1, 1]);
    solver.init(&[0; 9], [&[1, 2], &[3, 4]]);
    solver
}

#[test]
fn a_blocking_move_wins_at_sufficient_depth() {
    let mut solver = blocking_solver();
    let results = run(&mut solver, 0, &blocking_gen);
    // at depth 1 the high score looks best: 10 and a tile less on the rack
    assert_eq!(results[0], (1, 11));
    // from depth 2 on the reply of 20 is seen, and the block is worth 6 + 1
    assert!(results.len() >= 2);
    assert_eq!(results[1], (2, 7));
    assert_eq!(results.last().unwrap().1, 7);
    let (moves, _) = line(&solver, 0);
    assert_eq!(moves[0], (7, place(false, 2, 2, &[1], 6)));
    // the search has put the block ahead of the high score
    let root = solver.work_buffer.state_eval.get(&0).unwrap();
    let first = solver.work_buffer.child_plays[root.child_play_idxs[0]];
    assert_eq!(*solver.work_buffer.plays.get(first.play_idx), place(false, 2, 2, &[1], 6));
}

#[test]
fn move_ordering_puts_the_block_first() {
    let mut solver = blocking_solver();
    solver.evaluate(0);
    loop {
        match solver.step() {
            Action::NeedMoves { state_idx, board_tiles, rack0, rack1 } => {
                assert_eq!(state_idx, 0);
                solver.supply_moves(
                    &blocking_gen(&board_tiles, &rack0, 0),
                    &blocking_gen(&board_tiles, &rack1, 1),
                );
                break;
            }
            Action::Continue => {}
            other => panic!("unexpected {:?}", other),
        }
    }
    let root = *solver.work_buffer.state_eval.get(&0).unwrap();
    let [a, b, c] = root.child_play_idxs;
    assert_eq!((b - a, c - b), (3, 2));
    let valued: Vec<(Play, i64)> = (a..b)
        .map(|i| {
            let child = solver.work_buffer.child_plays[i];
            (solver.work_buffer.plays.get(child.play_idx).duplicate(), child.valuation)
        })
        .collect();
    // by score the high score comes first; its valuation is 10 - 20, the
    // block's is 6 - 0, and a pass hands over the best reply
    assert_eq!(
        valued,
        vec![
            (place(false, 0, 0, &[1], 10), -10),
            (place(false, 2, 2, &[1], 6), 6),
            (pass(), -20),
        ]
    );
}

#[test]
fn cached_and_uncached_evaluations_agree() {
    let mut solver = blocking_solver();
    let first = run(&mut solver, 0, &blocking_gen);
    let (last_depth, last_value) = *first.last().unwrap();
    // the same evaluation on fresh tables gives the same equities
    let mut fresh = blocking_solver();
    assert_eq!(run(&mut fresh, 0, &blocking_gen), first);
    // and on the tables of the first it is answered from them
    let states = solver.progress().states;
    let again = run(&mut solver, 0, &blocking_gen);
    assert_eq!(again, vec![(1, last_value)]);
    assert_eq!(solver.progress().states, states);
    let root = solver.work_buffer.state_eval.get(&0).unwrap();
    assert!(root.best_move[0].depth >= last_depth);
}

#[test]
fn two_play_orders_reach_the_same_state() {
    let mut solver = new_solver(3, 3, vec![0, 1, 1, 1, 1]);
    solver.init(&[0; 9], [&[5, 18], &[5, 18]]);
    let e0 = solver.work_buffer.plays.intern(&place(false, 0, 0, &[5], 1));
    let r1 = solver.work_buffer.plays.intern(&place(false, 0, 1, &[18], 1));
    let e1 = solver.work_buffer.plays.intern(&place(false, 0, 1, &[5], 1));
    let e2 = solver.work_buffer.plays.intern(&place(false, 0, 0, &[5], 1));
    assert_eq!(e0, e2);
    // E then R, against R then E
    let after_e = solver.get_new_state_idx(0, 0, e0);
    let e_then_r = solver.get_new_state_idx(after_e, 1, r1);
    let after_r = solver.get_new_state_idx(0, 1, r1);
    let r_then_e = solver.get_new_state_idx(after_r, 0, e0);
    assert_eq!(e_then_r, r_then_e);
    assert_ne!(after_e, after_r);
    // who placed which of two equal tiles does not matter either
    let a = solver.get_new_state_idx(after_e, 1, e1);
    let after_e1 = solver.get_new_state_idx(0, 0, e1);
    let b = solver.get_new_state_idx(after_e1, 1, e0);
    assert_eq!(a, b);
    // a pass stays where it is
    assert_eq!(solver.get_new_state_idx(a, 0, 0), a);
    // every state comes after its parent
    for id in 1..solver.work_buffer.states.len() {
        assert!(solver.work_buffer.states.states[id].parent < id);
    }
}

/// Player 0 can put a tile 1 on square 0 or 1, player 1 a tile 2 on square 2
/// or 3, each for one point; tile 9 cannot be played.
fn independent_gen(board: &[u8], rack: &[u8], whose: u8) -> Vec<Play> {
    let mut plays = Vec::new();
    let (tile, squares) = if whose == 0 { (1u8, [0i8, 1]) } else { (2u8, [2i8, 3]) };
    for square in squares {
        if rack.contains(&tile) && board[square as usize] == 0 {
            plays.push(place(false, 0, square, &[tile], 1));
        }
    }
    plays.push(pass());
    plays
}

/// Full-width negamax over the same plays, without window or table.
fn naive(board: &[u8], racks: [&[u8]; 2], scores: &[i64], player: usize, depth: i8, passed: bool) -> i64 {
    let rack_score = |rack: &[u8]| rack.iter().map(|&t| scores[t as usize]).sum::<i64>();
    let both_pass = rack_score(racks[player ^ 1]) - rack_score(racks[player]);
    if depth == 0 {
        return both_pass;
    }
    let pass_value = if passed {
        both_pass
    } else {
        -naive(board, racks, scores, player ^ 1, depth, true)
    };
    let mut best = pass_value;
    for play in independent_gen(board, racks[player], player as u8) {
        if let Play::Place { idx, word, score, .. } = play {
            let mut next_board = board.to_vec();
            next_board[idx as usize] = word[0];
            let mut next_rack = racks[player].to_vec();
            let at = next_rack.iter().rposition(|&t| t == word[0]).unwrap();
            next_rack.remove(at);
            let next_racks: [&[u8]; 2] =
                if player == 0 { [&next_rack, racks[1]] } else { [racks[0], &next_rack] };
            let value =
                score as i64 - naive(&next_board, next_racks, scores, player ^ 1, depth - 1, false);
            best = best.max(value);
        }
    }
    best
}

#[test]
fn the_search_agrees_with_full_width_negamax() {
    let scores = vec![0u8, 1, 1, 0, 0, 0, 0, 0, 0, 0];
    let wide: Vec<i64> = scores.iter().map(|&s| s as i64).collect();
    for player in 0..2u8 {
        let mut solver = new_solver(1, 4, scores.clone());
        solver.init(&[0; 4], [&[1, 1, 9], &[2, 2, 9]]);
        let results = run(&mut solver, player, &independent_gen);
        assert!(results.len() >= 5);
        for &(depth, valuation) in &results {
            let expected =
                naive(&[0; 4], [&[1, 1, 9], &[2, 2, 9]], &wide, player as usize, depth, false);
            assert_eq!(valuation, expected, "depth {}", depth);
        }
        assert_eq!(results[0], (1, 2));
        assert_eq!(results[1], (2, 0));
        assert_eq!(results.last().unwrap().1, 0);
        // every position is stored once, however it was reached
        assert!(solver.progress().states <= 16);
        for id in 1..solver.work_buffer.states.len() {
            assert!(solver.work_buffer.states.states[id].parent < id);
        }
    }
}

#[test]
fn a_blank_plays_out_through_a_tile_on_the_board() {
    // B lies in the middle; player 1 plays A and a blank as C down through it
    let mut solver = new_solver(3, 3, vec![0, 1, 3, 3]);
    solver.init(&[0, 0, 0, 0, 2, 0, 0, 0, 0], [&[3, 1], &[0, 1]]);
    let gen = |board: &[u8], rack: &[u8], whose: u8| {
        let mut plays = vec![pass()];
        if whose == 1 && rack == [0, 1] && board[1] == 0 && board[7] == 0 {
            plays.push(place(true, 1, 0, &[1, 0, 0x83], 5));
        }
        plays
    };
    let results = run(&mut solver, 1, &gen);
    // 5 points and twice the opponent's C and A
    assert_eq!(results, vec![(1, 5 + 2 * 4)]);
    let (moves, board) = solver.best_line(1);
    assert_eq!(moves.len(), 1);
    assert_eq!(board, vec![0, 1, 0, 0, 2, 0, 0, 0x83, 0]);
}
