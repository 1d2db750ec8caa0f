use endgame::game_config::{Alphabet, BoardLayout, GenericGameConfig};
use endgame::play::Play;
use endgame::report::{FoundPlay, LineEnd};
use endgame::search::Action;
use endgame::solver::{EndgameSolver, Phase};
use endgame::transposition::{EQUITY_INFINITY, EQUITY_NEG_INFINITY};

fn new_solver(rows: i8, cols: i8, scores: Vec<u8>) -> EndgameSolver {
    let config = GenericGameConfig::new(Alphabet::new(scores), BoardLayout::new(rows, cols));
    EndgameSolver::new(&config)
}

fn place(down: bool, lane: i8, idx: i8, word: &[u8], score: i16) -> Play {
    Play::Place { down, lane, idx, word: word.to_vec(), score }
}

#[test]
fn init_seeds_the_tables() {
    let mut solver = new_solver(2, 3, vec![0, 1, 3, 3, 2]);
    solver.init(&[0, 0, 0, 0, 4, 0], [&[1, 2], &[3, 0]]);
    assert_eq!(solver.board_tiles, vec![0, 0, 0, 0, 4, 0]);
    assert_eq!(solver.rack0, vec![1, 2]);
    assert_eq!(solver.rack1, vec![3, 0]);
    assert_eq!(solver.rack_scores, [4, 3]);
    let progress = solver.progress();
    assert_eq!(
        (progress.states, progress.evaluated, progress.child_plays, progress.plays),
        (1, 0, 0, 1)
    );
    assert_eq!(*solver.work_buffer.plays.get(0), Play::pass());
    // a new position empties the tables again
    let id = solver.work_buffer.plays.intern(&place(false, 0, 0, &[1], 3));
    solver.get_new_state_idx(0, 0, id);
    assert_eq!(solver.progress().states, 2);
    solver.init(&[0; 6], [&[1], &[]]);
    let progress = solver.progress();
    assert_eq!((progress.states, progress.plays), (1, 1));
    assert_eq!(solver.rack_scores, [1, 0]);
}

#[test]
fn two_passes_are_worth_the_racks_that_remain() {
    let mut solver = new_solver(2, 3, vec![0, 1, 3, 3, 2]);
    solver.init(&[0; 6], [&[1, 2], &[3, 0]]);
    assert_eq!(solver.both_pass_value(0, 0), 3 - 4);
    assert_eq!(solver.both_pass_value(0, 1), 4 - 3);
    // player 0 places B (3 points), player 1 a blank as A (no points)
    let b = solver.work_buffer.plays.intern(&place(false, 0, 0, &[2], 6));
    let blank = solver.work_buffer.plays.intern(&place(false, 1, 0, &[0x81], 0));
    let s1 = solver.get_new_state_idx(0, 0, b);
    assert_eq!(solver.both_pass_value(s1, 0), 3 - 1);
    let s2 = solver.get_new_state_idx(s1, 1, blank);
    assert_eq!(solver.both_pass_value(s2, 0), 3 - 1);
    assert_eq!(solver.both_pass_value(s2, 1), 1 - 3);
}

#[test]
fn a_step_without_an_evaluation_is_idle() {
    let mut solver = new_solver(2, 3, vec![0, 1]);
    solver.init(&[0; 6], [&[1], &[1]]);
    assert!(matches!(solver.step(), Action::Idle));
    assert_eq!(solver.progress().states, 1);
}

#[test]
fn the_search_runs_step_by_step() {
    let mut solver = new_solver(2, 3, vec![0, 1, 3]);
    solver.init(&[0; 6], [&[1], &[2]]);
    solver.evaluate(1);
    assert!(solver.work_buffer.searching);
    assert_eq!(solver.work_buffer.max_depth, 1);
    let root = solver.work_buffer.stack[0];
    assert_eq!((root.state_idx, root.player_idx, root.depth), (0, 1, 1));
    assert_eq!((root.alpha, root.beta), (EQUITY_NEG_INFINITY, EQUITY_INFINITY));
    assert!(!root.just_passed);
    assert_eq!(root.phase, Phase::Enter);

    // the position after a pass comes first: same depth, other side
    assert!(matches!(solver.step(), Action::Continue));
    assert_eq!(solver.work_buffer.stack.len(), 2);
    assert_eq!(solver.work_buffer.stack[0].phase, Phase::PassDone);
    let pass_branch = solver.work_buffer.stack[1];
    assert_eq!((pass_branch.state_idx, pass_branch.player_idx, pass_branch.depth), (0, 0, 1));
    assert_eq!((pass_branch.alpha, pass_branch.beta), (EQUITY_NEG_INFINITY, EQUITY_INFINITY));
    assert!(pass_branch.just_passed);

    // it has no evaluation yet: the plays of the root are asked for
    match solver.step() {
        Action::NeedMoves { state_idx, board_tiles, rack0, rack1 } => {
            assert_eq!(state_idx, 0);
            assert_eq!(board_tiles, vec![0; 6]);
            assert_eq!((rack0, rack1), (vec![1], vec![2]));
        }
        other => panic!("unexpected {:?}", other),
    }
    assert_eq!(solver.work_buffer.stack[1].phase, Phase::Expand);
    // after a pass, to pass ends the game: 3 - 1 for player 0
    assert_eq!(solver.work_buffer.stack[1].pass_valuation, 2);
    // asking again changes nothing
    assert!(matches!(solver.step(), Action::NeedMoves { state_idx: 0, .. }));

    let plays0 = vec![Play::pass()];
    let plays1 = vec![place(false, 0, 0, &[2], 4), Play::pass()];
    assert!(solver.candidates_ok(0, 0, &plays0));
    assert!(solver.candidates_ok(0, 1, &plays1));
    assert!(!solver.candidates_ok(0, 0, &plays1));
    assert!(!solver.candidates_ok(0, 1, &vec![place(false, 0, 0, &[2], 4)]));
    solver.supply_moves(&plays0, &plays1);
    assert_eq!(solver.work_buffer.stack[1].phase, Phase::Begin);
    let root_eval = *solver.work_buffer.state_eval.get(&0).unwrap();
    assert_eq!(root_eval.child_play_idxs, [0, 1, 3]);
    // player 0's pass hands over the reply of 4
    assert_eq!(solver.work_buffer.child_plays[0].valuation, -4);
    // player 1's placement empties the rack: 4 + 2 * 1, and the game is over
    assert_eq!(solver.work_buffer.child_plays[1].valuation, 6);
    assert_eq!(solver.work_buffer.child_plays[1].new_state_idx, 0);
    assert_eq!(solver.work_buffer.child_plays[2].valuation, 0);

    let mut results = Vec::new();
    loop {
        match solver.step() {
            Action::Continue => {}
            Action::DepthDone { depth, valuation, finished } => {
                results.push((depth, valuation));
                if finished {
                    break;
                }
            }
            other => panic!("unexpected {:?}", other),
        }
    }
    assert_eq!(results, vec![(1, 6)]);
    assert!(!solver.work_buffer.searching);
    assert!(matches!(solver.step(), Action::Idle));

    let mut found: Vec<FoundPlay> = Vec::new();
    let end = solver.append_solution(0, 1, &mut found);
    assert_eq!(end, LineEnd::PlayedOut);
    assert_eq!(found.len(), 1);
    assert_eq!((found[0].equity, found[0].play), (6, &place(false, 0, 0, &[2], 4)));
    let (line, board) = solver.best_line(1);
    assert_eq!(line.len(), 1);
    assert_eq!(board, vec![2, 0, 0, 0, 0, 0]);
    // for player 0 the record says: pass, and player 1 plays out; the pass
    // is on record with what it was worth when it ended the game
    let mut found: Vec<FoundPlay> = Vec::new();
    let end = solver.append_solution(0, 0, &mut found);
    assert_eq!(end, LineEnd::PlayedOut);
    assert_eq!(found.len(), 2);
    assert_eq!((found[0].equity, found[0].play), (2, &Play::pass()));
    assert_eq!((found[1].equity, found[1].play), (6, &place(false, 0, 0, &[2], 4)));
}

#[test]
fn a_line_ends_where_the_record_ends() {
    let mut solver = new_solver(2, 3, vec![0, 1, 3]);
    solver.init(&[0; 6], [&[1], &[2]]);
    let mut found: Vec<FoundPlay> = Vec::new();
    assert_eq!(solver.append_solution(0, 0, &mut found), LineEnd::NoEvaluation);
    assert_eq!(solver.append_solution(7, 1, &mut found), LineEnd::NoEvaluation);
    assert!(found.is_empty());
    let (line, board) = solver.best_line(0);
    assert!(line.is_empty());
    assert_eq!(board, vec![0; 6]);
    // an evaluation without a search on record
    solver.evaluate(0);
    loop {
        if let Action::NeedMoves { .. } = solver.step() {
            solver.supply_moves(&vec![Play::pass()], &vec![Play::pass()]);
            break;
        }
    }
    let mut found: Vec<FoundPlay> = Vec::new();
    assert_eq!(solver.append_solution(0, 0, &mut found), LineEnd::MissingPlay);
    assert!(found.is_empty());
}

#[test]
fn plays_are_taken_only_when_they_fit_and_are_awaited() {
    let mut solver = new_solver(2, 3, vec![0, 1, 3]);
    solver.init(&[0; 6], [&[1], &[2]]);
    let plays0 = vec![Play::pass(), place(false, 0, 0, &[1], 2)];
    let plays1 = vec![Play::pass()];
    // no search awaits plays
    assert!(!solver.offer_moves(&plays0, &plays1));
    solver.evaluate(0);
    assert!(!solver.offer_moves(&plays0, &plays1));
    while !matches!(solver.step(), Action::NeedMoves { .. }) {}
    // a list without a pass, and a play with a tile that is not on the rack
    assert!(!solver.offer_moves(&vec![place(false, 0, 0, &[1], 2)], &plays1));
    assert!(!solver.offer_moves(&plays0, &vec![Play::pass(), place(false, 0, 0, &[1], 2)]));
    assert_eq!(solver.progress().child_plays, 0);
    assert!(solver.offer_moves(&plays0, &plays1));
    let progress = solver.progress();
    assert_eq!((progress.child_plays, progress.plays, progress.evaluated), (3, 2, 1));
    assert!(!solver.offer_moves(&plays0, &plays1));
}
