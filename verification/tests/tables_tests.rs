use endgame::blocking::{blocking_map, Nearest};
use endgame::children::{sort_children, ChildPlay};
use endgame::game_config::BoardLayout;
use endgame::move_cache::MoveCache;
use endgame::ordering::{best_unblocked_score, collide, touches};
use endgame::placement::PlacedTile;
use endgame::play::Play;
use endgame::position::{play_fits, reconstruct, take_tile};
use endgame::state_table::StateTable;
use endgame::transposition::StateSideEvalEquityType::{Exact, LowerBound, UpperBound};
use endgame::transposition::{
    bound_type, probe, Probe, SearchResult, StateEval, StateSideEval, StateSideEvalEquityType,
    EQUITY_INFINITY, EQUITY_NEG_INFINITY, MISSING,
};

fn place(down: bool, lane: i8, idx: i8, word: &[u8], score: i16) -> Play {
    Play::Place { down, lane, idx, word: word.to_vec(), score }
}

fn tile(tile: u8, whose: u8, square: i16) -> PlacedTile {
    PlacedTile { tile, whose, square }
}

#[test]
fn the_state_table_starts_with_the_start() {
    let table = StateTable::new();
    assert_eq!(table.len(), 1);
    assert_eq!(table.placements_reversed(0), vec![]);
}

#[test]
fn a_state_is_stored_once() {
    let mut table = StateTable::new();
    let a = table.intern(0, tile(3, 0, 5));
    let b = table.intern(a, tile(4, 1, 2));
    assert_eq!((a, b), (1, 2));
    assert_eq!(table.intern(0, tile(3, 0, 5)), a);
    assert_eq!(table.intern(a, tile(4, 1, 2)), b);
    assert_eq!(table.len(), 3);
    assert_eq!(table.states[b].parent, a);
    assert_eq!(table.states[b].placement, tile(4, 1, 2));
    assert_eq!(table.placements_reversed(b), vec![tile(4, 1, 2), tile(3, 0, 5)]);
    // the same placement on another parent is another state
    let c = table.intern(0, tile(4, 1, 2));
    assert_eq!(c, 3);
    table.reset();
    assert_eq!(table.len(), 1);
    assert_eq!(table.intern(0, tile(4, 1, 2)), 1);
}

#[test]
fn a_successor_is_the_state_of_the_canonical_list() {
    let mut table = StateTable::new();
    let s = table.successor(0, &vec![tile(5, 1, 9), tile(5, 0, 4), tile(2, 1, 7)]);
    assert_eq!(table.len(), 4);
    assert_eq!(
        table.placements_reversed(s),
        vec![tile(5, 1, 9), tile(5, 0, 4), tile(2, 1, 7)]
    );
    let t = table.successor(0, &vec![tile(2, 1, 7), tile(5, 0, 9), tile(5, 1, 4)]);
    assert_eq!(t, s);
    assert_eq!(table.len(), 4);
    // one more tile, placed from either of two states
    let via_small = table.successor(0, &vec![tile(2, 1, 7)]);
    let u = table.successor(via_small, &vec![tile(5, 0, 4), tile(5, 1, 9)]);
    assert_eq!(u, s);
    assert_eq!(table.successor(s, &vec![]), s);
}

#[test]
fn the_last_tile_of_its_kind_leaves_the_rack() {
    let mut rack = vec![1, 5, 3, 5, 2];
    assert!(take_tile(&mut rack, 5));
    assert_eq!(rack, vec![1, 5, 3, 2]);
    assert!(take_tile(&mut rack, 5));
    assert_eq!(rack, vec![1, 3, 2]);
    assert!(!take_tile(&mut rack, 5));
    assert_eq!(rack, vec![1, 3, 2]);
    let mut empty: Vec<u8> = vec![];
    assert!(!take_tile(&mut empty, 0));
}

#[test]
fn a_position_is_rebuilt_from_its_placements() {
    let mut table = StateTable::new();
    // player 0 placed A on square 4, player 1 a blank as B on square 5
    let s = table.successor(0, &vec![tile(1, 0, 4), tile(0x82, 1, 5)]);
    let board = vec![0, 0, 0, 9, 0, 0];
    let pos = reconstruct(&table, &board, &vec![1, 2, 1], &vec![2, 0, 3], s);
    assert_eq!(pos.board_tiles, vec![0, 0, 0, 9, 1, 0x82]);
    // the rightmost A leaves player 0's rack; the blank, not the B, leaves player 1's
    assert_eq!(pos.rack0, vec![1, 2]);
    assert_eq!(pos.rack1, vec![2, 3]);
    assert_eq!(pos.rack(0), &vec![1, 2]);
    assert_eq!(pos.rack(1), &vec![2, 3]);
    let start = reconstruct(&table, &board, &vec![1, 2, 1], &vec![2, 0, 3], 0);
    assert_eq!(start.board_tiles, board);
    assert_eq!(start.rack0, vec![1, 2, 1]);
    assert_eq!(start.rack1, vec![2, 0, 3]);
}

#[test]
fn a_play_fits_if_its_tiles_are_on_the_rack_and_its_squares_are_empty() {
    let layout = BoardLayout::new(2, 3);
    let board = vec![0, 7, 0, 0, 0, 0];
    let rack = vec![1, 2, 0];
    assert!(play_fits(&layout, &board, &rack, &Play::pass(), 0));
    assert!(play_fits(&layout, &board, &rack, &place(false, 0, 0, &[1, 0, 2], 5), 0));
    // a blank may stand for any letter
    assert!(play_fits(&layout, &board, &rack, &place(false, 1, 0, &[1, 0x89, 2], 5), 1));
    // but there is only one blank
    assert!(!play_fits(&layout, &board, &rack, &place(false, 1, 0, &[0x81, 0x89], 5), 0));
    // a tile that is not on the rack
    assert!(!play_fits(&layout, &board, &rack, &place(false, 1, 0, &[3], 5), 0));
    assert!(!play_fits(&layout, &board, &rack, &place(false, 1, 0, &[1, 1], 5), 0));
    // an occupied square
    assert!(!play_fits(&layout, &board, &rack, &place(false, 0, 0, &[1, 2], 5), 0));
    // off the board
    assert!(!play_fits(&layout, &board, &rack, &place(false, 1, 2, &[1, 2], 5), 0));
    // no tile placed
    assert!(!play_fits(&layout, &board, &rack, &place(false, 0, 1, &[0], 5), 0));
    assert!(!play_fits(&layout, &board, &rack, &place(false, 0, 1, &[], 5), 0));
}

#[test]
fn the_blocking_map_holds_the_nearest_empty_squares() {
    let layout = BoardLayout::new(2, 3);
    // tiles on squares 1, 3 and 4
    let map = blocking_map(&layout, &vec![0, 7, 0, 7, 7, 0]);
    let n = |left, right, up, down| Nearest { left, right, up, down };
    assert_eq!(
        map,
        vec![
            // an empty square is its own nearest empty square
            n(0, 0, 0, 0),
            n(0, 2, 1, 4),
            n(2, 2, 2, 2),
            // with no empty square that way, the lane's end that way
            n(3, 5, 0, 3),
            n(3, 5, 1, 4),
            n(5, 5, 5, 5),
        ]
    );
    let empty = blocking_map(&BoardLayout::new(1, 1), &vec![0]);
    assert_eq!(empty, vec![n(0, 0, 0, 0)]);
}

#[test]
fn the_move_cache_stores_each_placement_once() {
    let mut cache = MoveCache::new();
    assert_eq!(cache.len(), 1);
    assert_eq!(*cache.get(0), Play::pass());
    let a = place(false, 1, 2, &[3, 0, 4], 10);
    let b = place(false, 1, 2, &[3, 0, 4], 11);
    let c = place(true, 1, 2, &[3, 0, 4], 10);
    assert_eq!(cache.find(&a), 0);
    assert_eq!(cache.intern(&a), 1);
    assert_eq!(cache.intern(&b), 2);
    assert_eq!(cache.intern(&c), 3);
    assert_eq!(cache.intern(&a), 1);
    assert_eq!(cache.intern(&c.duplicate()), 3);
    assert_eq!(cache.find(&b), 2);
    assert_eq!(cache.len(), 4);
    assert_eq!(*cache.get(2), b);
    // every exchange is play 0
    assert_eq!(cache.intern(&Play::pass()), 0);
    assert_eq!(cache.intern(&Play::Exchange { tiles: vec![1, 2] }), 0);
    assert_eq!(cache.len(), 4);
    for n in 0..200u8 {
        let id = cache.intern(&place(false, 0, 0, &[n, n / 2 + 1], n as i16));
        assert_eq!(id, 4 + n as usize);
    }
    for n in 0..200u8 {
        assert_eq!(cache.find(&place(false, 0, 0, &[n, n / 2 + 1], n as i16)), 4 + n as usize);
    }
    cache.reset();
    assert_eq!(cache.len(), 1);
    assert_eq!(cache.intern(&b), 1);
}

fn entry(equity: i64, equity_type: StateSideEvalEquityType, depth: i8) -> StateSideEval {
    StateSideEval { equity, play_idx: 1, new_state_idx: 2, equity_type, depth }
}

#[test]
fn a_fresh_entry_is_below_everything() {
    let e = StateSideEval::new();
    assert_eq!(e.equity, EQUITY_NEG_INFINITY);
    assert_eq!(e.play_idx, MISSING);
    assert_eq!(e.new_state_idx, MISSING);
    assert_eq!(e.equity_type, LowerBound);
    assert_eq!(e.depth, i8::MIN);
    assert_eq!(MISSING, !0);
    assert_eq!(probe(&e, 1, -5, 5), Probe::Window(-5, 5));
}

#[test]
fn a_cached_entry_is_usable_at_its_depth_or_less() {
    assert_eq!(probe(&entry(7, Exact, 3), 3, -100, 100), Probe::Cutoff(7));
    assert_eq!(probe(&entry(7, Exact, 3), 2, 50, 60), Probe::Cutoff(7));
    assert_eq!(probe(&entry(7, Exact, 3), 4, -100, 100), Probe::Window(-100, 100));
    // a lower bound raises alpha
    assert_eq!(probe(&entry(7, LowerBound, 3), 3, -100, 100), Probe::Window(7, 100));
    assert_eq!(probe(&entry(7, LowerBound, 3), 3, 10, 100), Probe::Window(10, 100));
    assert_eq!(probe(&entry(7, LowerBound, 3), 3, -100, 7), Probe::Cutoff(7));
    assert_eq!(probe(&entry(7, LowerBound, 3), 3, -100, 5), Probe::Cutoff(7));
    assert_eq!(probe(&entry(7, LowerBound, 2), 3, -100, 5), Probe::Window(-100, 5));
    // an upper bound lowers beta
    assert_eq!(probe(&entry(7, UpperBound, 3), 3, -100, 100), Probe::Window(-100, 7));
    assert_eq!(probe(&entry(7, UpperBound, 3), 3, -100, 5), Probe::Window(-100, 5));
    assert_eq!(probe(&entry(7, UpperBound, 3), 3, 7, 100), Probe::Cutoff(7));
    assert_eq!(probe(&entry(7, UpperBound, 3), 3, 9, 100), Probe::Cutoff(7));
    assert_eq!(
        probe(&entry(7, UpperBound, 3), 1, EQUITY_NEG_INFINITY, EQUITY_INFINITY),
        Probe::Window(EQUITY_NEG_INFINITY, 7)
    );
}

#[test]
fn the_bound_follows_the_window() {
    assert_eq!(bound_type(5, 5, 10), UpperBound);
    assert_eq!(bound_type(4, 5, 10), UpperBound);
    assert_eq!(bound_type(6, 5, 10), Exact);
    assert_eq!(bound_type(10, 5, 10), LowerBound);
    assert_eq!(bound_type(11, 5, 10), LowerBound);
    assert_eq!(bound_type(0, EQUITY_NEG_INFINITY, EQUITY_INFINITY), Exact);
    assert_eq!(bound_type(EQUITY_NEG_INFINITY, EQUITY_NEG_INFINITY, EQUITY_INFINITY), UpperBound);
}

fn found(player_idx: u8, best: i64, pass: i64, just_passed: bool, best_is_pass: bool) -> SearchResult {
    SearchResult {
        player_idx,
        state_idx: 9,
        depth: 2,
        alpha_orig: -10,
        beta_orig: 30,
        beta: 20,
        pass_valuation: pass,
        just_passed,
        best_valuation: best,
        best_play_idx: 4,
        best_new_state_idx: 12,
        best_is_pass,
    }
}

fn same(a: &StateSideEval, b: &StateSideEval) -> bool {
    a.equity == b.equity
        && a.play_idx == b.play_idx
        && a.new_state_idx == b.new_state_idx
        && a.equity_type == b.equity_type
        && a.depth == b.depth
}

#[test]
fn a_search_is_recorded_for_both_sides() {
    let fresh = StateEval::new(3, 5, 8);
    assert_eq!(fresh.child_play_idxs, [3, 5, 8]);
    assert!(same(&fresh.best_move[0], &StateSideEval::new()));

    // the best placement is worth more than the pass
    let r = fresh.record(&found(1, 7, 2, false, false));
    assert_eq!(r.child_play_idxs, [3, 5, 8]);
    let place = StateSideEval { equity: 7, play_idx: 4, new_state_idx: 12, equity_type: Exact, depth: 2 };
    assert!(same(&r.best_place_move[1], &place));
    assert!(same(&r.best_move[1], &place));
    assert!(same(&r.best_place_move[0], &StateSideEval::new()));
    // the other side has no placement on record: it passes, for the negation
    let other = StateSideEval { equity: -7, play_idx: 0, new_state_idx: 9, equity_type: Exact, depth: 2 };
    assert!(same(&r.best_move[0], &other));

    // the pass is worth more than the best placement
    let r = fresh.record(&found(0, 7, 9, true, false));
    let pass = StateSideEval { equity: 9, play_idx: 0, new_state_idx: 9, equity_type: Exact, depth: 2 };
    assert!(same(&r.best_move[0], &pass));
    assert!(same(&r.best_place_move[0], &place));
    // after a pass the other side's entries stay
    assert!(same(&r.best_move[1], &StateSideEval::new()));

    // fail low, fail high
    let r = fresh.record(&found(0, -10, -50, true, false));
    assert_eq!(r.best_place_move[0].equity_type, UpperBound);
    let r = fresh.record(&found(0, 20, -50, true, false));
    assert_eq!(r.best_place_move[0].equity_type, LowerBound);
    let r = fresh.record(&found(0, 25, -50, false, false));
    assert_eq!(r.best_place_move[0].equity_type, LowerBound);
    assert_eq!(r.best_move[1].equity_type, Exact);
    let r = fresh.record(&found(0, 30, -50, false, false));
    assert_eq!(r.best_move[1].equity_type, UpperBound);
    assert_eq!(r.best_move[1].equity, -30);
    let r = fresh.record(&found(0, -10, -50, false, false));
    assert_eq!(r.best_move[1].equity_type, LowerBound);

    // only the pass is left: the placement entry is an upper bound
    let r = fresh.record(&found(0, 3, 3, true, true));
    assert_eq!(r.best_place_move[0].equity_type, UpperBound);
    assert_eq!(r.best_place_move[0].equity, 3);

    // the other side keeps a placement that is worth more than to pass
    let mut with_place = fresh;
    with_place.best_place_move[1] = entry(5, Exact, 1);
    let r = with_place.record(&found(0, 7, 2, false, false));
    assert!(same(&r.best_move[1], &entry(5, Exact, 1)));
    let r = with_place.record(&found(0, -6, -9, false, false));
    assert_eq!(r.best_move[1].equity, 6);
    assert_eq!(r.best_move[1].play_idx, 0);
}

fn child(play_idx: usize, valuation: i64) -> ChildPlay {
    ChildPlay { play_idx, new_state_idx: MISSING, valuation }
}

fn ids(children: &[ChildPlay]) -> Vec<usize> {
    children.iter().map(|c| c.play_idx).collect()
}

#[test]
fn children_are_sorted_best_first() {
    let plays = vec![
        Play::pass(),
        place(false, 0, 0, &[1], 10),
        place(false, 0, 1, &[1], 30),
        place(false, 0, 2, &[1], 20),
        place(false, 0, 3, &[1], 30),
    ];
    let mut children =
        vec![child(1, 5), child(0, 1), child(3, 9), child(4, -2), child(2, 4), child(1, 7)];
    sort_children(&mut children, 1, 5, &plays, true);
    // by score, keeping the order of equals; outside the stretch nothing moves
    assert_eq!(ids(&children), vec![1, 4, 2, 3, 0, 1]);
    sort_children(&mut children, 0, 6, &plays, false);
    assert_eq!(ids(&children), vec![3, 1, 1, 2, 0, 4]);
    assert_eq!(children[0].valuation, 9);
    sort_children(&mut children, 2, 2, &plays, true);
    sort_children(&mut children, 6, 6, &plays, true);
    assert_eq!(ids(&children), vec![3, 1, 1, 2, 0, 4]);
}

#[test]
fn a_play_blocks_the_replies_that_need_its_squares() {
    let layout = BoardLayout::new(2, 3);
    let board = vec![0, 7, 0, 7, 7, 0];
    let map = blocking_map(&layout, &board);
    let mine = place(false, 0, 0, &[1, 0, 2], 12);
    // the play fills squares 0 and 2, whose nearest empty squares are themselves
    assert!(touches(&layout, &map, &mine, 0));
    assert!(touches(&layout, &map, &mine, 2));
    assert!(!touches(&layout, &map, &mine, 1));
    assert!(!touches(&layout, &map, &mine, 5));
    let on_two = place(true, 2, 0, &[3, 4], 20);
    let on_five = place(false, 1, 2, &[3], 8);
    assert!(collide(&layout, &map, &mine, &on_two));
    assert!(!collide(&layout, &map, &mine, &on_five));
    assert!(!collide(&layout, &map, &mine, &Play::pass()));
    let plays = vec![Play::pass(), on_two, on_five, mine.duplicate()];
    let replies = vec![child(1, 0), child(0, 0), child(2, 0)];
    assert_eq!(best_unblocked_score(&layout, &map, &plays, &mine, &replies, 0, 3), 8);
    assert_eq!(best_unblocked_score(&layout, &map, &plays, &mine, &replies, 0, 2), 0);
    // the reply on squares 2 and 5 is in the way of a play on square 5 too
    assert_eq!(best_unblocked_score(&layout, &map, &plays, &plays[2], &replies, 0, 3), 0);
    let corner = place(false, 0, 0, &[1], 3);
    assert_eq!(best_unblocked_score(&layout, &map, &plays, &corner, &replies, 0, 3), 20);
    assert_eq!(best_unblocked_score(&layout, &map, &plays, &mine, &replies, 1, 1), 0);
}
