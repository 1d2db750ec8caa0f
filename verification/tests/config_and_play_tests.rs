use endgame::game_config::{Alphabet, BoardLayout, GameConfig, GenericGameConfig};
use endgame::placement::PlacedTile;
use endgame::play::{bytes_equal, copy_bytes, move_score, Play};

fn place(down: bool, lane: i8, idx: i8, word: &[u8], score: i16) -> Play {
    Play::Place { down, lane, idx, word: word.to_vec(), score }
}

#[test]
fn the_blank_scores_nothing() {
    let alphabet = Alphabet::new(vec![9, 1, 3, 3, 2]);
    assert_eq!(alphabet.score(0), 0);
    assert_eq!(alphabet.score(1), 1);
    assert_eq!(alphabet.score(4), 2);
    // a tile outside the alphabet scores nothing
    assert_eq!(alphabet.score(5), 0);
    assert_eq!(alphabet.score(0x81), 0);
}

#[test]
fn a_rack_scores_the_sum_of_its_tiles() {
    let alphabet = Alphabet::new(vec![0, 1, 3, 3, 2]);
    assert_eq!(alphabet.rack_score(&[]), 0);
    assert_eq!(alphabet.rack_score(&[3, 4]), 5);
    assert_eq!(alphabet.rack_score(&[1, 0, 2, 2]), 7);
}

#[test]
fn squares_are_numbered_row_by_row() {
    let layout = BoardLayout::new(3, 5);
    assert_eq!(layout.size(), 15);
    // across: lane is the row; down: lane is the column
    assert_eq!(layout.at(false, 0, 0), 0);
    assert_eq!(layout.at(false, 1, 2), 7);
    assert_eq!(layout.at(false, 2, 4), 14);
    assert_eq!(layout.at(true, 2, 1), 7);
    assert_eq!(layout.at(true, 4, 2), 14);
}

#[test]
fn a_generic_config_hands_out_what_it_holds() {
    let config = GenericGameConfig::new(Alphabet::new(vec![0, 1, 3]), BoardLayout::new(15, 15));
    assert_eq!(config.alphabet().score(2), 3);
    assert_eq!(config.board_layout().rows, 15);
    assert_eq!(config.board_layout().cols, 15);
}

#[test]
fn move_score_is_the_score_of_a_placement() {
    assert_eq!(move_score(&place(false, 7, 7, &[1, 2], 14)), 14);
    assert_eq!(move_score(&place(true, 0, 0, &[1], -3)), -3);
    assert_eq!(move_score(&Play::Exchange { tiles: vec![] }), 0);
    assert_eq!(move_score(&Play::Exchange { tiles: vec![1, 2, 3] }), 0);
}

#[test]
fn plays_are_told_apart() {
    let a = place(false, 1, 2, &[3, 0, 4], 10);
    assert!(a.same(&a.duplicate()));
    assert_eq!(a.duplicate(), a);
    assert!(!a.same(&place(true, 1, 2, &[3, 0, 4], 10)));
    assert!(!a.same(&place(false, 2, 2, &[3, 0, 4], 10)));
    assert!(!a.same(&place(false, 1, 3, &[3, 0, 4], 10)));
    assert!(!a.same(&place(false, 1, 2, &[3, 0, 5], 10)));
    assert!(!a.same(&place(false, 1, 2, &[3, 0], 10)));
    assert!(!a.same(&place(false, 1, 2, &[3, 0, 4], 11)));
    assert!(!a.same(&Play::pass()));
    assert!(Play::pass().same(&Play::Exchange { tiles: vec![] }));
    assert!(!Play::pass().same(&Play::Exchange { tiles: vec![1] }));
    assert!(Play::pass().is_exchange());
    assert!(!a.is_exchange());
}

#[test]
fn bytes_are_copied_and_compared() {
    let v = vec![1u8, 0, 255];
    assert_eq!(copy_bytes(&v), v);
    assert!(bytes_equal(&v, &vec![1, 0, 255]));
    assert!(!bytes_equal(&v, &vec![1, 0]));
    assert!(!bytes_equal(&v, &vec![1, 0, 254]));
    assert!(bytes_equal(&vec![], &vec![]));
}

#[test]
fn a_word_must_lie_on_the_board() {
    let layout = BoardLayout::new(3, 5);
    assert!(place(false, 2, 0, &[1, 1, 1, 1, 1], 1).in_bounds(&layout));
    assert!(!place(false, 2, 1, &[1, 1, 1, 1, 1], 1).in_bounds(&layout));
    assert!(!place(false, 3, 0, &[1], 1).in_bounds(&layout));
    assert!(!place(false, -1, 0, &[1], 1).in_bounds(&layout));
    assert!(!place(false, 0, -1, &[1], 1).in_bounds(&layout));
    assert!(place(true, 4, 0, &[1, 1, 1], 1).in_bounds(&layout));
    assert!(!place(true, 4, 1, &[1, 1, 1], 1).in_bounds(&layout));
    assert!(!place(true, 5, 0, &[1], 1).in_bounds(&layout));
    assert!(Play::pass().in_bounds(&layout));
}

#[test]
fn a_play_places_its_nonzero_tiles() {
    let layout = BoardLayout::new(3, 5);
    let across = place(false, 1, 1, &[3, 0, 0x85, 4], 9);
    assert_eq!(across.tiles_placed(), 3);
    assert_eq!(
        across.placements(&layout, 1),
        vec![
            PlacedTile { tile: 3, whose: 1, square: 6 },
            PlacedTile { tile: 0x85, whose: 1, square: 8 },
            PlacedTile { tile: 4, whose: 1, square: 9 },
        ]
    );
    let down = place(true, 4, 0, &[0, 7, 8], 9);
    assert_eq!(down.tiles_placed(), 2);
    assert_eq!(
        down.placements(&layout, 0),
        vec![
            PlacedTile { tile: 7, whose: 0, square: 9 },
            PlacedTile { tile: 8, whose: 0, square: 14 },
        ]
    );
    assert_eq!(Play::pass().tiles_placed(), 0);
    assert_eq!(Play::pass().placements(&layout, 0), vec![]);
}
