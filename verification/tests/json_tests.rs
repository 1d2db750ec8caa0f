use endgame::json::{
    check_shape, signed_tile, take_rack, take_row, tile_from_signed, JsonPlay, QuestionError,
};
use endgame::play::Play;

#[test]
fn a_blank_is_written_as_a_negative_letter() {
    assert_eq!(signed_tile(0x81), -1);
    assert_eq!(signed_tile(0x82), -2);
    assert_eq!(signed_tile(0x9a), -26);
    assert_eq!(signed_tile(1), 1);
    assert_eq!(signed_tile(26), 26);
    assert_eq!(signed_tile(0), 0);
}

#[test]
fn signed_tiles_read_back() {
    assert_eq!(tile_from_signed(0, 26), Some(0));
    assert_eq!(tile_from_signed(5, 26), Some(5));
    assert_eq!(tile_from_signed(26, 26), Some(26));
    assert_eq!(tile_from_signed(27, 26), None);
    assert_eq!(tile_from_signed(-1, 26), Some(0x81));
    assert_eq!(tile_from_signed(-5, 26), Some(0x85));
    assert_eq!(tile_from_signed(-26, 26), Some(0x9a));
    assert_eq!(tile_from_signed(-27, 26), None);
    assert_eq!(tile_from_signed(-128, 255), None);
    for tile in (0..=26u8).chain(0x81..=0x9a) {
        assert_eq!(tile_from_signed(signed_tile(tile), 26), Some(tile));
    }
}

#[test]
fn a_placement_is_written_with_signed_tiles() {
    let play = Play::Place { down: true, lane: 7, idx: 3, word: vec![3, 0, 0x85, 20], score: 42 };
    assert_eq!(
        JsonPlay::from(&play),
        JsonPlay::Play { down: true, lane: 7, idx: 3, word: vec![3, 0, -5, 20], score: 42 }
    );
}

#[test]
fn an_exchange_keeps_its_tiles() {
    let play = Play::Exchange { tiles: vec![0, 1, 26] };
    assert_eq!(JsonPlay::from(&play), JsonPlay::Exchange { tiles: vec![0, 1, 26] });
    let pass = Play::Exchange { tiles: vec![] };
    assert_eq!(JsonPlay::from(&pass), JsonPlay::Exchange { tiles: vec![] });
}

#[test]
fn tiles_are_taken_from_the_tally() {
    let mut tally = vec![2, 1, 0];
    assert!(endgame::json::tally_take(&mut tally, 0));
    assert!(endgame::json::tally_take(&mut tally, 1));
    assert_eq!(tally, vec![1, 0, 0]);
    assert!(!endgame::json::tally_take(&mut tally, 1));
    assert!(!endgame::json::tally_take(&mut tally, 2));
    assert!(!endgame::json::tally_take(&mut tally, 3));
    assert_eq!(tally, vec![1, 0, 0]);
}

#[test]
fn a_rack_is_checked_against_the_alphabet_and_the_tally() {
    use_rack(vec![2, 9, 1, 1], &[1, 0, 3, 1], Ok(vec![1, 7, 1, 0]));
    use_rack(vec![2, 9, 1, 1], &[], Ok(vec![2, 9, 1, 1]));
    use_rack(vec![2, 9, 1, 1], &[1, 4, 2], Err(QuestionError::RackTile { tile: 4 }));
    use_rack(vec![2, 9, 1, 1], &[3, 2, 3], Err(QuestionError::TooMany { tile: 3 }));
    use_rack(vec![2, 9, 1, 1], &[2, 2, 4], Err(QuestionError::TooMany { tile: 2 }));
}

fn use_rack(tally: Vec<u8>, rack: &[u8], expected: Result<Vec<u8>, QuestionError>) {
    let mut left = tally;
    let result = take_rack(&mut left, &rack.to_vec(), 3);
    match expected {
        Ok(rest) => {
            assert_eq!(result, Ok(()));
            assert_eq!(left, rest);
        }
        Err(e) => assert_eq!(result, Err(e)),
    }
}

#[test]
fn a_row_is_read_and_taken_from_the_tally() {
    let mut tally = vec![1, 2, 2, 2];
    let mut board = vec![7];
    assert_eq!(take_row(&mut tally, &mut board, &vec![0, 1, -2, 3, 0], 4, 3), Ok(()));
    // the blank that stands for B is taken from the blanks
    assert_eq!(board, vec![7, 0, 1, 0x82, 3, 0]);
    assert_eq!(tally, vec![0, 1, 2, 1]);
    let mut board = vec![];
    assert_eq!(
        take_row(&mut tally, &mut board, &vec![1, -1], 4, 3),
        Err(QuestionError::TooMany { tile: 0 })
    );
    let mut board = vec![];
    assert_eq!(
        take_row(&mut tally, &mut board, &vec![0, 0, 4], 2, 3),
        Err(QuestionError::BoardTile { row: 2, col: 2, tile: 4 })
    );
    let mut board = vec![];
    assert_eq!(
        take_row(&mut tally, &mut board, &vec![-4], 0, 3),
        Err(QuestionError::BoardTile { row: 0, col: 0, tile: -4 })
    );
}

#[test]
fn a_board_must_have_the_shape_of_the_layout() {
    let board = vec![vec![0i8; 3], vec![0; 3]];
    assert_eq!(check_shape(&board, 2, 3), Ok(()));
    assert_eq!(check_shape(&board, 3, 3), Err(QuestionError::Rows { found: 2 }));
    assert_eq!(check_shape(&board, 2, 2), Err(QuestionError::Cols { row: 0, found: 3 }));
    let ragged = vec![vec![0i8; 3], vec![0; 4], vec![0; 1]];
    assert_eq!(check_shape(&ragged, 3, 3), Err(QuestionError::Cols { row: 1, found: 4 }));
    assert_eq!(check_shape(&vec![], 0, 5), Ok(()));
}
