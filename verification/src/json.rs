//! Plays as they are exchanged with other programs: a blank that stands for
//! a letter is written as the negative of the letter's number.

use crate::play::{copy_bytes, Play, PlayView};
use vstd::prelude::*;

verus! {

/// A play in its exchange form.
#[derive(Debug, PartialEq, Eq)]
pub enum JsonPlay {
    Exchange { tiles: Vec<u8> },
    Play { down: bool, lane: i8, idx: i8, word: Vec<i8>, score: i16 },
}

/// The mathematical value of a [`JsonPlay`].
pub enum JsonPlayView {
    Exchange { tiles: Seq<u8> },
    Play { down: bool, lane: i8, idx: i8, word: Seq<i8>, score: i16 },
}

impl View for JsonPlay {
    type V = JsonPlayView;

    open spec fn view(&self) -> JsonPlayView {
        match *self {
            JsonPlay::Exchange { tiles } => JsonPlayView::Exchange { tiles: tiles@ },
            JsonPlay::Play { down, lane, idx, word, score } => JsonPlayView::Play {
                down,
                lane,
                idx,
                word: word@,
                score,
            },
        }
    }
}

/// The signed form of a tile byte: a letter is its number, and a blank that
/// stands for a letter is the negative of the letter's number.
pub open spec fn spec_signed_tile(tile: u8) -> i8 {
    if tile >= 0x80 {
        (0x80 - tile) as i8
    } else {
        tile as i8
    }
}

/// The signed form of a tile byte.
pub fn signed_tile(tile: u8) -> (r: i8)
    ensures
        r == spec_signed_tile(tile),
{
    if tile >= 0x80 {
        (0x80 - tile as i16) as i8
    } else {
        tile as i8
    }
}

/// The tile byte of a signed tile in an alphabet of `letters` letters: 0 is
/// the empty square, 1 up to `letters` are the letters, and -1 down to
/// `-letters` are blanks that stand for them. Anything else is no tile.
pub open spec fn spec_tile_from_signed(signed: i8, letters: u8) -> Option<u8> {
    if signed == 0 {
        Some(0u8)
    } else if 0 < signed <= letters {
        Some(signed as u8)
    } else if signed < 0 && -signed <= letters && 0x80 - signed <= 0xff {
        Some((0x80 - signed) as u8)
    } else {
        None
    }
}

/// The tile byte of a signed tile, if it is a tile of the alphabet.
pub fn tile_from_signed(signed: i8, letters: u8) -> (r: Option<u8>)
    ensures
        r == spec_tile_from_signed(signed, letters),
{
    if signed == 0 {
        Some(0)
    } else if signed > 0 && signed as u8 <= letters {
        Some(signed as u8)
    } else if signed < 0 && -(signed as i16) <= letters as i16 && 0x80 - (signed as i16) <= 0xff {
        Some((0x80 - signed as i16) as u8)
    } else {
        None
    }
}

/// A tile of the alphabet, written in signed form, reads back as itself.
pub proof fn lemma_signed_tile_round_trip(tile: u8, letters: u8)
    requires
        letters < 0x80,
        tile <= letters || 0x80 < tile <= 0x80 + letters,
    ensures
        spec_tile_from_signed(spec_signed_tile(tile), letters) == Some(tile),
{
}

/// The exchange form of a play: the word of a placement in signed tiles.
pub open spec fn spec_json_play(play: PlayView) -> JsonPlayView {
    match play {
        PlayView::Exchange { tiles } => JsonPlayView::Exchange { tiles },
        PlayView::Place { down, lane, idx, word, score } => JsonPlayView::Play {
            down,
            lane,
            idx,
            word: Seq::new(word.len(), |i: int| spec_signed_tile(word[i])),
            score,
        },
    }
}

impl JsonPlay {
    /// The exchange form of a play.
    pub fn from(play: &Play) -> (r: JsonPlay)
        ensures
            r@ == spec_json_play(play@),
    {
        match play {
            Play::Exchange { tiles } => JsonPlay::Exchange { tiles: copy_bytes(tiles) },
            Play::Place { down, lane, idx, word, score } => {
                let mut word_played: Vec<i8> = Vec::new();
                let mut i: usize = 0;
                while i < word.len()
                    invariant
                        i <= word.len(),
                        word_played@.len() == i,
                        forall|k: int| 0 <= k < i ==> word_played@[k] == spec_signed_tile(word@[k]),
                    decreases word.len() - i,
                {
                    word_played.push(signed_tile(word[i]));
                    i = i + 1;
                }
                proof {
                    assert(word_played@ =~= Seq::new(
                        word@.len(),
                        |i: int| spec_signed_tile(word@[i]),
                    ));
                }
                JsonPlay::Play {
                    down: *down,
                    lane: *lane,
                    idx: *idx,
                    word: word_played,
                    score: *score,
                }
            },
        }
    }
}


/// What is wrong with a question: a rack and a board to generate moves for.
#[derive(Clone, Copy, PartialEq, Eq, Structural, Debug)]
pub enum QuestionError {
    /// The rack holds a tile that is not of the alphabet.
    RackTile { tile: u8 },
    /// The rack and the board hold more of a tile than there are.
    TooMany { tile: u8 },
    /// The board has a wrong number of rows.
    Rows { found: usize },
    /// A row of the board has a wrong number of columns.
    Cols { row: usize, found: usize },
    /// The board holds something that is no tile of the alphabet.
    BoardTile { row: usize, col: usize, tile: i8 },
}

/// The tally with one tile less of the kind `tile`, if it holds one.
pub open spec fn spec_tally_take(tally: Seq<u8>, tile: u8) -> Option<Seq<u8>> {
    if (tile as int) < tally.len() && tally[tile as int] > 0 {
        Some(tally.update(tile as int, (tally[tile as int] - 1) as u8))
    } else {
        None
    }
}

/// Takes one tile of a kind from the tally, if the tally holds one.
pub fn tally_take(tally: &mut Vec<u8>, tile: u8) -> (taken: bool)
    ensures
        taken == spec_tally_take(old(tally)@, tile) is Some,
        taken ==> final(tally)@ == spec_tally_take(old(tally)@, tile).unwrap(),
        !taken ==> final(tally)@ == old(tally)@,
{
    if (tile as usize) < tally.len() && tally[tile as usize] > 0 {
        let left = tally[tile as usize] - 1;
        tally.set(tile as usize, left);
        true
    } else {
        false
    }
}

/// The tally after the tiles of a rack have been taken from it, first to
/// last, or the first thing that is wrong with the rack.
pub open spec fn spec_take_rack(tally: Seq<u8>, rack: Seq<u8>, letters: u8) -> Result<
    Seq<u8>,
    QuestionError,
>
    decreases rack.len(),
{
    if rack.len() == 0 {
        Ok(tally)
    } else {
        match spec_take_rack(tally, rack.drop_last(), letters) {
            Err(e) => Err(e),
            Ok(left) => {
                let tile = rack.last();
                if tile > letters {
                    Err(QuestionError::RackTile { tile })
                } else {
                    match spec_tally_take(left, tile) {
                        Some(rest) => Ok(rest),
                        None => Err(QuestionError::TooMany { tile }),
                    }
                }
            },
        }
    }
}

/// Takes the tiles of a rack from the tally. On an error the tally is left
/// as it was when the error was found.
pub fn take_rack(tally: &mut Vec<u8>, rack: &Vec<u8>, letters: u8) -> (r: Result<(), QuestionError>)
    ensures
        match spec_take_rack(old(tally)@, rack@, letters) {
            Ok(left) => r is Ok && final(tally)@ == left,
            Err(e) => r == Err::<(), QuestionError>(e),
        },
{
    let mut i: usize = 0;
    proof {
        assert(rack@.take(0) =~= Seq::<u8>::empty());
    }
    while i < rack.len()
        invariant
            i <= rack.len(),
            spec_take_rack(old(tally)@, rack@.take(i as int), letters) == Ok::<
                Seq<u8>,
                QuestionError,
            >(tally@),
        decreases rack.len() - i,
    {
        let tile = rack[i];
        proof {
            assert(rack@.take(i + 1).drop_last() =~= rack@.take(i as int));
            assert(rack@.take(i + 1).last() == tile);
        }
        if tile > letters {
            proof {
                lemma_take_rack_error(old(tally)@, rack@, letters, i + 1);
            }
            return Err(QuestionError::RackTile { tile });
        }
        if !tally_take(tally, tile) {
            proof {
                lemma_take_rack_error(old(tally)@, rack@, letters, i + 1);
            }
            return Err(QuestionError::TooMany { tile });
        }
        i = i + 1;
    }
    proof {
        assert(rack@.take(i as int) =~= rack@);
    }
    Ok(())
}

/// An error in the beginning of a rack is the error of the rack.
proof fn lemma_take_rack_error(tally: Seq<u8>, rack: Seq<u8>, letters: u8, n: int)
    requires
        0 <= n <= rack.len(),
        spec_take_rack(tally, rack.take(n), letters) is Err,
    ensures
        spec_take_rack(tally, rack, letters) == spec_take_rack(tally, rack.take(n), letters),
    decreases rack.len() - n,
{
    if n < rack.len() {
        assert(rack.take(n + 1).drop_last() =~= rack.take(n));
        lemma_take_rack_error(tally, rack, letters, n + 1);
    } else {
        assert(rack.take(n) =~= rack);
    }
}

/// The tiles of a row of signed tiles, with the tally after they have been
/// taken from it, or the first thing that is wrong with the row. A blank
/// that stands for a letter is taken from the blanks.
pub open spec fn spec_take_row(
    tally: Seq<u8>,
    row: Seq<i8>,
    row_num: usize,
    letters: u8,
) -> Result<(Seq<u8>, Seq<u8>), QuestionError>
    decreases row.len(),
{
    if row.len() == 0 {
        Ok((Seq::empty(), tally))
    } else {
        match spec_take_row(tally, row.drop_last(), row_num, letters) {
            Err(e) => Err(e),
            Ok((tiles, left)) => {
                let signed = row.last();
                match spec_tile_from_signed(signed, letters) {
                    None => Err(
                        QuestionError::BoardTile {
                            row: row_num,
                            col: (row.len() - 1) as usize,
                            tile: signed,
                        },
                    ),
                    Some(tile) => if tile == 0 {
                        Ok((tiles.push(tile), left))
                    } else {
                        let kind = crate::placement::spec_blanked(tile);
                        match spec_tally_take(left, kind) {
                            Some(rest) => Ok((tiles.push(tile), rest)),
                            None => Err(QuestionError::TooMany { tile: kind }),
                        }
                    },
                }
            },
        }
    }
}

/// An error in the beginning of a row is the error of the row.
proof fn lemma_take_row_error(tally: Seq<u8>, row: Seq<i8>, row_num: usize, letters: u8, n: int)
    requires
        0 <= n <= row.len(),
        spec_take_row(tally, row.take(n), row_num, letters) is Err,
    ensures
        spec_take_row(tally, row, row_num, letters) == spec_take_row(
            tally,
            row.take(n),
            row_num,
            letters,
        ),
    decreases row.len() - n,
{
    if n < row.len() {
        assert(row.take(n + 1).drop_last() =~= row.take(n));
        lemma_take_row_error(tally, row, row_num, letters, n + 1);
    } else {
        assert(row.take(n) =~= row);
    }
}

/// Appends the tiles of a row of signed tiles to the board and takes them
/// from the tally.
pub fn take_row(
    tally: &mut Vec<u8>,
    board: &mut Vec<u8>,
    row: &Vec<i8>,
    row_num: usize,
    letters: u8,
) -> (r: Result<(), QuestionError>)
    ensures
        match spec_take_row(old(tally)@, row@, row_num, letters) {
            Ok((tiles, left)) => r is Ok && final(board)@ == old(board)@ + tiles && final(tally)@
                == left,
            Err(e) => r == Err::<(), QuestionError>(e),
        },
{
    let ghost base = board@;
    let mut col: usize = 0;
    proof {
        assert(row@.take(0) =~= Seq::<i8>::empty());
        assert(base + Seq::<u8>::empty() =~= base);
    }
    while col < row.len()
        invariant
            col <= row.len(),
            spec_take_row(old(tally)@, row@.take(col as int), row_num, letters) is Ok,
            board@ == base + spec_take_row(
                old(tally)@,
                row@.take(col as int),
                row_num,
                letters,
            ).unwrap().0,
            tally@ == spec_take_row(old(tally)@, row@.take(col as int), row_num, letters).unwrap().1,
        decreases row.len() - col,
    {
        let signed = row[col];
        let ghost tiles = spec_take_row(
            old(tally)@,
            row@.take(col as int),
            row_num,
            letters,
        ).unwrap().0;
        proof {
            assert(row@.take(col + 1).drop_last() =~= row@.take(col as int));
            assert(row@.take(col + 1).last() == signed);
        }
        match tile_from_signed(signed, letters) {
            None => {
                proof {
                    lemma_take_row_error(old(tally)@, row@, row_num, letters, col + 1);
                }
                return Err(QuestionError::BoardTile { row: row_num, col, tile: signed });
            },
            Some(tile) => {
                if tile != 0 {
                    let kind = crate::placement::blanked(tile);
                    if !tally_take(tally, kind) {
                        proof {
                            lemma_take_row_error(old(tally)@, row@, row_num, letters, col + 1);
                        }
                        return Err(QuestionError::TooMany { tile: kind });
                    }
                }
                board.push(tile);
                proof {
                    assert(base + tiles.push(tile) =~= (base + tiles).push(tile));
                }
            },
        }
        col = col + 1;
    }
    proof {
        assert(row@.take(col as int) =~= row@);
    }
    Ok(())
}


/// The first thing that is wrong with the shape of a board that is to have
/// `rows` rows of `cols` columns, if anything is.
pub open spec fn spec_check_shape(board: Seq<Vec<i8>>, rows: usize, cols: usize) -> Option<
    QuestionError,
> {
    if board.len() != rows {
        Some(QuestionError::Rows { found: board.len() as usize })
    } else if exists|r: int| 0 <= r < board.len() && (#[trigger] board[r])@.len() != cols {
        let first = choose|r: int|
            0 <= r < board.len() && (#[trigger] board[r])@.len() != cols && forall|q: int|
                0 <= q < r ==> (#[trigger] board[q])@.len() == cols;
        Some(QuestionError::Cols { row: first as usize, found: board[first]@.len() as usize })
    } else {
        None
    }
}

/// Checks that a board has `rows` rows of `cols` columns.
pub fn check_shape(board: &Vec<Vec<i8>>, rows: usize, cols: usize) -> (r: Result<(), QuestionError>)
    ensures
        match spec_check_shape(board@, rows, cols) {
            None => r is Ok,
            Some(e) => r == Err::<(), QuestionError>(e),
        },
{
    if board.len() != rows {
        return Err(QuestionError::Rows { found: board.len() });
    }
    let mut row: usize = 0;
    while row < board.len()
        invariant
            row <= board.len(),
            board.len() == rows,
            forall|q: int| 0 <= q < row ==> (#[trigger] board@[q])@.len() == cols,
        decreases board.len() - row,
    {
        if board[row].len() != cols {
            proof {
                let first = choose|r: int|
                    0 <= r < board@.len() && (#[trigger] board@[r])@.len() != cols && forall|q: int|
                        0 <= q < r ==> (#[trigger] board@[q])@.len() == cols;
                assert(first == row) by {
                    if first < row {
                        assert(board@[first]@.len() == cols);
                    } else if row < first {
                        assert(board@[row as int]@.len() == cols);
                    }
                }
            }
            return Err(QuestionError::Cols { row, found: board[row].len() });
        }
        row = row + 1;
    }
    Ok(())
}

} // verus!
