//! Alphabet scores and board geometry, and the configuration that bundles them.

use vstd::prelude::*;

verus! {

/// Tile scores by tile number. Tile 0 is the blank and always scores 0.
pub struct Alphabet {
    pub scores: Vec<u8>,
}

/// Sum of the scores of the tiles of `rack`.
pub open spec fn spec_rack_score(alphabet: Alphabet, rack: Seq<u8>) -> int
    decreases rack.len(),
{
    if rack.len() == 0 {
        0
    } else {
        spec_rack_score(alphabet, rack.drop_last()) + alphabet.spec_score(rack.last())
    }
}

/// A rack's score is at most 255 per tile.
pub proof fn lemma_rack_score_bounds(alphabet: Alphabet, rack: Seq<u8>)
    ensures
        0 <= spec_rack_score(alphabet, rack) <= 255 * rack.len(),
    decreases rack.len(),
{
    if rack.len() > 0 {
        lemma_rack_score_bounds(alphabet, rack.drop_last());
    }
}

impl Alphabet {
    /// Score of a tile: 0 for the blank and for a tile outside the alphabet.
    pub open spec fn spec_score(self, tile: u8) -> int {
        if 0 < tile && (tile as int) < self.scores@.len() {
            self.scores@[tile as int] as int
        } else {
            0
        }
    }

    /// An alphabet with these scores, by tile number.
    pub fn new(scores: Vec<u8>) -> (r: Alphabet)
        ensures
            r.scores@ == scores@,
    {
        Alphabet { scores }
    }

    /// The score of a tile.
    pub fn score(&self, tile: u8) -> (r: u8)
        ensures
            r as int == self.spec_score(tile),
    {
        if tile > 0 && (tile as usize) < self.scores.len() {
            self.scores[tile as usize]
        } else {
            0
        }
    }

    /// The score of a rack.
    pub fn rack_score(&self, rack: &[u8]) -> (r: i64)
        requires
            rack@.len() <= 0x1_0000_0000,
        ensures
            r as int == spec_rack_score(*self, rack@),
    {
        let mut total: i64 = 0;
        let mut i: usize = 0;
        while i < rack.len()
            invariant
                i <= rack@.len() <= 0x1_0000_0000,
                total as int == spec_rack_score(*self, rack@.take(i as int)),
                0 <= total <= 255 * i,
            decreases rack@.len() - i,
        {
            proof {
                assert(rack@.take(i + 1).drop_last() =~= rack@.take(i as int));
            }
            total = total + self.score(rack[i]) as i64;
            i = i + 1;
        }
        proof {
            assert(rack@.take(i as int) =~= rack@);
        }
        total
    }
}

/// Board dimensions. Squares are numbered row by row.
#[derive(Clone, Copy)]
pub struct BoardLayout {
    pub rows: i8,
    pub cols: i8,
}

impl BoardLayout {
    /// The board has at least one row and one column.
    pub open spec fn wf(self) -> bool {
        self.rows > 0 && self.cols > 0
    }

    /// Number of squares on the board.
    pub open spec fn spec_size(self) -> int {
        self.rows as int * self.cols as int
    }

    /// Length of a lane: a row when `down` is false, a column when it is true.
    pub open spec fn spec_lane_len(self, down: bool) -> int {
        if down {
            self.rows as int
        } else {
            self.cols as int
        }
    }

    /// Number of lanes in a direction.
    pub open spec fn spec_num_lanes(self, down: bool) -> int {
        if down {
            self.cols as int
        } else {
            self.rows as int
        }
    }

    /// Square at position `i` of lane `lane`.
    pub open spec fn spec_at(self, down: bool, lane: int, i: int) -> int {
        if down {
            i * self.cols as int + lane
        } else {
            lane * self.cols as int + i
        }
    }

    /// Position `i` of lane `lane` is on the board.
    pub open spec fn in_lane(self, down: bool, lane: int, i: int) -> bool {
        0 <= lane < self.spec_num_lanes(down) && 0 <= i < self.spec_lane_len(down)
    }

    /// A board of `rows` rows and `cols` columns.
    pub fn new(rows: i8, cols: i8) -> (r: BoardLayout)
        requires
            rows > 0,
            cols > 0,
        ensures
            r.wf(),
            r.rows == rows,
            r.cols == cols,
    {
        BoardLayout { rows, cols }
    }

    /// Number of squares on the board.
    pub fn size(&self) -> (r: usize)
        requires
            self.wf(),
        ensures
            r as int == self.spec_size(),
            0 < r <= 16129,
    {
        proof {
            self.lemma_size_bounds();
        }
        (self.rows as usize) * (self.cols as usize)
    }

    /// Square at position `i` of lane `lane`.
    pub fn at(&self, down: bool, lane: i8, i: i8) -> (r: usize)
        requires
            self.wf(),
            self.in_lane(down, lane as int, i as int),
        ensures
            r as int == self.spec_at(down, lane as int, i as int),
            r < self.spec_size(),
    {
        proof {
            self.lemma_at_in_range(down, lane as int, i as int);
            self.lemma_size_bounds();
        }
        if down {
            (i as usize) * (self.cols as usize) + (lane as usize)
        } else {
            (lane as usize) * (self.cols as usize) + (i as usize)
        }
    }

    /// A board has at least one square and at most 127 times 127.
    pub proof fn lemma_size_bounds(self)
        requires
            self.wf(),
        ensures
            0 < self.spec_size() <= 16129,
    {
        assert(0 < self.rows as int * self.cols as int <= 16129) by (nonlinear_arith)
            requires
                0 < self.rows <= 127,
                0 < self.cols <= 127,
        ;
    }

    /// A position inside a lane is a square of the board.
    pub proof fn lemma_at_in_range(self, down: bool, lane: int, i: int)
        requires
            self.wf(),
            self.in_lane(down, lane, i),
        ensures
            0 <= self.spec_at(down, lane, i) < self.spec_size(),
    {
        let c = self.cols as int;
        let r = self.rows as int;
        if down {
            assert(0 <= i * c && i * c + c <= r * c) by (nonlinear_arith)
                requires
                    0 <= i < r,
                    0 < c,
            ;
        } else {
            assert(0 <= lane * c && lane * c + c <= r * c) by (nonlinear_arith)
                requires
                    0 <= lane < r,
                    0 < c,
            ;
        }
    }

    /// Distinct positions of the board's lanes of one direction are distinct squares.
    pub proof fn lemma_at_injective(self, down: bool, lane1: int, i1: int, lane2: int, i2: int)
        requires
            self.wf(),
            self.in_lane(down, lane1, i1),
            self.in_lane(down, lane2, i2),
            self.spec_at(down, lane1, i1) == self.spec_at(down, lane2, i2),
        ensures
            lane1 == lane2,
            i1 == i2,
    {
        let c = self.cols as int;
        if down {
            assert(i1 == i2 && lane1 == lane2) by (nonlinear_arith)
                requires
                    0 <= lane1 < c,
                    0 <= lane2 < c,
                    i1 * c + lane1 == i2 * c + lane2,
            ;
        } else {
            assert(i1 == i2 && lane1 == lane2) by (nonlinear_arith)
                requires
                    0 <= i1 < c,
                    0 <= i2 < c,
                    lane1 * c + i1 == lane2 * c + i2,
            ;
        }
    }
}

/// What a game is played with: an alphabet and a board.
pub trait GameConfig {
    /// The alphabet of the game.
    spec fn spec_alphabet(&self) -> Alphabet;

    /// The board of the game.
    spec fn spec_board_layout(&self) -> BoardLayout;

    /// The alphabet of the game.
    fn alphabet(&self) -> (r: &Alphabet)
        ensures
            *r == self.spec_alphabet(),
    ;

    /// The board of the game.
    fn board_layout(&self) -> (r: BoardLayout)
        ensures
            r == self.spec_board_layout(),
    ;
}

/// A configuration that holds its alphabet and its board layout as plain data.
pub struct GenericGameConfig {
    pub alphabet: Alphabet,
    pub bl: BoardLayout,
}

impl GenericGameConfig {
    /// A configuration of this alphabet and this board.
    pub fn new(alphabet: Alphabet, bl: BoardLayout) -> (r: GenericGameConfig)
        ensures
            r.alphabet == alphabet,
            r.bl == bl,
    {
        GenericGameConfig { alphabet, bl }
    }
}

impl GameConfig for GenericGameConfig {
    open spec fn spec_alphabet(&self) -> Alphabet {
        self.alphabet
    }

    open spec fn spec_board_layout(&self) -> BoardLayout {
        self.bl
    }

    fn alphabet(&self) -> (r: &Alphabet) {
        &self.alphabet
    }

    fn board_layout(&self) -> (r: BoardLayout) {
        self.bl
    }
}

} // verus!
