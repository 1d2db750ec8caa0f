//! Plays: what a player may do on a turn, and the tiles a play puts down.

use crate::game_config::BoardLayout;
use crate::placement::PlacedTile;
use vstd::prelude::*;

verus! {

/// A move. An exchange of no tiles is a pass. A placement lists the tiles of
/// its word along a lane, with 0 for a square whose tile is already on the board.
#[derive(Debug, PartialEq, Eq)]
pub enum Play {
    Exchange { tiles: Vec<u8> },
    Place { down: bool, lane: i8, idx: i8, word: Vec<u8>, score: i16 },
}

/// The mathematical value of a [`Play`].
pub enum PlayView {
    Exchange { tiles: Seq<u8> },
    Place { down: bool, lane: i8, idx: i8, word: Seq<u8>, score: i16 },
}

impl View for Play {
    type V = PlayView;

    open spec fn view(&self) -> PlayView {
        match *self {
            Play::Exchange { tiles } => PlayView::Exchange { tiles: tiles@ },
            Play::Place { down, lane, idx, word, score } => PlayView::Place {
                down,
                lane,
                idx,
                word: word@,
                score,
            },
        }
    }
}

/// The pass: an exchange of no tiles.
pub open spec fn spec_pass() -> PlayView {
    PlayView::Exchange { tiles: Seq::empty() }
}

/// The score a play earns by itself: that of a placement, and 0 for an exchange.
pub open spec fn spec_move_score(play: PlayView) -> i16 {
    match play {
        PlayView::Exchange { .. } => 0,
        PlayView::Place { score, .. } => score,
    }
}

/// The score a play earns by itself.
pub fn move_score(play: &Play) -> (r: i16)
    ensures
        r == spec_move_score(play@),
{
    match play {
        Play::Exchange { .. } => 0,
        Play::Place { score, .. } => *score,
    }
}

/// A copy of the bytes.
pub fn copy_bytes(src: &Vec<u8>) -> (r: Vec<u8>)
    ensures
        r@ == src@,
{
    let mut out: Vec<u8> = Vec::new();
    let mut i: usize = 0;
    while i < src.len()
        invariant
            i <= src.len(),
            out@ == src@.take(i as int),
        decreases src.len() - i,
    {
        out.push(src[i]);
        proof {
            assert(src@.take(i + 1) =~= src@.take(i as int).push(src@[i as int]));
        }
        i = i + 1;
    }
    proof {
        assert(src@.take(src.len() as int) =~= src@);
    }
    out
}

/// Whether two lists of bytes are equal.
pub fn bytes_equal(a: &Vec<u8>, b: &Vec<u8>) -> (r: bool)
    ensures
        r == (a@ == b@),
{
    if a.len() != b.len() {
        return false;
    }
    let mut i: usize = 0;
    while i < a.len()
        invariant
            i <= a.len(),
            a.len() == b.len(),
            a@.take(i as int) == b@.take(i as int),
        decreases a.len() - i,
    {
        if a[i] != b[i] {
            return false;
        }
        proof {
            assert(a@.take(i + 1) =~= a@.take(i as int).push(a@[i as int]));
            assert(b@.take(i + 1) =~= b@.take(i as int).push(b@[i as int]));
        }
        i = i + 1;
    }
    proof {
        assert(a@.take(a.len() as int) =~= a@);
        assert(b@.take(b.len() as int) =~= b@);
    }
    true
}

/// Number of tiles that a word puts down: its nonzero bytes.
pub open spec fn spec_tiles_placed(word: Seq<u8>) -> nat
    decreases word.len(),
{
    if word.len() == 0 {
        0
    } else {
        spec_tiles_placed(word.drop_last()) + if word.last() != 0 {
            1nat
        } else {
            0nat
        }
    }
}

/// The placements that a word makes along its lane, in the order of the word.
pub open spec fn spec_word_placements(
    layout: BoardLayout,
    down: bool,
    lane: int,
    idx: int,
    word: Seq<u8>,
    whose: u8,
) -> Seq<PlacedTile>
    decreases word.len(),
{
    if word.len() == 0 {
        Seq::empty()
    } else {
        let rest = spec_word_placements(layout, down, lane, idx, word.drop_last(), whose);
        if word.last() != 0 {
            rest.push(
                PlacedTile {
                    tile: word.last(),
                    whose,
                    square: layout.spec_at(down, lane, idx + word.len() - 1) as i16,
                },
            )
        } else {
            rest
        }
    }
}

/// The placements that a play makes for the player `whose`: none for an exchange.
pub open spec fn spec_play_placements(layout: BoardLayout, play: PlayView, whose: u8) -> Seq<
    PlacedTile,
> {
    match play {
        PlayView::Exchange { .. } => Seq::empty(),
        PlayView::Place { down, lane, idx, word, .. } => spec_word_placements(
            layout,
            down,
            lane as int,
            idx as int,
            word,
            whose,
        ),
    }
}

/// The word of a placement lies on the board.
pub open spec fn spec_in_bounds(layout: BoardLayout, play: PlayView) -> bool {
    match play {
        PlayView::Exchange { .. } => true,
        PlayView::Place { down, lane, idx, word, .. } => {
            &&& 0 <= lane < layout.spec_num_lanes(down)
            &&& 0 <= idx
            &&& idx + word.len() <= layout.spec_lane_len(down)
        },
    }
}

/// A word makes one placement for each of its nonzero bytes.
pub(crate) proof fn lemma_word_placements_len(
    layout: BoardLayout,
    down: bool,
    lane: int,
    idx: int,
    word: Seq<u8>,
    whose: u8,
)
    ensures
        spec_word_placements(layout, down, lane, idx, word, whose).len() == spec_tiles_placed(word),
        spec_tiles_placed(word) <= word.len(),
    decreases word.len(),
{
    if word.len() > 0 {
        lemma_word_placements_len(layout, down, lane, idx, word.drop_last(), whose);
    }
}

/// Each placement of a word in bounds is a nonzero tile of the word on its
/// square of the lane, owned by the mover.
pub(crate) proof fn lemma_word_placements_elements(
    layout: BoardLayout,
    down: bool,
    lane: int,
    idx: int,
    word: Seq<u8>,
    whose: u8,
    i: int,
) -> (k: int)
    requires
        layout.wf(),
        0 <= lane < layout.spec_num_lanes(down),
        0 <= idx,
        idx + word.len() <= layout.spec_lane_len(down),
        0 <= i < spec_word_placements(layout, down, lane, idx, word, whose).len(),
    ensures
        0 <= k < word.len(),
        word[k] != 0,
        spec_word_placements(layout, down, lane, idx, word, whose)[i] == (PlacedTile {
            tile: word[k],
            whose,
            square: layout.spec_at(down, lane, idx + k) as i16,
        }),
        0 <= layout.spec_at(down, lane, idx + k) < layout.spec_size(),
    decreases word.len(),
{
    let rest = spec_word_placements(layout, down, lane, idx, word.drop_last(), whose);
    if word.last() != 0 && i == rest.len() {
        let k = word.len() - 1;
        layout.lemma_at_in_range(down, lane, idx + k);
        k
    } else {
        lemma_word_placements_elements(layout, down, lane, idx, word.drop_last(), whose, i)
    }
}

impl Play {
    /// Whether the play is an exchange; a pass is one.
    pub fn is_exchange(&self) -> (r: bool)
        ensures
            r == (self@ is Exchange),
    {
        match self {
            Play::Exchange { .. } => true,
            Play::Place { .. } => false,
        }
    }

    /// The pass.
    pub fn pass() -> (r: Play)
        ensures
            r@ == spec_pass(),
    {
        Play::Exchange { tiles: Vec::new() }
    }

    /// A copy of the play.
    pub fn duplicate(&self) -> (r: Play)
        ensures
            r@ == self@,
    {
        match self {
            Play::Exchange { tiles } => Play::Exchange { tiles: copy_bytes(tiles) },
            Play::Place { down, lane, idx, word, score } => Play::Place {
                down: *down,
                lane: *lane,
                idx: *idx,
                word: copy_bytes(word),
                score: *score,
            },
        }
    }

    /// Whether two plays are the same play.
    pub fn same(&self, other: &Play) -> (r: bool)
        ensures
            r == (self@ == other@),
    {
        match self {
            Play::Exchange { tiles } => match other {
                Play::Exchange { tiles: tiles2 } => bytes_equal(tiles, tiles2),
                Play::Place { .. } => false,
            },
            Play::Place { down, lane, idx, word, score } => match other {
                Play::Exchange { .. } => false,
                Play::Place { down: down2, lane: lane2, idx: idx2, word: word2, score: score2 } => {
                    *down == *down2 && *lane == *lane2 && *idx == *idx2 && *score == *score2
                        && bytes_equal(word, word2)
                },
            },
        }
    }

    /// Whether the word of a placement lies on the board.
    pub fn in_bounds(&self, layout: &BoardLayout) -> (r: bool)
        requires
            layout.wf(),
        ensures
            r == spec_in_bounds(*layout, self@),
    {
        match self {
            Play::Exchange { .. } => true,
            Play::Place { down, lane, idx, word, .. } => {
                let lanes: i8 = if *down {
                    layout.cols
                } else {
                    layout.rows
                };
                let len: i8 = if *down {
                    layout.rows
                } else {
                    layout.cols
                };
                0 <= *lane && *lane < lanes && 0 <= *idx && word.len() <= 127 && (*idx as usize)
                    + word.len() <= (len as usize)
            },
        }
    }

    /// Number of tiles that the play puts on the board.
    pub fn tiles_placed(&self) -> (r: usize)
        ensures
            r == match self@ {
                PlayView::Exchange { .. } => 0,
                PlayView::Place { word, .. } => spec_tiles_placed(word),
            },
    {
        match self {
            Play::Exchange { .. } => 0,
            Play::Place { word, .. } => {
                let mut n: usize = 0;
                let mut k: usize = 0;
                while k < word.len()
                    invariant
                        k <= word.len(),
                        n == spec_tiles_placed(word@.take(k as int)),
                        n <= k,
                    decreases word.len() - k,
                {
                    proof {
                        assert(word@.take(k + 1).drop_last() =~= word@.take(k as int));
                    }
                    if word[k] != 0 {
                        n = n + 1;
                    }
                    k = k + 1;
                }
                proof {
                    assert(word@.take(k as int) =~= word@);
                }
                n
            },
        }
    }

    /// The placements that the play makes for the player `whose`.
    pub fn placements(&self, layout: &BoardLayout, whose: u8) -> (r: Vec<PlacedTile>)
        requires
            layout.wf(),
            spec_in_bounds(*layout, self@),
        ensures
            r@ == spec_play_placements(*layout, self@, whose),
    {
        let mut out: Vec<PlacedTile> = Vec::new();
        match self {
            Play::Exchange { .. } => {},
            Play::Place { down, lane, idx, word, .. } => {
                let mut k: usize = 0;
                while k < word.len()
                    invariant
                        layout.wf(),
                        k <= word.len(),
                        0 <= *lane < layout.spec_num_lanes(*down),
                        0 <= *idx,
                        *idx + word.len() <= layout.spec_lane_len(*down),
                        out@ == spec_word_placements(
                            *layout,
                            *down,
                            *lane as int,
                            *idx as int,
                            word@.take(k as int),
                            whose,
                        ),
                    decreases word.len() - k,
                {
                    proof {
                        assert(word@.take(k + 1).drop_last() =~= word@.take(k as int));
                        layout.lemma_size_bounds();
                    }
                    if word[k] != 0 {
                        let pos: i8 = *idx + (k as i8);
                        let square = layout.at(*down, *lane, pos);
                        out.push(PlacedTile { tile: word[k], whose, square: square as i16 });
                    }
                    k = k + 1;
                }
                proof {
                    assert(word@.take(k as int) =~= word@);
                }
            },
        }
        out
    }
}

} // verus!
