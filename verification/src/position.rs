//! Positions rebuilt from their placements: the board and the two racks that
//! a chain of placements leaves of the position at the start of the endgame.

use crate::game_config::{spec_rack_score, Alphabet, BoardLayout};
use crate::placement::{
    blanked, count_sel, lemma_count_by_players, lemma_count_concat, lemma_count_positive,
    lemma_count_push, lemma_count_take, lemma_count_witness, lemma_same_placements_valid,
    same_placements, spec_blanked, valid_placements, PlacedTile, Selector,
};
use crate::play::{
    lemma_word_placements_elements, spec_in_bounds, spec_play_placements, spec_word_placements,
    Play, PlayView,
};
use crate::state_table::StateTable;
use vstd::prelude::*;

verus! {

/// The most tiles that the two racks may hold together.
pub const MAX_TILES: usize = 0xffff;

/// The board that the placements of `chain` leave of `board`. The placements
/// are made last first; one outside the board is passed over.
pub open spec fn spec_board_after(board: Seq<u8>, chain: Seq<PlacedTile>) -> Seq<u8>
    decreases chain.len(),
{
    if chain.len() == 0 {
        board
    } else {
        let p = chain.last();
        let next = if 0 <= p.square < board.len() {
            board.update(p.square as int, p.tile)
        } else {
            board
        };
        spec_board_after(next, chain.drop_last())
    }
}

/// The rack without its last tile equal to `tile`, or the rack itself if it holds none.
pub open spec fn spec_take_tile(rack: Seq<u8>, tile: u8) -> Seq<u8>
    decreases rack.len(),
{
    if rack.len() == 0 {
        rack
    } else if rack.last() == tile {
        rack.drop_last()
    } else {
        spec_take_tile(rack.drop_last(), tile).push(rack.last())
    }
}

/// The rack that the placements of `chain` leave of player `whose`'s `rack`:
/// each of the player's placements, last first, takes its tile from the rack.
pub open spec fn spec_rack_after(rack: Seq<u8>, chain: Seq<PlacedTile>, whose: u8) -> Seq<u8>
    decreases chain.len(),
{
    if chain.len() == 0 {
        rack
    } else {
        let p = chain.last();
        let next = if p.whose == whose {
            spec_take_tile(rack, spec_blanked(p.tile))
        } else {
            rack
        };
        spec_rack_after(next, chain.drop_last(), whose)
    }
}

/// Number of tiles of `rack` equal to `tile`.
pub open spec fn count_tile(rack: Seq<u8>, tile: u8) -> nat
    decreases rack.len(),
{
    if rack.len() == 0 {
        0
    } else {
        count_tile(rack.drop_last(), tile) + if rack.last() == tile {
            1nat
        } else {
            0nat
        }
    }
}

/// Number of rack tiles `tile` that player `whose` has placed in `chain`.
pub open spec fn spec_used(chain: Seq<PlacedTile>, whose: u8, tile: u8) -> nat {
    if tile == 0 {
        count_sel(chain, Selector::Owned(0x80, whose))
    } else if tile < 0x80 {
        count_sel(chain, Selector::Owned(tile, whose))
    } else {
        0
    }
}

/// The placements of `chain` can be made on the position at the start: each
/// on a square of the board of its own that was empty, with a tile of its
/// player's rack.
#[verifier::opaque]
pub open spec fn position_ok(
    layout: BoardLayout,
    board: Seq<u8>,
    rack0: Seq<u8>,
    rack1: Seq<u8>,
    chain: Seq<PlacedTile>,
) -> bool {
    &&& valid_placements(chain)
    &&& forall|sq: i16| #[trigger]
        count_sel(chain, Selector::Square(sq)) > 0 ==> {
            &&& count_sel(chain, Selector::Square(sq)) == 1
            &&& 0 <= sq < board.len()
            &&& board[sq as int] == 0
        }
    &&& forall|tile: u8| #[trigger] spec_used(chain, 0, tile) <= count_tile(rack0, tile)
    &&& forall|tile: u8| #[trigger] spec_used(chain, 1, tile) <= count_tile(rack1, tile)
}

/// Score of the tiles that player `whose` has placed in `chain`; a blank scores 0.
pub open spec fn spec_placed_score(alphabet: Alphabet, chain: Seq<PlacedTile>, whose: u8) -> int
    decreases chain.len(),
{
    if chain.len() == 0 {
        0
    } else {
        let p = chain.last();
        spec_placed_score(alphabet, chain.drop_last(), whose) + if p.whose == whose {
            alphabet.spec_score(spec_blanked(p.tile))
        } else {
            0
        }
    }
}

/// What a player has placed scores at most 255 per tile.
pub(crate) proof fn lemma_placed_score_bounds(alphabet: Alphabet, chain: Seq<PlacedTile>, whose: u8)
    ensures
        0 <= spec_placed_score(alphabet, chain, whose) <= 255 * chain.len(),
    decreases chain.len(),
{
    if chain.len() > 0 {
        lemma_placed_score_bounds(alphabet, chain.drop_last(), whose);
    }
}

/// A count of tiles, by the last tile.
pub(crate) proof fn lemma_count_tile_push(rack: Seq<u8>, last: u8, tile: u8)
    ensures
        count_tile(rack.push(last), tile) == count_tile(rack, tile) + if last == tile {
            1nat
        } else {
            0nat
        },
{
    assert(rack.push(last).drop_last() =~= rack);
}

/// A rack holds a tile if and only if it counts at least one.
pub(crate) proof fn lemma_count_tile_bounds(rack: Seq<u8>, tile: u8)
    ensures
        count_tile(rack, tile) <= rack.len(),
        count_tile(rack, tile) > 0 <==> rack.contains(tile),
    decreases rack.len(),
{
    if rack.len() > 0 {
        lemma_count_tile_bounds(rack.drop_last(), tile);
        if rack.contains(tile) {
            let i = choose|i: int| 0 <= i < rack.len() && rack[i] == tile;
            if i < rack.len() - 1 {
                assert(rack.drop_last()[i] == tile);
            }
        }
        if rack.drop_last().contains(tile) {
            let i = choose|i: int| 0 <= i < rack.drop_last().len() && rack.drop_last()[i] == tile;
            assert(rack[i] == tile);
        }
        if rack.last() == tile {
            assert(rack[rack.len() - 1] == tile);
        }
    }
}

/// Taking a tile removes one such tile, if there is one, and no other.
pub(crate) proof fn lemma_take_tile_counts(rack: Seq<u8>, tile: u8, other: u8)
    ensures
        count_tile(spec_take_tile(rack, tile), other) == if other == tile && count_tile(rack, tile)
            > 0 {
            (count_tile(rack, other) - 1) as nat
        } else {
            count_tile(rack, other)
        },
        spec_take_tile(rack, tile).len() == if count_tile(rack, tile) > 0 {
            (rack.len() - 1) as nat
        } else {
            rack.len()
        },
    decreases rack.len(),
{
    if rack.len() == 0 {
    } else if rack.last() == tile {
    } else {
        lemma_take_tile_counts(rack.drop_last(), tile, other);
        lemma_count_tile_push(spec_take_tile(rack.drop_last(), tile), rack.last(), other);
    }
}

/// Taking the tile at the last place where it lies is taking the tile.
pub(crate) proof fn lemma_take_tile_at(rack: Seq<u8>, tile: u8, i: int)
    requires
        0 <= i < rack.len(),
        rack[i] == tile,
        forall|k: int| i < k < rack.len() ==> rack[k] != tile,
    ensures
        spec_take_tile(rack, tile) == rack.remove(i),
    decreases rack.len(),
{
    if i == rack.len() - 1 {
        assert(rack.remove(i) =~= rack.drop_last());
    } else {
        lemma_take_tile_at(rack.drop_last(), tile, i);
        assert(rack.remove(i) =~= rack.drop_last().remove(i).push(rack.last()));
    }
}

/// A rack that holds no such tile is left as it is.
pub(crate) proof fn lemma_take_tile_absent(rack: Seq<u8>, tile: u8)
    requires
        forall|k: int| 0 <= k < rack.len() ==> rack[k] != tile,
    ensures
        spec_take_tile(rack, tile) == rack,
    decreases rack.len(),
{
    if rack.len() > 0 {
        lemma_take_tile_absent(rack.drop_last(), tile);
        assert(rack.drop_last().push(rack.last()) =~= rack);
    }
}

/// What a player has placed of a rack tile, by the last placement.
pub(crate) proof fn lemma_used_push(chain: Seq<PlacedTile>, p: PlacedTile, whose: u8, tile: u8)
    requires
        p.tile != 0,
    ensures
        spec_used(chain.push(p), whose, tile) == spec_used(chain, whose, tile) + if p.whose
            == whose && spec_blanked(p.tile) == tile {
            1nat
        } else {
            0nat
        },
{
    lemma_count_push(chain, p, Selector::Owned(0x80, whose));
    lemma_count_push(chain, p, Selector::Owned(tile, whose));
}

/// The racks of a position hold what the placements have left of them: for
/// each tile, as many fewer as the player has placed.
pub(crate) proof fn lemma_rack_after_counts(rack: Seq<u8>, chain: Seq<PlacedTile>, whose: u8)
    requires
        valid_placements(chain),
        forall|tile: u8| #[trigger] spec_used(chain, whose, tile) <= count_tile(rack, tile),
    ensures
        forall|tile: u8| #[trigger]
            count_tile(spec_rack_after(rack, chain, whose), tile) + spec_used(chain, whose, tile)
                == count_tile(rack, tile),
        spec_rack_after(rack, chain, whose).len() + count_sel(chain, Selector::Whose(whose))
            == rack.len(),
    decreases chain.len(),
{
    if chain.len() > 0 {
        let p = chain.last();
        let rest = chain.drop_last();
        assert(chain =~= rest.push(p));
        assert(p == chain[chain.len() - 1]);
        assert forall|i: int| 0 <= i < rest.len() implies (#[trigger] rest[i]).tile != 0
            && rest[i].whose <= 1 by {
            assert(rest[i] == chain[i]);
        }
        lemma_count_push(rest, p, Selector::Whose(whose));
        let next = if p.whose == whose {
            spec_take_tile(rack, spec_blanked(p.tile))
        } else {
            rack
        };
        assert forall|tile: u8| #[trigger] spec_used(rest, whose, tile) <= count_tile(
            next,
            tile,
        ) by {
            lemma_used_push(rest, p, whose, tile);
            lemma_used_push(rest, p, whose, spec_blanked(p.tile));
            lemma_take_tile_counts(rack, spec_blanked(p.tile), tile);
            assert(spec_used(chain, whose, tile) <= count_tile(rack, tile));
            assert(spec_used(chain, whose, spec_blanked(p.tile)) <= count_tile(
                rack,
                spec_blanked(p.tile),
            ));
        }
        lemma_rack_after_counts(next, rest, whose);
        assert forall|tile: u8| #[trigger]
            count_tile(spec_rack_after(rack, chain, whose), tile) + spec_used(chain, whose, tile)
                == count_tile(rack, tile) by {
            lemma_used_push(rest, p, whose, tile);
            lemma_used_push(rest, p, whose, spec_blanked(p.tile));
            lemma_take_tile_counts(rack, spec_blanked(p.tile), tile);
            assert(count_tile(spec_rack_after(next, rest, whose), tile) + spec_used(
                rest,
                whose,
                tile,
            ) == count_tile(next, tile));
            assert(spec_used(chain, whose, spec_blanked(p.tile)) <= count_tile(
                rack,
                spec_blanked(p.tile),
            ));
        }
        lemma_used_push(rest, p, whose, spec_blanked(p.tile));
        lemma_take_tile_counts(rack, spec_blanked(p.tile), spec_blanked(p.tile));
        assert(spec_used(chain, whose, spec_blanked(p.tile)) <= count_tile(
            rack,
            spec_blanked(p.tile),
        ));
    }
}

/// The score of a rack, by its last tile.
pub(crate) proof fn lemma_rack_score_push(alphabet: Alphabet, rack: Seq<u8>, last: u8)
    ensures
        spec_rack_score(alphabet, rack.push(last)) == spec_rack_score(alphabet, rack)
            + alphabet.spec_score(last),
{
    assert(rack.push(last).drop_last() =~= rack);
}

/// Taking a tile from a rack takes its score from the rack's score.
pub(crate) proof fn lemma_rack_score_take(alphabet: Alphabet, rack: Seq<u8>, tile: u8)
    ensures
        spec_rack_score(alphabet, spec_take_tile(rack, tile)) == spec_rack_score(alphabet, rack)
            - if count_tile(rack, tile) > 0 {
            alphabet.spec_score(tile)
        } else {
            0
        },
    decreases rack.len(),
{
    if rack.len() == 0 {
    } else if rack.last() == tile {
    } else {
        lemma_rack_score_take(alphabet, rack.drop_last(), tile);
        lemma_rack_score_push(alphabet, spec_take_tile(rack.drop_last(), tile), rack.last());
    }
}

/// The tiles that a player still holds score what the player's rack scored
/// at the start less what the player has placed; a blank scores nothing.
pub proof fn lemma_remaining_score(
    alphabet: Alphabet,
    rack: Seq<u8>,
    chain: Seq<PlacedTile>,
    whose: u8,
)
    requires
        valid_placements(chain),
        forall|tile: u8| #[trigger] spec_used(chain, whose, tile) <= count_tile(rack, tile),
    ensures
        spec_rack_score(alphabet, spec_rack_after(rack, chain, whose)) == spec_rack_score(
            alphabet,
            rack,
        ) - spec_placed_score(alphabet, chain, whose),
    decreases chain.len(),
{
    if chain.len() > 0 {
        let p = chain.last();
        let rest = chain.drop_last();
        let t = spec_blanked(p.tile);
        assert(chain =~= rest.push(p));
        assert(p == chain[chain.len() - 1]);
        assert forall|i: int| 0 <= i < rest.len() implies (#[trigger] rest[i]).tile != 0
            && rest[i].whose <= 1 by {
            assert(rest[i] == chain[i]);
        }
        let next = if p.whose == whose {
            spec_take_tile(rack, t)
        } else {
            rack
        };
        assert forall|tile: u8| #[trigger] spec_used(rest, whose, tile) <= count_tile(
            next,
            tile,
        ) by {
            lemma_used_push(rest, p, whose, tile);
            lemma_used_push(rest, p, whose, t);
            lemma_take_tile_counts(rack, t, tile);
            assert(spec_used(chain, whose, tile) <= count_tile(rack, tile));
            assert(spec_used(chain, whose, t) <= count_tile(rack, t));
        }
        lemma_remaining_score(alphabet, next, rest, whose);
        lemma_rack_score_take(alphabet, rack, t);
        lemma_used_push(rest, p, whose, t);
        assert(spec_used(chain, whose, t) <= count_tile(rack, t));
    }
}

/// A position's chain is no longer than the two racks together.
pub proof fn lemma_position_ok_len(
    layout: BoardLayout,
    board: Seq<u8>,
    rack0: Seq<u8>,
    rack1: Seq<u8>,
    chain: Seq<PlacedTile>,
)
    requires
        position_ok(layout, board, rack0, rack1, chain),
    ensures
        chain.len() <= rack0.len() + rack1.len(),
        chain.len() == count_sel(chain, Selector::Whose(0)) + count_sel(chain, Selector::Whose(1)),
        spec_rack_after(rack0, chain, 0).len() + count_sel(chain, Selector::Whose(0))
            == rack0.len(),
        spec_rack_after(rack1, chain, 1).len() + count_sel(chain, Selector::Whose(1))
            == rack1.len(),
{
    reveal(position_ok);
    lemma_rack_after_counts(rack0, chain, 0);
    lemma_rack_after_counts(rack1, chain, 1);
    lemma_count_by_players(chain);
}

/// Whether a list of placements can be made depends on the placements alone,
/// not on their order nor on who placed which tile of a group.
pub proof fn lemma_position_ok_same(
    layout: BoardLayout,
    board: Seq<u8>,
    rack0: Seq<u8>,
    rack1: Seq<u8>,
    a: Seq<PlacedTile>,
    b: Seq<PlacedTile>,
)
    requires
        same_placements(a, b),
        position_ok(layout, board, rack0, rack1, b),
    ensures
        position_ok(layout, board, rack0, rack1, a),
{
    reveal(position_ok);
    lemma_same_placements_valid(a, b);
    assert forall|sq: i16| #[trigger] count_sel(a, Selector::Square(sq)) > 0 implies {
        &&& count_sel(a, Selector::Square(sq)) == 1
        &&& 0 <= sq < board.len()
        &&& board[sq as int] == 0
    } by {
        assert(count_sel(a, Selector::Square(sq)) == count_sel(b, Selector::Square(sq)));
    }
    assert forall|tile: u8| #[trigger] spec_used(a, 0, tile) <= count_tile(rack0, tile) by {
        assert(count_sel(a, Selector::Owned(0x80, 0)) == count_sel(b, Selector::Owned(0x80, 0)));
        assert(count_sel(a, Selector::Owned(tile, 0)) == count_sel(b, Selector::Owned(tile, 0)));
        assert(spec_used(b, 0, tile) <= count_tile(rack0, tile));
    }
    assert forall|tile: u8| #[trigger] spec_used(a, 1, tile) <= count_tile(rack1, tile) by {
        assert(count_sel(a, Selector::Owned(0x80, 1)) == count_sel(b, Selector::Owned(0x80, 1)));
        assert(count_sel(a, Selector::Owned(tile, 1)) == count_sel(b, Selector::Owned(tile, 1)));
        assert(spec_used(b, 1, tile) <= count_tile(rack1, tile));
    }
}

/// If a list of placements can be made, so can its beginning.
pub proof fn lemma_position_ok_prefix(
    layout: BoardLayout,
    board: Seq<u8>,
    rack0: Seq<u8>,
    rack1: Seq<u8>,
    chain: Seq<PlacedTile>,
    n: int,
)
    requires
        position_ok(layout, board, rack0, rack1, chain),
        0 <= n <= chain.len(),
    ensures
        position_ok(layout, board, rack0, rack1, chain.take(n)),
{
    reveal(position_ok);
    let c = chain.take(n);
    assert forall|i: int| 0 <= i < c.len() implies (#[trigger] c[i]).tile != 0 && c[i].whose
        <= 1 by {
        assert(c[i] == chain[i]);
    }
    assert forall|sq: i16| #[trigger] count_sel(c, Selector::Square(sq)) > 0 implies {
        &&& count_sel(c, Selector::Square(sq)) == 1
        &&& 0 <= sq < board.len()
        &&& board[sq as int] == 0
    } by {
        lemma_count_take(chain, n, Selector::Square(sq));
    }
    assert forall|tile: u8| #[trigger] spec_used(c, 0, tile) <= count_tile(rack0, tile) by {
        lemma_count_take(chain, n, Selector::Owned(0x80, 0));
        lemma_count_take(chain, n, Selector::Owned(tile, 0));
        assert(spec_used(chain, 0, tile) <= count_tile(rack0, tile));
    }
    assert forall|tile: u8| #[trigger] spec_used(c, 1, tile) <= count_tile(rack1, tile) by {
        lemma_count_take(chain, n, Selector::Owned(0x80, 1));
        lemma_count_take(chain, n, Selector::Owned(tile, 1));
        assert(spec_used(chain, 1, tile) <= count_tile(rack1, tile));
    }
}

/// What lies on a square of a rebuilt board: the tile placed there, or what
/// the board held before if no tile was placed there.
pub(crate) proof fn lemma_board_after_at(board: Seq<u8>, chain: Seq<PlacedTile>, sq: int)
    requires
        valid_placements(chain),
        0 <= sq < board.len(),
        board.len() <= i16::MAX,
    ensures
        spec_board_after(board, chain).len() == board.len(),
        count_sel(chain, Selector::Square(sq as i16)) == 0 ==> spec_board_after(board, chain)[sq]
            == board[sq],
        count_sel(chain, Selector::Square(sq as i16)) > 0 ==> exists|i: int|
            0 <= i < chain.len() && (#[trigger] chain[i]).square == sq && spec_board_after(
                board,
                chain,
            )[sq] == chain[i].tile,
    decreases chain.len(),
{
    if chain.len() > 0 {
        let p = chain.last();
        let rest = chain.drop_last();
        assert(p == chain[chain.len() - 1]);
        assert forall|i: int| 0 <= i < rest.len() implies (#[trigger] rest[i]).tile != 0
            && rest[i].whose <= 1 by {
            assert(rest[i] == chain[i]);
        }
        let next = if 0 <= p.square < board.len() {
            board.update(p.square as int, p.tile)
        } else {
            board
        };
        lemma_board_after_at(next, rest, sq);
        if count_sel(rest, Selector::Square(sq as i16)) > 0 {
            let i = choose|i: int|
                0 <= i < rest.len() && (#[trigger] rest[i]).square == sq && spec_board_after(
                    next,
                    rest,
                )[sq] == rest[i].tile;
            assert(chain[i] == rest[i]);
        } else if p.square == sq {
            assert(spec_board_after(next, rest)[sq] == next[sq]);
        }
    }
}

/// Takes the last tile equal to `tile` from the rack, if the rack holds one.
pub fn take_tile(rack: &mut Vec<u8>, tile: u8) -> (found: bool)
    ensures
        final(rack)@ == spec_take_tile(old(rack)@, tile),
        found == old(rack)@.contains(tile),
{
    let mut i: usize = rack.len();
    while i > 0
        invariant
            i <= rack.len(),
            rack@ == old(rack)@,
            forall|k: int| i <= k < rack.len() ==> rack@[k] != tile,
        decreases i,
    {
        if rack[i - 1] == tile {
            proof {
                lemma_take_tile_at(rack@, tile, i - 1);
            }
            rack.remove(i - 1);
            return true;
        }
        i = i - 1;
    }
    proof {
        lemma_take_tile_absent(rack@, tile);
    }
    false
}

/// A position rebuilt: its board and the racks of the two players.
pub struct PlyBuffer {
    pub board_tiles: Vec<u8>,
    pub rack0: Vec<u8>,
    pub rack1: Vec<u8>,
}

impl PlyBuffer {
    /// The rack of a player.
    pub open spec fn spec_rack(&self, whose: u8) -> Seq<u8> {
        if whose == 0 {
            self.rack0@
        } else {
            self.rack1@
        }
    }

    /// The rack of a player.
    pub fn rack(&self, whose: u8) -> (r: &Vec<u8>)
        ensures
            r@ == self.spec_rack(whose),
    {
        if whose == 0 {
            &self.rack0
        } else {
            &self.rack1
        }
    }
}

/// Rebuilds the position of state `id` from the position at the start.
pub fn reconstruct(
    table: &StateTable,
    board_tiles: &Vec<u8>,
    rack0: &Vec<u8>,
    rack1: &Vec<u8>,
    id: usize,
) -> (r: PlyBuffer)
    requires
        table.wf(),
        id < table.states@.len(),
    ensures
        r.board_tiles@ == spec_board_after(board_tiles@, table.chain(id as int)),
        r.rack0@ == spec_rack_after(rack0@, table.chain(id as int), 0),
        r.rack1@ == spec_rack_after(rack1@, table.chain(id as int), 1),
{
    let mut board = crate::play::copy_bytes(board_tiles);
    let mut r0 = crate::play::copy_bytes(rack0);
    let mut r1 = crate::play::copy_bytes(rack1);
    let mut cur: usize = id;
    while cur != 0
        invariant
            table.wf(),
            cur < table.states@.len(),
            spec_board_after(board@, table.chain(cur as int)) == spec_board_after(
                board_tiles@,
                table.chain(id as int),
            ),
            spec_rack_after(r0@, table.chain(cur as int), 0) == spec_rack_after(
                rack0@,
                table.chain(id as int),
                0,
            ),
            spec_rack_after(r1@, table.chain(cur as int), 1) == spec_rack_after(
                rack1@,
                table.chain(id as int),
                1,
            ),
        decreases cur,
    {
        let state = table.states[cur];
        let p = state.placement;
        proof {
            assert(table.states@[cur as int].parent < cur);
            let c = table.chain(cur as int);
            assert(c == table.chain(state.parent as int).push(p));
            assert(c.drop_last() =~= table.chain(state.parent as int));
            assert(c.last() == p);
        }
        if p.square >= 0 && (p.square as usize) < board.len() {
            board.set(p.square as usize, p.tile);
        }
        if p.whose == 0 {
            take_tile(&mut r0, blanked(p.tile));
        }
        if p.whose == 1 {
            take_tile(&mut r1, blanked(p.tile));
        }
        cur = state.parent;
    }
    proof {
        assert(table.chain(0) =~= Seq::empty());
    }
    PlyBuffer { board_tiles: board, rack0: r0, rack1: r1 }
}


/// Two placements on one square make its count at least two.
pub(crate) proof fn lemma_count_two(s: Seq<PlacedTile>, i: int, j: int, sel: Selector)
    requires
        0 <= i < j < s.len(),
        crate::placement::selects(sel, s[i]),
        crate::placement::selects(sel, s[j]),
    ensures
        count_sel(s, sel) >= 2,
    decreases s.len(),
{
    if j == s.len() - 1 {
        lemma_count_positive(s.drop_last(), i, sel);
    } else {
        lemma_count_two(s.drop_last(), i, j, sel);
    }
}

/// Same placements, same position: two lists of the same placements that can
/// be made leave the same board and, tile by tile, the same racks. So the
/// position rebuilt from a canonical chain is the position that its
/// placements give in the order in which they were played (the list read
/// backwards is such a list too).
pub proof fn lemma_same_placements_same_position(
    layout: BoardLayout,
    board: Seq<u8>,
    rack0: Seq<u8>,
    rack1: Seq<u8>,
    a: Seq<PlacedTile>,
    b: Seq<PlacedTile>,
)
    requires
        same_placements(a, b),
        position_ok(layout, board, rack0, rack1, b),
        board.len() <= i16::MAX,
    ensures
        spec_board_after(board, a) == spec_board_after(board, b),
        forall|tile: u8|
            count_tile(#[trigger] spec_rack_after(rack0, a, 0), tile) == count_tile(
                spec_rack_after(rack0, b, 0),
                tile,
            ),
        forall|tile: u8|
            count_tile(#[trigger] spec_rack_after(rack1, a, 1), tile) == count_tile(
                spec_rack_after(rack1, b, 1),
                tile,
            ),
{
    reveal(position_ok);
    lemma_position_ok_same(layout, board, rack0, rack1, a, b);
    let ba = spec_board_after(board, a);
    let bb = spec_board_after(board, b);
    if board.len() > 0 {
        lemma_board_after_at(board, a, 0);
        lemma_board_after_at(board, b, 0);
    } else {
        lemma_board_after_empty(board, a);
        lemma_board_after_empty(board, b);
    }
    assert forall|sq: int| 0 <= sq < board.len() implies ba[sq] == bb[sq] by {
        lemma_board_after_at(board, a, sq);
        lemma_board_after_at(board, b, sq);
        let sel = Selector::Square(sq as i16);
        assert(count_sel(a, sel) == count_sel(b, sel));
        if count_sel(a, sel) > 0 {
            let i = choose|i: int|
                0 <= i < a.len() && (#[trigger] a[i]).square == sq && ba[sq] == a[i].tile;
            let j = choose|j: int|
                0 <= j < b.len() && (#[trigger] b[j]).square == sq && bb[sq] == b[j].tile;
            let placed = Selector::Placed(a[i].tile, sq as i16);
            lemma_count_positive(a, i, placed);
            assert(count_sel(a, placed) == count_sel(b, placed));
            let k = lemma_count_witness(b, placed);
            if k < j {
                lemma_count_two(b, k, j, sel);
            } else if j < k {
                lemma_count_two(b, j, k, sel);
            }
        }
    }
    assert(ba =~= bb);
    lemma_rack_after_counts(rack0, a, 0);
    lemma_rack_after_counts(rack0, b, 0);
    lemma_rack_after_counts(rack1, a, 1);
    lemma_rack_after_counts(rack1, b, 1);
    assert forall|tile: u8|
        count_tile(#[trigger] spec_rack_after(rack0, a, 0), tile) == count_tile(
            spec_rack_after(rack0, b, 0),
            tile,
        ) by {
        assert(count_sel(a, Selector::Owned(0x80, 0)) == count_sel(b, Selector::Owned(0x80, 0)));
        assert(count_sel(a, Selector::Owned(tile, 0)) == count_sel(b, Selector::Owned(tile, 0)));
        assert(count_tile(spec_rack_after(rack0, a, 0), tile) + spec_used(a, 0, tile)
            == count_tile(rack0, tile));
        assert(count_tile(spec_rack_after(rack0, b, 0), tile) + spec_used(b, 0, tile)
            == count_tile(rack0, tile));
    }
    assert forall|tile: u8|
        count_tile(#[trigger] spec_rack_after(rack1, a, 1), tile) == count_tile(
            spec_rack_after(rack1, b, 1),
            tile,
        ) by {
        assert(count_sel(a, Selector::Owned(0x80, 1)) == count_sel(b, Selector::Owned(0x80, 1)));
        assert(count_sel(a, Selector::Owned(tile, 1)) == count_sel(b, Selector::Owned(tile, 1)));
        assert(count_tile(spec_rack_after(rack1, a, 1), tile) + spec_used(a, 1, tile)
            == count_tile(rack1, tile));
        assert(count_tile(spec_rack_after(rack1, b, 1), tile) + spec_used(b, 1, tile)
            == count_tile(rack1, tile));
    }
}

/// Placing tiles keeps the number of squares.
pub(crate) proof fn lemma_board_after_len(board: Seq<u8>, chain: Seq<PlacedTile>)
    ensures
        spec_board_after(board, chain).len() == board.len(),
    decreases chain.len(),
{
    if chain.len() > 0 {
        let p = chain.last();
        let next = if 0 <= p.square < board.len() {
            board.update(p.square as int, p.tile)
        } else {
            board
        };
        lemma_board_after_len(next, chain.drop_last());
    }
}

/// A board without squares stays as it is.
pub(crate) proof fn lemma_board_after_empty(board: Seq<u8>, chain: Seq<PlacedTile>)
    requires
        board.len() == 0,
    ensures
        spec_board_after(board, chain) == board,
    decreases chain.len(),
{
    if chain.len() > 0 {
        lemma_board_after_empty(board, chain.drop_last());
    }
}

/// Player `whose` can make the play on this board with this rack: an exchange
/// always; a placement if its word lies on the board, puts down at least one
/// tile, each on an empty square, and takes its tiles from the rack.
pub open spec fn spec_play_fits(
    layout: BoardLayout,
    board: Seq<u8>,
    rack: Seq<u8>,
    play: PlayView,
    whose: u8,
) -> bool {
    match play {
        PlayView::Exchange { .. } => true,
        PlayView::Place { .. } => {
            let ps = spec_play_placements(layout, play, whose);
            &&& spec_in_bounds(layout, play)
            &&& ps.len() >= 1
            &&& forall|i: int|
                0 <= i < ps.len() ==> 0 <= (#[trigger] ps[i]).square < board.len() && board[ps[i].square as int]
                    == 0
            &&& forall|tile: u8| #[trigger] spec_used(ps, whose, tile) <= count_tile(rack, tile)
        },
    }
}

/// Whether player `whose` can make the play on this board with this rack.
pub fn play_fits(layout: &BoardLayout, board: &Vec<u8>, rack: &Vec<u8>, play: &Play, whose: u8) -> (r:
    bool)
    requires
        layout.wf(),
    ensures
        r == spec_play_fits(*layout, board@, rack@, play@, whose),
{
    if play.is_exchange() {
        return true;
    }
    if !play.in_bounds(layout) {
        return false;
    }
    let ps = play.placements(layout, whose);
    if ps.len() == 0 {
        return false;
    }
    let mut left = crate::play::copy_bytes(rack);
    let mut i: usize = 0;
    while i < ps.len()
        invariant
            i <= ps.len(),
            ps@ == spec_play_placements(*layout, play@, whose),
            play@ is Place,
            layout.wf(),
            spec_in_bounds(*layout, play@),
            forall|k: int|
                0 <= k < i ==> 0 <= (#[trigger] ps@[k]).square < board@.len() && board@[ps@[k].square as int]
                    == 0,
            forall|tile: u8| #[trigger]
                count_tile(left@, tile) + spec_used(ps@.take(i as int), whose, tile) == count_tile(
                    rack@,
                    tile,
                ),
        decreases ps.len() - i,
    {
        let p = ps[i];
        proof {
            lemma_play_placement_facts(*layout, play@, whose, i as int);
        }
        if p.square < 0 || (p.square as usize) >= board.len() || board[p.square as usize] != 0 {
            return false;
        }
        let ghost before = left@;
        let found = take_tile(&mut left, blanked(p.tile));
        proof {
            let t0 = spec_blanked(p.tile);
            assert(ps@.take(i + 1) =~= ps@.take(i as int).push(p));
            lemma_count_tile_bounds(before, t0);
            if !found {
                lemma_used_push(ps@.take(i as int), p, whose, t0);
                lemma_count_take(ps@, i + 1, Selector::Owned(0x80, whose));
                lemma_count_take(ps@, i + 1, Selector::Owned(t0, whose));
                assert(count_tile(before, t0) + spec_used(ps@.take(i as int), whose, t0)
                    == count_tile(rack@, t0));
                assert(spec_used(ps@, whose, t0) > count_tile(rack@, t0));
            } else {
                assert forall|tile: u8| #[trigger]
                    count_tile(left@, tile) + spec_used(ps@.take(i + 1), whose, tile)
                        == count_tile(rack@, tile) by {
                    lemma_used_push(ps@.take(i as int), p, whose, tile);
                    lemma_take_tile_counts(before, t0, tile);
                    assert(count_tile(before, tile) + spec_used(ps@.take(i as int), whose, tile)
                        == count_tile(rack@, tile));
                }
            }
        }
        if !found {
            return false;
        }
        i = i + 1;
    }
    proof {
        assert(ps@.take(i as int) =~= ps@);
        assert forall|tile: u8| #[trigger] spec_used(ps@, whose, tile) <= count_tile(
            rack@,
            tile,
        ) by {
            assert(count_tile(left@, tile) + spec_used(ps@, whose, tile) == count_tile(
                rack@,
                tile,
            ));
        }
    }
    true
}

/// Each placement of a play in bounds is a real tile of the mover on a
/// square of the board.
pub(crate) proof fn lemma_play_placement_facts(layout: BoardLayout, play: PlayView, whose: u8, i: int)
    requires
        layout.wf(),
        spec_in_bounds(layout, play),
        0 <= i < spec_play_placements(layout, play, whose).len(),
    ensures
        spec_play_placements(layout, play, whose)[i].tile != 0,
        spec_play_placements(layout, play, whose)[i].whose == whose,
        0 <= spec_play_placements(layout, play, whose)[i].square < layout.spec_size(),
{
    match play {
        PlayView::Exchange { .. } => {},
        PlayView::Place { down, lane, idx, word, .. } => {
            let k = lemma_word_placements_elements(
                layout,
                down,
                lane as int,
                idx as int,
                word,
                whose,
                i,
            );
            layout.lemma_size_bounds();
        },
    }
}

/// The tiles of a word go on squares that differ from each other.
pub(crate) proof fn lemma_word_squares_distinct(
    layout: BoardLayout,
    down: bool,
    lane: int,
    idx: int,
    word: Seq<u8>,
    whose: u8,
    sq: i16,
)
    requires
        layout.wf(),
        0 <= lane < layout.spec_num_lanes(down),
        0 <= idx,
        idx + word.len() <= layout.spec_lane_len(down),
    ensures
        count_sel(spec_word_placements(layout, down, lane, idx, word, whose), Selector::Square(sq))
            <= 1,
    decreases word.len(),
{
    if word.len() > 0 {
        let rest = spec_word_placements(layout, down, lane, idx, word.drop_last(), whose);
        lemma_word_squares_distinct(layout, down, lane, idx, word.drop_last(), whose, sq);
        if word.last() != 0 {
            let k = word.len() - 1;
            let p = PlacedTile {
                tile: word.last(),
                whose,
                square: layout.spec_at(down, lane, idx + k) as i16,
            };
            lemma_count_push(rest, p, Selector::Square(sq));
            layout.lemma_at_in_range(down, lane, idx + k);
            layout.lemma_size_bounds();
            if p.square == sq && count_sel(rest, Selector::Square(sq)) > 0 {
                let i = lemma_count_witness(rest, Selector::Square(sq));
                let k2 = lemma_word_placements_elements(
                    layout,
                    down,
                    lane,
                    idx,
                    word.drop_last(),
                    whose,
                    i,
                );
                layout.lemma_at_injective(down, lane, idx + k, lane, idx + k2);
            }
        }
    }
}

/// A play that fits a position leads to a position: the placements of the
/// position and those of the play can be made on the position at the start.
pub proof fn lemma_play_extends_position(
    layout: BoardLayout,
    board: Seq<u8>,
    rack0: Seq<u8>,
    rack1: Seq<u8>,
    chain: Seq<PlacedTile>,
    play: PlayView,
    whose: u8,
)
    requires
        layout.wf(),
        board.len() == layout.spec_size(),
        whose <= 1,
        position_ok(layout, board, rack0, rack1, chain),
        spec_play_fits(
            layout,
            spec_board_after(board, chain),
            spec_rack_after(
                if whose == 0 {
                    rack0
                } else {
                    rack1
                },
                chain,
                whose,
            ),
            play,
            whose,
        ),
    ensures
        position_ok(layout, board, rack0, rack1, chain + spec_play_placements(layout, play, whose)),
        valid_placements(spec_play_placements(layout, play, whose)),
{
    reveal(position_ok);
    let ps = spec_play_placements(layout, play, whose);
    let all = chain + ps;
    let rack = if whose == 0 {
        rack0
    } else {
        rack1
    };
    layout.lemma_size_bounds();
    match play {
        PlayView::Exchange { .. } => {
            assert(all =~= chain);
        },
        PlayView::Place { down, lane, idx, word, .. } => {
            assert forall|i: int| 0 <= i < ps.len() implies (#[trigger] ps[i]).tile != 0
                && ps[i].whose <= 1 && ps[i].whose == whose by {
                lemma_play_placement_facts(layout, play, whose, i);
            }
            assert forall|i: int| 0 <= i < all.len() implies (#[trigger] all[i]).tile != 0
                && all[i].whose <= 1 by {
                if i < chain.len() {
                    assert(all[i] == chain[i]);
                } else {
                    assert(all[i] == ps[i - chain.len()]);
                }
            }
            let after = spec_board_after(board, chain);
            assert forall|sq: i16| #[trigger] count_sel(all, Selector::Square(sq)) > 0 implies {
                &&& count_sel(all, Selector::Square(sq)) == 1
                &&& 0 <= sq < board.len()
                &&& board[sq as int] == 0
            } by {
                let sel = Selector::Square(sq);
                lemma_count_concat(chain, ps, sel);
                if count_sel(ps, sel) > 0 {
                    let i = lemma_count_witness(ps, sel);
                    lemma_play_placement_facts(layout, play, whose, i);
                    lemma_board_after_at(board, chain, sq as int);
                    assert(after[sq as int] == 0);
                    lemma_word_squares_distinct(
                        layout,
                        down,
                        lane as int,
                        idx as int,
                        word,
                        whose,
                        sq,
                    );
                    if count_sel(chain, sel) > 0 {
                        let j = choose|j: int|
                            0 <= j < chain.len() && (#[trigger] chain[j]).square == sq
                                && after[sq as int] == chain[j].tile;
                        assert(chain[j].tile != 0);
                    }
                }
            }
            lemma_rack_after_counts(rack, chain, whose);
            assert forall|tile: u8| #[trigger] spec_used(all, 0, tile) <= count_tile(
                rack0,
                tile,
            ) by {
                lemma_used_concat(chain, ps, 0, tile);
                if whose != 0 {
                    lemma_used_other(ps, whose, 0, tile);
                }
                assert(spec_used(chain, 0, tile) <= count_tile(rack0, tile));
                assert(spec_used(ps, whose, tile) <= count_tile(
                    spec_rack_after(rack, chain, whose),
                    tile,
                ));
                assert(count_tile(spec_rack_after(rack, chain, whose), tile) + spec_used(
                    chain,
                    whose,
                    tile,
                ) == count_tile(rack, tile));
            }
            assert forall|tile: u8| #[trigger] spec_used(all, 1, tile) <= count_tile(
                rack1,
                tile,
            ) by {
                lemma_used_concat(chain, ps, 1, tile);
                if whose != 1 {
                    lemma_used_other(ps, whose, 1, tile);
                }
                assert(spec_used(chain, 1, tile) <= count_tile(rack1, tile));
                assert(spec_used(ps, whose, tile) <= count_tile(
                    spec_rack_after(rack, chain, whose),
                    tile,
                ));
                assert(count_tile(spec_rack_after(rack, chain, whose), tile) + spec_used(
                    chain,
                    whose,
                    tile,
                ) == count_tile(rack, tile));
            }
        },
    }
}

/// What a player has used adds up over concatenation.
pub(crate) proof fn lemma_used_concat(a: Seq<PlacedTile>, b: Seq<PlacedTile>, whose: u8, tile: u8)
    ensures
        spec_used(a + b, whose, tile) == spec_used(a, whose, tile) + spec_used(b, whose, tile),
{
    lemma_count_concat(a, b, Selector::Owned(0x80, whose));
    lemma_count_concat(a, b, Selector::Owned(tile, whose));
}

/// Placements that are all by one player use no tile of the other.
pub(crate) proof fn lemma_used_other(ps: Seq<PlacedTile>, whose: u8, other: u8, tile: u8)
    requires
        forall|i: int| 0 <= i < ps.len() ==> (#[trigger] ps[i]).whose == whose,
        other != whose,
    ensures
        spec_used(ps, other, tile) == 0,
{
    if count_sel(ps, Selector::Owned(0x80, other)) > 0 {
        let i = lemma_count_witness(ps, Selector::Owned(0x80, other));
    }
    if count_sel(ps, Selector::Owned(tile, other)) > 0 {
        let i = lemma_count_witness(ps, Selector::Owned(tile, other));
    }
}

} // verus!
