//! Move ordering: what a candidate play is worth before any search, judged
//! by its score and by the best reply that it does not block.

use crate::blocking::Nearest;
use crate::children::{spec_child_key, ChildPlay};
use crate::game_config::BoardLayout;
use crate::play::{spec_in_bounds, spec_move_score, spec_tiles_placed, Play, PlayView};
use vstd::prelude::*;

verus! {

/// The square on which a play puts the tile at position `k` of its word, if
/// it puts one there.
pub open spec fn spec_word_square(layout: BoardLayout, play: PlayView, k: int) -> Option<int> {
    match play {
        PlayView::Exchange { .. } => None,
        PlayView::Place { down, lane, idx, word, .. } => if 0 <= k < word.len() && word[k] != 0 {
            Some(layout.spec_at(down, lane as int, idx + k))
        } else {
            None
        },
    }
}

/// Square `sq` is the square `t` or one of its nearest empty squares.
pub open spec fn spec_square_touches(map: Seq<Nearest>, t: int, sq: int) -> bool {
    sq == t || (0 <= t < map.len() && (sq == map[t].left || sq == map[t].right || sq == map[t].up
        || sq == map[t].down))
}

/// Square `sq` is affected by the play: it is one of the squares that the
/// play fills, or one of their nearest empty squares.
pub open spec fn spec_touches(layout: BoardLayout, map: Seq<Nearest>, play: PlayView, sq: int) -> bool {
    exists|k: int|
        (#[trigger] spec_word_square(layout, play, k)) is Some && spec_square_touches(
            map,
            spec_word_square(layout, play, k).unwrap(),
            sq,
        )
}

/// The play `theirs` needs a square that the play `mine` affects.
pub open spec fn spec_collide(
    layout: BoardLayout,
    map: Seq<Nearest>,
    mine: PlayView,
    theirs: PlayView,
) -> bool {
    exists|j: int|
        (#[trigger] spec_word_square(layout, theirs, j)) is Some && spec_touches(
            layout,
            map,
            mine,
            spec_word_square(layout, theirs, j).unwrap(),
        )
}

/// The score of the first placement among the replies `opp` that `mine` does
/// not block, or 0 if it blocks them all. Exchanges among the replies are
/// passed over.
pub open spec fn spec_best_unblocked(
    layout: BoardLayout,
    map: Seq<Nearest>,
    plays: Seq<Play>,
    mine: PlayView,
    opp: Seq<ChildPlay>,
) -> i16
    decreases opp.len(),
{
    if opp.len() == 0 {
        0
    } else {
        let first = opp[0];
        if first.play_idx < plays.len() && plays[first.play_idx as int]@ is Place && !spec_collide(
            layout,
            map,
            mine,
            plays[first.play_idx as int]@,
        ) {
            spec_move_score(plays[first.play_idx as int]@)
        } else {
            spec_best_unblocked(layout, map, plays, mine, opp.drop_first())
        }
    }
}

/// Whether the play empties a rack of `rack_len` tiles.
pub open spec fn spec_plays_out(play: PlayView, rack_len: int) -> bool {
    match play {
        PlayView::Exchange { .. } => false,
        PlayView::Place { word, .. } => spec_tiles_placed(word) == rack_len,
    }
}

/// The static valuation of a candidate play, before any search. To exchange
/// or pass hands the opponent the best of the replies `opp`, which stand in
/// descending order of score. To play out earns the play's score and twice
/// the opponent's rack. Any other placement earns its score less the best
/// reply that it does not block.
pub open spec fn spec_valuation(
    layout: BoardLayout,
    map: Seq<Nearest>,
    plays: Seq<Play>,
    mine: PlayView,
    rack_len: int,
    opp_rack_score: int,
    opp: Seq<ChildPlay>,
) -> int {
    match mine {
        PlayView::Exchange { .. } => if opp.len() > 0 {
            -spec_child_key(plays, opp[0], true)
        } else {
            0
        },
        PlayView::Place { score, .. } => if spec_plays_out(mine, rack_len) {
            score + 2 * opp_rack_score
        } else {
            score - spec_best_unblocked(layout, map, plays, mine, opp)
        },
    }
}

/// The best reply that is not blocked depends on the replies' plays alone.
pub(crate) proof fn lemma_best_unblocked_same_plays(
    layout: BoardLayout,
    map: Seq<Nearest>,
    plays: Seq<Play>,
    mine: PlayView,
    opp1: Seq<ChildPlay>,
    opp2: Seq<ChildPlay>,
)
    requires
        opp1.len() == opp2.len(),
        forall|k: int| 0 <= k < opp1.len() ==> (#[trigger] opp1[k]).play_idx == opp2[k].play_idx,
    ensures
        spec_best_unblocked(layout, map, plays, mine, opp1) == spec_best_unblocked(
            layout,
            map,
            plays,
            mine,
            opp2,
        ),
    decreases opp1.len(),
{
    if opp1.len() > 0 {
        assert(opp1[0].play_idx == opp2[0].play_idx);
        assert forall|k: int| 0 <= k < opp1.drop_first().len() implies (
        #[trigger] opp1.drop_first()[k]).play_idx == opp2.drop_first()[k].play_idx by {
            assert(opp1[k + 1].play_idx == opp2[k + 1].play_idx);
        }
        lemma_best_unblocked_same_plays(
            layout,
            map,
            plays,
            mine,
            opp1.drop_first(),
            opp2.drop_first(),
        );
    }
}

/// The static valuation of a play depends on the replies' plays alone, not
/// on what the replies are worth.
pub(crate) proof fn lemma_valuation_same_plays(
    layout: BoardLayout,
    map: Seq<Nearest>,
    plays: Seq<Play>,
    mine: PlayView,
    rack_len: int,
    opp_rack_score: int,
    opp1: Seq<ChildPlay>,
    opp2: Seq<ChildPlay>,
)
    requires
        opp1.len() == opp2.len(),
        forall|k: int| 0 <= k < opp1.len() ==> (#[trigger] opp1[k]).play_idx == opp2[k].play_idx,
    ensures
        spec_valuation(layout, map, plays, mine, rack_len, opp_rack_score, opp1) == spec_valuation(
            layout,
            map,
            plays,
            mine,
            rack_len,
            opp_rack_score,
            opp2,
        ),
{
    lemma_best_unblocked_same_plays(layout, map, plays, mine, opp1, opp2);
    if opp1.len() > 0 {
        assert(opp1[0].play_idx == opp2[0].play_idx);
    }
}

/// The square of position `k` of a play's word, if the play fills it.
pub fn word_square(layout: &BoardLayout, play: &Play, k: usize) -> (r: Option<usize>)
    requires
        layout.wf(),
        spec_in_bounds(*layout, play@),
    ensures
        match r {
            Some(sq) => spec_word_square(*layout, play@, k as int) == Some(sq as int) && sq
                < layout.spec_size(),
            None => spec_word_square(*layout, play@, k as int) is None,
        },
{
    match play {
        Play::Exchange { .. } => None,
        Play::Place { down, lane, idx, word, .. } => {
            if k < word.len() && word[k] != 0 {
                let pos: i8 = *idx + (k as i8);
                Some(layout.at(*down, *lane, pos))
            } else {
                None
            }
        },
    }
}

/// Number of positions of a play's word.
pub fn word_len(play: &Play) -> (r: usize)
    ensures
        r == match play@ {
            PlayView::Exchange { .. } => 0,
            PlayView::Place { word, .. } => word.len(),
        },
{
    match play {
        Play::Exchange { .. } => 0,
        Play::Place { word, .. } => word.len(),
    }
}

/// Whether the play affects the square.
pub fn touches(layout: &BoardLayout, map: &Vec<Nearest>, play: &Play, sq: usize) -> (r: bool)
    requires
        layout.wf(),
        spec_in_bounds(*layout, play@),
        map@.len() == layout.spec_size(),
        sq < layout.spec_size(),
    ensures
        r == spec_touches(*layout, map@, play@, sq as int),
{
    proof {
        layout.lemma_size_bounds();
    }
    let n = word_len(play);
    let mut k: usize = 0;
    while k < n
        invariant
            layout.wf(),
            spec_in_bounds(*layout, play@),
            map@.len() == layout.spec_size() <= 16129,
            sq < layout.spec_size(),
            k <= n,
            n == match play@ {
                PlayView::Exchange { .. } => 0,
                PlayView::Place { word, .. } => word.len(),
            },
            forall|i: int|
                0 <= i < k ==> !((#[trigger] spec_word_square(*layout, play@, i)) is Some
                    && spec_square_touches(
                    map@,
                    spec_word_square(*layout, play@, i).unwrap(),
                    sq as int,
                )),
        decreases n - k,
    {
        match word_square(layout, play, k) {
            Some(t) => {
                let e = map[t];
                if sq == t || (e.left >= 0 && e.left as usize == sq) || (e.right >= 0
                    && e.right as usize == sq) || (e.up >= 0 && e.up as usize == sq) || (e.down
                    >= 0 && e.down as usize == sq) {
                    proof {
                        assert(spec_word_square(*layout, play@, k as int) is Some);
                    }
                    return true;
                }
            },
            None => {},
        }
        k = k + 1;
    }
    proof {
        assert forall|i: int|
            !((#[trigger] spec_word_square(*layout, play@, i)) is Some && spec_square_touches(
                map@,
                spec_word_square(*layout, play@, i).unwrap(),
                sq as int,
            )) by {
            if 0 <= i < n {
            }
        }
    }
    false
}

/// Whether `theirs` needs a square that `mine` affects.
pub fn collide(layout: &BoardLayout, map: &Vec<Nearest>, mine: &Play, theirs: &Play) -> (r: bool)
    requires
        layout.wf(),
        spec_in_bounds(*layout, mine@),
        spec_in_bounds(*layout, theirs@),
        map@.len() == layout.spec_size(),
    ensures
        r == spec_collide(*layout, map@, mine@, theirs@),
{
    let n = word_len(theirs);
    let mut j: usize = 0;
    while j < n
        invariant
            layout.wf(),
            spec_in_bounds(*layout, mine@),
            spec_in_bounds(*layout, theirs@),
            map@.len() == layout.spec_size(),
            j <= n,
            n == match theirs@ {
                PlayView::Exchange { .. } => 0,
                PlayView::Place { word, .. } => word.len(),
            },
            forall|i: int|
                0 <= i < j ==> !((#[trigger] spec_word_square(*layout, theirs@, i)) is Some
                    && spec_touches(
                    *layout,
                    map@,
                    mine@,
                    spec_word_square(*layout, theirs@, i).unwrap(),
                )),
        decreases n - j,
    {
        match word_square(layout, theirs, j) {
            Some(sq) => {
                if touches(layout, map, mine, sq) {
                    proof {
                        assert(spec_word_square(*layout, theirs@, j as int) is Some);
                    }
                    return true;
                }
            },
            None => {},
        }
        j = j + 1;
    }
    proof {
        assert forall|i: int|
            !((#[trigger] spec_word_square(*layout, theirs@, i)) is Some && spec_touches(
                *layout,
                map@,
                mine@,
                spec_word_square(*layout, theirs@, i).unwrap(),
            )) by {
            if 0 <= i < n {
            }
        }
    }
    false
}

/// The score of the first placement among the replies from `lo` up to `hi`
/// that `mine` does not block, or 0.
pub fn best_unblocked_score(
    layout: &BoardLayout,
    map: &Vec<Nearest>,
    plays: &Vec<Play>,
    mine: &Play,
    children: &Vec<ChildPlay>,
    lo: usize,
    hi: usize,
) -> (r: i16)
    requires
        layout.wf(),
        map@.len() == layout.spec_size(),
        spec_in_bounds(*layout, mine@),
        lo <= hi <= children@.len(),
        forall|i: int|
            lo <= i < hi ==> (#[trigger] children@[i]).play_idx < plays@.len() && spec_in_bounds(
                *layout,
                plays@[children@[i].play_idx as int]@,
            ),
    ensures
        r == spec_best_unblocked(
            *layout,
            map@,
            plays@,
            mine@,
            children@.subrange(lo as int, hi as int),
        ),
{
    let mut i: usize = lo;
    while i < hi
        invariant
            layout.wf(),
            map@.len() == layout.spec_size(),
            spec_in_bounds(*layout, mine@),
            lo <= i <= hi <= children@.len(),
            forall|k: int|
                lo <= k < hi ==> (#[trigger] children@[k]).play_idx < plays@.len()
                    && spec_in_bounds(*layout, plays@[children@[k].play_idx as int]@),
            spec_best_unblocked(
                *layout,
                map@,
                plays@,
                mine@,
                children@.subrange(lo as int, hi as int),
            ) == spec_best_unblocked(
                *layout,
                map@,
                plays@,
                mine@,
                children@.subrange(i as int, hi as int),
            ),
        decreases hi - i,
    {
        let reply = &plays[children[i].play_idx];
        proof {
            let rest = children@.subrange(i as int, hi as int);
            assert(rest[0] == children@[i as int]);
            assert(rest.drop_first() =~= children@.subrange(i + 1, hi as int));
        }
        if !reply.is_exchange() && !collide(layout, map, mine, reply) {
            return crate::play::move_score(reply);
        }
        i = i + 1;
    }
    0
}

} // verus!
