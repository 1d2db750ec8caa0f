//! The blocking map: for every square, the nearest empty squares along its
//! row and its column. A play touches what another play needs if they share
//! one of these squares; move ordering uses this as a cheap test.

use crate::game_config::BoardLayout;
use vstd::prelude::*;

verus! {

/// The nearest empty squares of a square, by direction.
#[derive(Clone, Copy, PartialEq, Eq, Structural, Debug)]
pub struct Nearest {
    pub left: i16,
    pub right: i16,
    pub up: i16,
    pub down: i16,
}

/// The nearest empty square of lane `lane`, from position `i` on: towards the
/// end of the lane if `forward`, else towards its start. An empty square is
/// its own nearest empty square. Where there is none in that direction, it is
/// the last square of the lane that way.
pub open spec fn spec_nearest_empty(
    layout: BoardLayout,
    board: Seq<u8>,
    down: bool,
    lane: int,
    i: int,
    forward: bool,
) -> int
    decreases
            (if forward {
                layout.spec_lane_len(down) - i
            } else {
                i
            }),
{
    let here = layout.spec_at(down, lane, i);
    if 0 <= here < board.len() && board[here] == 0 {
        here
    } else if forward {
        if 0 <= i && i + 1 < layout.spec_lane_len(down) {
            spec_nearest_empty(layout, board, down, lane, i + 1, forward)
        } else {
            here
        }
    } else {
        if 0 < i {
            spec_nearest_empty(layout, board, down, lane, i - 1, forward)
        } else {
            here
        }
    }
}

/// One of the four entries of a square.
pub open spec fn spec_entry(n: Nearest, down: bool, forward: bool) -> i16 {
    if down {
        if forward {
            n.down
        } else {
            n.up
        }
    } else {
        if forward {
            n.right
        } else {
            n.left
        }
    }
}

/// The nearest empty square stays in the lane.
pub proof fn lemma_nearest_in_lane(
    layout: BoardLayout,
    board: Seq<u8>,
    down: bool,
    lane: int,
    i: int,
    forward: bool,
) -> (k: int)
    requires
        layout.wf(),
        layout.in_lane(down, lane, i),
    ensures
        layout.in_lane(down, lane, k),
        spec_nearest_empty(layout, board, down, lane, i, forward) == layout.spec_at(down, lane, k),
        0 <= spec_nearest_empty(layout, board, down, lane, i, forward) < layout.spec_size(),
    decreases
            (if forward {
                layout.spec_lane_len(down) - i
            } else {
                i
            }),
{
    let here = layout.spec_at(down, lane, i);
    layout.lemma_at_in_range(down, lane, i);
    if 0 <= here < board.len() && board[here] == 0 {
        i
    } else if forward {
        if i + 1 < layout.spec_lane_len(down) {
            lemma_nearest_in_lane(layout, board, down, lane, i + 1, forward)
        } else {
            i
        }
    } else {
        if 0 < i {
            lemma_nearest_in_lane(layout, board, down, lane, i - 1, forward)
        } else {
            i
        }
    }
}

/// The blocking map of a board: the entry of the square in row `row` and
/// column `col` holds the nearest empty squares of its row and of its column.
pub open spec fn is_blocking_map(layout: BoardLayout, board: Seq<u8>, map: Seq<Nearest>) -> bool {
    &&& map.len() == layout.spec_size()
    &&& forall|row: int, col: int|
        0 <= row < layout.rows && 0 <= col < layout.cols ==> {
            let n = #[trigger] map[layout.spec_at(false, row, col)];
            &&& n.left == spec_nearest_empty(layout, board, false, row, col, false)
            &&& n.right == spec_nearest_empty(layout, board, false, row, col, true)
            &&& n.up == spec_nearest_empty(layout, board, true, col, row, false)
            &&& n.down == spec_nearest_empty(layout, board, true, col, row, true)
        }
}

/// The blocking map of a board, square by square.
pub open spec fn spec_blocking_map(layout: BoardLayout, board: Seq<u8>) -> Seq<Nearest> {
    Seq::new(
        layout.spec_size() as nat,
        |sq: int|
            {
                let row = sq / (layout.cols as int);
                let col = sq % (layout.cols as int);
                Nearest {
                    left: spec_nearest_empty(layout, board, false, row, col, false) as i16,
                    right: spec_nearest_empty(layout, board, false, row, col, true) as i16,
                    up: spec_nearest_empty(layout, board, true, col, row, false) as i16,
                    down: spec_nearest_empty(layout, board, true, col, row, true) as i16,
                }
            },
    )
}

/// Every square lies in one row and one column.
pub(crate) proof fn lemma_square_row_col(layout: BoardLayout, sq: int)
    requires
        layout.wf(),
        0 <= sq < layout.spec_size(),
    ensures
        0 <= sq / (layout.cols as int) < layout.rows,
        0 <= sq % (layout.cols as int) < layout.cols,
        layout.spec_at(false, sq / (layout.cols as int), sq % (layout.cols as int)) == sq,
{
    let c = layout.cols as int;
    let r = layout.rows as int;
    vstd::arithmetic::div_mod::lemma_fundamental_div_mod(sq, c);
    vstd::arithmetic::div_mod::lemma_mod_bound(sq, c);
    vstd::arithmetic::div_mod::lemma_div_pos_is_pos(sq, c);
    assert(sq / c < r) by (nonlinear_arith)
        requires
            0 <= sq < r * c,
            0 < c,
            sq == c * (sq / c) + sq % c,
            0 <= sq % c < c,
    ;
    assert(c * (sq / c) == (sq / c) * c) by (nonlinear_arith);
}

/// A board has one blocking map.
pub proof fn lemma_blocking_map_unique(layout: BoardLayout, board: Seq<u8>, map: Seq<Nearest>)
    requires
        layout.wf(),
        is_blocking_map(layout, board, map),
    ensures
        map == spec_blocking_map(layout, board),
{
    let expected = spec_blocking_map(layout, board);
    assert forall|sq: int| 0 <= sq < map.len() implies map[sq] == expected[sq] by {
        lemma_square_row_col(layout, sq);
        let row = sq / (layout.cols as int);
        let col = sq % (layout.cols as int);
        let n = map[layout.spec_at(false, row, col)];
        assert(n.left == spec_nearest_empty(layout, board, false, row, col, false));
        assert(n.right == spec_nearest_empty(layout, board, false, row, col, true));
        assert(n.up == spec_nearest_empty(layout, board, true, col, row, false));
        assert(n.down == spec_nearest_empty(layout, board, true, col, row, true));
    }
    assert(map =~= expected);
}

/// The entry with one of its four squares replaced.
fn with_entry(n: Nearest, down: bool, forward: bool, value: i16) -> (r: Nearest)
    ensures
        spec_entry(r, down, forward) == value,
        forall|d: bool, f: bool| d != down || f != forward ==> spec_entry(r, d, f) == spec_entry(n, d, f),
{
    if down {
        if forward {
            Nearest { left: n.left, right: n.right, up: n.up, down: value }
        } else {
            Nearest { left: n.left, right: n.right, up: value, down: n.down }
        }
    } else {
        if forward {
            Nearest { left: n.left, right: value, up: n.up, down: n.down }
        } else {
            Nearest { left: value, right: n.right, up: n.up, down: n.down }
        }
    }
}

/// Fills in one direction of the map, lane by lane.
fn fill_direction(
    layout: &BoardLayout,
    board: &Vec<u8>,
    map: &mut Vec<Nearest>,
    down: bool,
    forward: bool,
)
    requires
        layout.wf(),
        board@.len() == layout.spec_size(),
        old(map)@.len() == layout.spec_size(),
    ensures
        final(map)@.len() == layout.spec_size(),
        forall|lane: int, i: int|
            layout.in_lane(down, lane, i) ==> spec_entry(
                #[trigger] final(map)@[layout.spec_at(down, lane, i)],
                down,
                forward,
            ) == spec_nearest_empty(*layout, board@, down, lane, i, forward),
        forall|sq: int, d: bool, f: bool|
            0 <= sq < old(map)@.len() && (d != down || f != forward) ==> #[trigger] spec_entry(
                final(map)@[sq],
                d,
                f,
            ) == spec_entry(old(map)@[sq], d, f),
{
    let lanes: i8 = if down {
        layout.cols
    } else {
        layout.rows
    };
    let len: i8 = if down {
        layout.rows
    } else {
        layout.cols
    };
    let mut lane: i8 = 0;
    while lane < lanes
        invariant
            layout.wf(),
            board@.len() == layout.spec_size(),
            map@.len() == layout.spec_size(),
            lanes == layout.spec_num_lanes(down),
            len == layout.spec_lane_len(down),
            0 <= lane <= lanes,
            forall|l: int, i: int|
                0 <= l < lane && 0 <= i < len ==> spec_entry(
                    #[trigger] map@[layout.spec_at(down, l, i)],
                    down,
                    forward,
                ) == spec_nearest_empty(*layout, board@, down, l, i, forward),
            forall|sq: int, d: bool, f: bool|
                0 <= sq < map@.len() && (d != down || f != forward) ==> #[trigger] spec_entry(
                    map@[sq],
                    d,
                    f,
                ) == spec_entry(old(map)@[sq], d, f),
        decreases lanes - lane,
    {
        let mut k: i8 = 0;
        let mut last: usize = 0;
        proof {
            layout.lemma_size_bounds();
        }
        while k < len
            invariant
                layout.wf(),
                board@.len() == layout.spec_size(),
                map@.len() == layout.spec_size(),
                lanes == layout.spec_num_lanes(down),
                len == layout.spec_lane_len(down),
                0 <= lane < lanes,
                0 <= k <= len,
                last < layout.spec_size() <= 16129,
                k > 0 ==> last == spec_nearest_empty(
                    *layout,
                    board@,
                    down,
                    lane as int,
                    if forward {
                        len - k
                    } else {
                        k - 1
                    },
                    forward,
                ),
                forall|l: int, i: int|
                    0 <= l < lane && 0 <= i < len ==> spec_entry(
                        #[trigger] map@[layout.spec_at(down, l, i)],
                        down,
                        forward,
                    ) == spec_nearest_empty(*layout, board@, down, l, i, forward),
                forall|i: int|
                    0 <= i < len && (if forward {
                        i >= len - k
                    } else {
                        i < k
                    }) ==> spec_entry(
                        #[trigger] map@[layout.spec_at(down, lane as int, i)],
                        down,
                        forward,
                    ) == spec_nearest_empty(*layout, board@, down, lane as int, i, forward),
                forall|sq: int, d: bool, f: bool|
                    0 <= sq < map@.len() && (d != down || f != forward) ==> #[trigger] spec_entry(
                        map@[sq],
                        d,
                        f,
                    ) == spec_entry(old(map)@[sq], d, f),
            decreases len - k,
        {
            let i: i8 = if forward {
                len - 1 - k
            } else {
                k
            };
            let here = layout.at(down, lane, i);
            if board[here] == 0 || k == 0 {
                last = here;
            }
            let ghost before = map@;
            let entry = with_entry(map[here], down, forward, last as i16);
            map.set(here, entry);
            proof {
                layout.lemma_size_bounds();
                assert(last == spec_nearest_empty(
                    *layout,
                    board@,
                    down,
                    lane as int,
                    i as int,
                    forward,
                ));
                assert forall|l: int, j: int| 0 <= l < lane && 0 <= j < len implies spec_entry(
                    #[trigger] map@[layout.spec_at(down, l, j)],
                    down,
                    forward,
                ) == spec_nearest_empty(*layout, board@, down, l, j, forward) by {
                    layout.lemma_at_in_range(down, l, j);
                    if layout.spec_at(down, l, j) == here {
                        layout.lemma_at_injective(down, l, j, lane as int, i as int);
                    }
                    assert(spec_entry(before[layout.spec_at(down, l, j)], down, forward)
                        == spec_nearest_empty(*layout, board@, down, l, j, forward));
                }
                assert forall|j: int|
                    0 <= j < len && (if forward {
                        j >= len - (k + 1)
                    } else {
                        j < k + 1
                    }) implies spec_entry(
                    #[trigger] map@[layout.spec_at(down, lane as int, j)],
                    down,
                    forward,
                ) == spec_nearest_empty(*layout, board@, down, lane as int, j, forward) by {
                    layout.lemma_at_in_range(down, lane as int, j);
                    if j != i {
                        if layout.spec_at(down, lane as int, j) == here {
                            layout.lemma_at_injective(down, lane as int, j, lane as int, i as int);
                        }
                        assert(spec_entry(
                            before[layout.spec_at(down, lane as int, j)],
                            down,
                            forward,
                        ) == spec_nearest_empty(*layout, board@, down, lane as int, j, forward));
                    }
                }
                assert forall|sq: int, d: bool, f: bool|
                    0 <= sq < map@.len() && (d != down || f != forward) implies #[trigger] spec_entry(
                        map@[sq],
                        d,
                        f,
                    ) == spec_entry(old(map)@[sq], d, f) by {
                    assert(spec_entry(before[sq], d, f) == spec_entry(old(map)@[sq], d, f));
                }
            }
            k = k + 1;
        }
        lane = lane + 1;
    }
}

/// Computes the blocking map of a board.
pub fn blocking_map(layout: &BoardLayout, board: &Vec<u8>) -> (map: Vec<Nearest>)
    requires
        layout.wf(),
        board@.len() == layout.spec_size(),
    ensures
        is_blocking_map(*layout, board@, map@),
        map@ == spec_blocking_map(*layout, board@),
{
    let size = layout.size();
    let mut map: Vec<Nearest> = Vec::new();
    let mut n: usize = 0;
    while n < size
        invariant
            n <= size,
            map@.len() == n,
        decreases size - n,
    {
        map.push(Nearest { left: 0, right: 0, up: 0, down: 0 });
        n = n + 1;
    }
    fill_direction(layout, board, &mut map, false, false);
    fill_direction(layout, board, &mut map, false, true);
    fill_direction(layout, board, &mut map, true, false);
    fill_direction(layout, board, &mut map, true, true);
    proof {
        assert forall|row: int, col: int| 0 <= row < layout.rows && 0 <= col < layout.cols implies {
            let n = #[trigger] map@[layout.spec_at(false, row, col)];
            &&& n.left == spec_nearest_empty(*layout, board@, false, row, col, false)
            &&& n.right == spec_nearest_empty(*layout, board@, false, row, col, true)
            &&& n.up == spec_nearest_empty(*layout, board@, true, col, row, false)
            &&& n.down == spec_nearest_empty(*layout, board@, true, col, row, true)
        } by {
            let sq = layout.spec_at(false, row, col);
            assert(sq == layout.spec_at(true, col, row));
            layout.lemma_at_in_range(false, row, col);
            assert(layout.in_lane(false, row, col));
            assert(layout.in_lane(true, col, row));
            let n = map@[sq];
            assert(spec_entry(n, false, false) == n.left);
            assert(spec_entry(n, false, true) == n.right);
            assert(spec_entry(n, true, false) == n.up);
            assert(spec_entry(n, true, true) == n.down);
        }
        lemma_blocking_map_unique(*layout, board@, map@);
    }
    map
}

} // verus!
