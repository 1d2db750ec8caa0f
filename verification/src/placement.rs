//! Placed tiles and the canonical order of a list of placements.
//!
//! A position is the set of tiles placed since the start of the endgame. Two
//! lists of placements that differ only in the order of play, or in which of
//! two players holding the same tile put it on which square, stand for the
//! same position. The canonical list is the one representative of them all.

use vstd::prelude::*;

verus! {

/// One tile moved from a rack to the board.
#[derive(Clone, Copy, PartialEq, Eq, Structural, Debug)]
pub struct PlacedTile {
    /// Tile byte; the high bit marks a blank that stands for a letter.
    pub tile: u8,
    /// The player who placed it: 0 or 1.
    pub whose: u8,
    /// Square index, row by row.
    pub square: i16,
}

/// The tile as it lies on a rack: a blank, whatever letter it stands for, is tile 0.
pub open spec fn spec_blanked(tile: u8) -> u8 {
    if tile >= 0x80 {
        0
    } else {
        tile
    }
}

/// The tile as it lies on a rack.
pub fn blanked(tile: u8) -> (r: u8)
    ensures
        r == spec_blanked(tile),
{
    if tile >= 0x80 {
        0
    } else {
        tile
    }
}

/// Tiles of one group are interchangeable between the players: a letter tile
/// forms a group with its equals, and all blanks form one group.
pub open spec fn spec_tile_group(tile: u8) -> u8 {
    if tile >= 0x80 {
        0x80
    } else {
        tile
    }
}

/// The group of a tile.
pub fn tile_group(tile: u8) -> (r: u8)
    ensures
        r == spec_tile_group(tile),
{
    if tile >= 0x80 {
        0x80
    } else {
        tile
    }
}

/// The order of canonical lists: by tile byte, then by square.
pub open spec fn placement_le(a: PlacedTile, b: PlacedTile) -> bool {
    a.tile < b.tile || (a.tile == b.tile && a.square <= b.square)
}

/// Whether `a` comes strictly before `b` in the order of canonical lists.
pub fn placement_less(a: &PlacedTile, b: &PlacedTile) -> (r: bool)
    ensures
        r == !placement_le(*b, *a),
{
    a.tile < b.tile || (a.tile == b.tile && a.square < b.square)
}

/// What is counted in a list of placements.
pub enum Selector {
    /// Placements of this tile byte on this square.
    Placed(u8, i16),
    /// Placements on this square.
    Square(i16),
    /// Placements of a tile of this group by this player.
    Owned(u8, u8),
    /// Placements by this player.
    Whose(u8),
}

/// Whether the selector counts the placement.
pub open spec fn selects(sel: Selector, p: PlacedTile) -> bool {
    match sel {
        Selector::Placed(tile, square) => p.tile == tile && p.square == square,
        Selector::Square(square) => p.square == square,
        Selector::Owned(group, whose) => spec_tile_group(p.tile) == group && p.whose == whose,
        Selector::Whose(whose) => p.whose == whose,
    }
}

/// Number of placements of `s` that `sel` selects.
pub open spec fn count_sel(s: Seq<PlacedTile>, sel: Selector) -> nat
    decreases s.len(),
{
    if s.len() == 0 {
        0
    } else {
        count_sel(s.drop_last(), sel) + if selects(sel, s.last()) {
            1nat
        } else {
            0nat
        }
    }
}

/// Every placement is a real tile placed by player 0 or 1.
pub open spec fn valid_placements(s: Seq<PlacedTile>) -> bool {
    forall|i: int| 0 <= i < s.len() ==> (#[trigger] s[i]).tile != 0 && s[i].whose <= 1
}

/// Two lists hold the same placements, up to their order and up to which
/// player placed which tile of a group.
pub open spec fn same_placements(a: Seq<PlacedTile>, b: Seq<PlacedTile>) -> bool {
    &&& a.len() == b.len()
    &&& forall|sel: Selector| #[trigger] count_sel(a, sel) == count_sel(b, sel)
}

/// Sorted by tile byte and square, and within each group of tiles player 0's
/// placements come before player 1's.
pub open spec fn is_canonical(c: Seq<PlacedTile>) -> bool {
    &&& valid_placements(c)
    &&& forall|i: int, j: int| 0 <= i < j < c.len() ==> placement_le(#[trigger] c[i], #[trigger] c[j])
    &&& forall|i: int, j: int|
        0 <= i < j < c.len() && spec_tile_group(c[i].tile) == spec_tile_group(c[j].tile) ==> (
        #[trigger] c[i]).whose <= (#[trigger] c[j]).whose
}

/// A count, by the last placement.
pub(crate) proof fn lemma_count_push(s: Seq<PlacedTile>, p: PlacedTile, sel: Selector)
    ensures
        count_sel(s.push(p), sel) == count_sel(s, sel) + if selects(sel, p) {
            1nat
        } else {
            0nat
        },
{
    assert(s.push(p).drop_last() =~= s);
}

/// Replacing one placement changes a count by what leaves and what comes.
pub(crate) proof fn lemma_count_update(s: Seq<PlacedTile>, i: int, p: PlacedTile, sel: Selector)
    requires
        0 <= i < s.len(),
    ensures
        count_sel(s.update(i, p), sel) + (if selects(sel, s[i]) {
            1nat
        } else {
            0nat
        }) == count_sel(s, sel) + (if selects(sel, p) {
            1nat
        } else {
            0nat
        }),
    decreases s.len(),
{
    if i == s.len() - 1 {
        assert(s.update(i, p).drop_last() =~= s.drop_last());
    } else {
        assert(s.update(i, p).drop_last() =~= s.drop_last().update(i, p));
        lemma_count_update(s.drop_last(), i, p, sel);
    }
}

/// A positive count has a witness.
pub(crate) proof fn lemma_count_witness(s: Seq<PlacedTile>, sel: Selector) -> (i: int)
    requires
        count_sel(s, sel) > 0,
    ensures
        0 <= i < s.len(),
        selects(sel, s[i]),
    decreases s.len(),
{
    if selects(sel, s.last()) {
        s.len() - 1
    } else {
        lemma_count_witness(s.drop_last(), sel)
    }
}

/// A selected placement makes the count positive.
pub(crate) proof fn lemma_count_positive(s: Seq<PlacedTile>, i: int, sel: Selector)
    requires
        0 <= i < s.len(),
        selects(sel, s[i]),
    ensures
        count_sel(s, sel) > 0,
    decreases s.len(),
{
    if i < s.len() - 1 {
        lemma_count_positive(s.drop_last(), i, sel);
    }
}

/// Counts add up over concatenation.
pub(crate) proof fn lemma_count_concat(a: Seq<PlacedTile>, b: Seq<PlacedTile>, sel: Selector)
    ensures
        count_sel(a + b, sel) == count_sel(a, sel) + count_sel(b, sel),
    decreases b.len(),
{
    if b.len() == 0 {
        assert(a + b =~= a);
    } else {
        assert((a + b).drop_last() =~= a + b.drop_last());
        lemma_count_concat(a, b.drop_last(), sel);
    }
}

/// Holding the same placements is symmetric.
pub proof fn lemma_same_placements_symmetric(a: Seq<PlacedTile>, b: Seq<PlacedTile>)
    requires
        same_placements(a, b),
    ensures
        same_placements(b, a),
{
}

/// Holding the same placements is transitive.
pub proof fn lemma_same_placements_transitive(
    a: Seq<PlacedTile>,
    b: Seq<PlacedTile>,
    c: Seq<PlacedTile>,
)
    requires
        same_placements(a, b),
        same_placements(b, c),
    ensures
        same_placements(a, c),
{
    assert forall|sel: Selector| #[trigger] count_sel(a, sel) == count_sel(c, sel) by {
        assert(count_sel(a, sel) == count_sel(b, sel));
    }
}

/// The order in which two runs of placements are made does not matter.
pub proof fn lemma_same_placements_commute(a: Seq<PlacedTile>, b: Seq<PlacedTile>)
    ensures
        same_placements(a + b, b + a),
{
    assert forall|sel: Selector| #[trigger] count_sel(a + b, sel) == count_sel(b + a, sel) by {
        lemma_count_concat(a, b, sel);
        lemma_count_concat(b, a, sel);
    }
}

/// Adding the same placements to two lists that agree keeps them in agreement.
pub proof fn lemma_same_placements_extend(
    a: Seq<PlacedTile>,
    b: Seq<PlacedTile>,
    more: Seq<PlacedTile>,
)
    requires
        same_placements(a, b),
    ensures
        same_placements(a + more, b + more),
{
    assert forall|sel: Selector| #[trigger] count_sel(a + more, sel) == count_sel(b + more, sel) by {
        lemma_count_concat(a, more, sel);
        lemma_count_concat(b, more, sel);
        assert(count_sel(a, sel) == count_sel(b, sel));
    }
}

/// A part of a list holds no more of anything than the list.
pub(crate) proof fn lemma_count_take(s: Seq<PlacedTile>, n: int, sel: Selector)
    requires
        0 <= n <= s.len(),
    ensures
        count_sel(s.take(n), sel) <= count_sel(s, sel),
{
    assert(s =~= s.take(n) + s.skip(n));
    lemma_count_concat(s.take(n), s.skip(n), sel);
}

/// Lists of the same placements are valid together.
pub(crate) proof fn lemma_same_placements_valid(a: Seq<PlacedTile>, b: Seq<PlacedTile>)
    requires
        same_placements(a, b),
        valid_placements(b),
    ensures
        valid_placements(a),
{
    assert forall|i: int| 0 <= i < a.len() implies (#[trigger] a[i]).tile != 0 && a[i].whose
        <= 1 by {
        let sel = Selector::Owned(spec_tile_group(a[i].tile), a[i].whose);
        lemma_count_positive(a, i, sel);
        assert(count_sel(a, sel) == count_sel(b, sel));
        let j = lemma_count_witness(b, sel);
        assert(b[j].tile != 0 && b[j].whose <= 1);
    }
}

/// Every valid placement is by player 0 or by player 1.
pub(crate) proof fn lemma_count_by_players(s: Seq<PlacedTile>)
    requires
        valid_placements(s),
    ensures
        count_sel(s, Selector::Whose(0)) + count_sel(s, Selector::Whose(1)) == s.len(),
    decreases s.len(),
{
    if s.len() > 0 {
        assert forall|i: int| 0 <= i < s.drop_last().len() implies (#[trigger] s.drop_last()[
            i]).tile != 0 && s.drop_last()[i].whose <= 1 by {
            assert(s.drop_last()[i] == s[i]);
        }
        lemma_count_by_players(s.drop_last());
        assert(s.last() == s[s.len() - 1]);
    }
}

/// A prefix of a canonical list is canonical.
pub proof fn lemma_canonical_prefix(c: Seq<PlacedTile>, n: int)
    requires
        is_canonical(c),
        0 <= n <= c.len(),
    ensures
        is_canonical(c.take(n)),
{
    let d = c.take(n);
    assert forall|i: int| 0 <= i < d.len() implies (#[trigger] d[i]).tile != 0 && d[i].whose
        <= 1 by {
        assert(d[i] == c[i]);
    }
    assert forall|i: int, j: int| 0 <= i < j < d.len() implies placement_le(
        #[trigger] d[i],
        #[trigger] d[j],
    ) by {
        assert(placement_le(c[i], c[j]));
    }
    assert forall|i: int, j: int|
        0 <= i < j < d.len() && spec_tile_group(d[i].tile) == spec_tile_group(
            d[j].tile,
        ) implies (#[trigger] d[i]).whose <= (#[trigger] d[j]).whose by {
        assert(c[i].whose <= c[j].whose);
    }
}

/// Canonical uniqueness: two canonical lists of the same placements are equal.
/// So the canonical list of a position does not depend on the order in which
/// its tiles were placed, nor on who placed which tile of a group.
pub proof fn lemma_canonical_unique(a: Seq<PlacedTile>, b: Seq<PlacedTile>)
    requires
        is_canonical(a),
        is_canonical(b),
        same_placements(a, b),
    ensures
        a == b,
    decreases a.len(),
{
    if a.len() == 0 {
        assert(a =~= b);
    } else {
        let n = a.len() - 1;
        let x = a[n];
        let y = b[n];
        // the last keys agree: each is the greatest key of both lists
        let sx = Selector::Placed(x.tile, x.square);
        lemma_count_positive(a, n, sx);
        assert(count_sel(a, sx) == count_sel(b, sx));
        let jx = lemma_count_witness(b, sx);
        assert(placement_le(b[jx], y) || jx == n);
        let sy = Selector::Placed(y.tile, y.square);
        lemma_count_positive(b, n, sy);
        assert(count_sel(a, sy) == count_sel(b, sy));
        let jy = lemma_count_witness(a, sy);
        assert(placement_le(a[jy], x) || jy == n);
        assert(x.tile == y.tile && x.square == y.square);
        // the last owners agree
        let g = spec_tile_group(x.tile);
        let s1 = Selector::Owned(g, 1);
        assert(count_sel(a, s1) == count_sel(b, s1));
        if x.whose == 1 {
            lemma_count_positive(a, n, s1);
            let k = lemma_count_witness(b, s1);
            assert(b[k].whose <= y.whose || k == n);
        } else if y.whose == 1 {
            lemma_count_positive(b, n, s1);
            let k = lemma_count_witness(a, s1);
            assert(a[k].whose <= x.whose || k == n);
        }
        assert(x == y);
        // and so do the rest
        let a0 = a.drop_last();
        let b0 = b.drop_last();
        assert(a0 =~= a.take(n));
        assert(b0 =~= b.take(n));
        lemma_canonical_prefix(a, n);
        lemma_canonical_prefix(b, n);
        assert forall|sel: Selector| #[trigger] count_sel(a0, sel) == count_sel(b0, sel) by {
            assert(count_sel(a, sel) == count_sel(b, sel));
        }
        lemma_canonical_unique(a0, b0);
        assert(a =~= a0.push(x));
        assert(b =~= b0.push(y));
    }
}


/// Sorted by tile byte, then by square.
pub open spec fn is_sorted(c: Seq<PlacedTile>) -> bool {
    forall|i: int, j: int| 0 <= i < j < c.len() ==> placement_le(#[trigger] c[i], #[trigger] c[j])
}

/// The same tiles on the same squares, index by index; owners may differ.
pub open spec fn same_keys(a: Seq<PlacedTile>, b: Seq<PlacedTile>) -> bool {
    &&& a.len() == b.len()
    &&& forall|i: int|
        0 <= i < a.len() ==> (#[trigger] a[i]).tile == b[i].tile && a[i].square == b[i].square
}

/// Swapping two placements keeps what the list holds.
proof fn lemma_swap_same_placements(s: Seq<PlacedTile>, i: int, j: int)
    requires
        0 <= i < s.len(),
        0 <= j < s.len(),
    ensures
        same_placements(s.update(i, s[j]).update(j, s[i]), s),
{
    let s1 = s.update(i, s[j]);
    let s2 = s1.update(j, s[i]);
    assert forall|sel: Selector| #[trigger] count_sel(s2, sel) == count_sel(s, sel) by {
        lemma_count_update(s, i, s[j], sel);
        lemma_count_update(s1, j, s[i], sel);
    }
}

/// Two players who trade two tiles of one group have placed as many of the group as before.
proof fn lemma_trade_owners_same_placements(s: Seq<PlacedTile>, i: int, j: int)
    requires
        0 <= i < j < s.len(),
        spec_tile_group(s[i].tile) == spec_tile_group(s[j].tile),
        s[i].whose == 1,
        s[j].whose == 0,
    ensures
        same_placements(
            s.update(i, PlacedTile { whose: 0, ..s[i] }).update(j, PlacedTile { whose: 1, ..s[j] }),
            s,
        ),
{
    let pi = PlacedTile { whose: 0, ..s[i] };
    let pj = PlacedTile { whose: 1, ..s[j] };
    let s1 = s.update(i, pi);
    let s2 = s1.update(j, pj);
    assert forall|sel: Selector| #[trigger] count_sel(s2, sel) == count_sel(s, sel) by {
        lemma_count_update(s, i, pi, sel);
        lemma_count_update(s1, j, pj, sel);
    }
}

/// Sorts the placements by tile byte and square.
pub fn sort_placements(v: &mut Vec<PlacedTile>)
    ensures
        is_sorted(final(v)@),
        same_placements(final(v)@, old(v)@),
        valid_placements(old(v)@) ==> valid_placements(final(v)@),
{
    let ghost orig = v@;
    let n = v.len();
    let mut i: usize = 1;
    while i < n
        invariant
            v.len() == n,
            1 <= i,
            same_placements(v@, orig),
            valid_placements(orig) ==> valid_placements(v@),
            forall|a: int, b: int|
                0 <= a < b < i && b < n ==> placement_le(#[trigger] v@[a], #[trigger] v@[b]),
        decreases n - i,
    {
        let mut j: usize = i;
        while j > 0 && placement_less(&v[j], &v[j - 1])
            invariant
                v.len() == n,
                j <= i < n,
                same_placements(v@, orig),
                valid_placements(orig) ==> valid_placements(v@),
                forall|a: int, b: int|
                    0 <= a < b <= i && a != j && b != j ==> placement_le(
                        #[trigger] v@[a],
                        #[trigger] v@[b],
                    ),
                forall|b: int| j < b <= i ==> placement_le(v@[j as int], #[trigger] v@[b]),
            decreases j,
        {
            let ghost before = v@;
            let lower = v[j - 1];
            let upper = v[j];
            v.set(j - 1, upper);
            v.set(j, lower);
            proof {
                assert(v@ =~= before.update(j - 1, before[j as int]).update(
                    j as int,
                    before[j - 1],
                ));
                lemma_swap_same_placements(before, j - 1, j as int);
                lemma_same_placements_transitive(v@, before, orig);
                assert forall|a: int, b: int|
                    0 <= a < b <= i && a != j - 1 && b != j - 1 implies placement_le(
                    #[trigger] v@[a],
                    #[trigger] v@[b],
                ) by {
                    if b == j {
                        assert(placement_le(before[a], before[j - 1]));
                    } else if a == j {
                        assert(placement_le(before[j - 1], before[b]));
                    } else {
                        assert(placement_le(before[a], before[b]));
                    }
                }
                assert forall|b: int| j - 1 < b <= i implies placement_le(
                    v@[j - 1],
                    #[trigger] v@[b],
                ) by {
                    if b > j {
                        assert(placement_le(before[j as int], before[b]));
                    }
                }
            }
            j = j - 1;
        }
        proof {
            assert forall|a: int, b: int| 0 <= a < b < i + 1 && b < n implies placement_le(
                #[trigger] v@[a],
                #[trigger] v@[b],
            ) by {
                if a == j {
                } else if b == j {
                    assert(j > 0);
                    if a < j - 1 {
                        assert(placement_le(v@[a], v@[j - 1]));
                    }
                } else {
                }
            }
        }
        i = i + 1;
    }
}

/// Gives the tiles of each group to player 0 first, then to player 1, keeping
/// how many tiles of the group each player placed.
pub fn assign_owners(v: &mut Vec<PlacedTile>)
    requires
        is_sorted(old(v)@),
        valid_placements(old(v)@),
    ensures
        is_canonical(final(v)@),
        same_placements(final(v)@, old(v)@),
        same_keys(final(v)@, old(v)@),
{
    let ghost orig = v@;
    let n = v.len();
    let mut i: usize = 0;
    while i < n
        invariant
            v.len() == n,
            i <= n,
            is_sorted(v@),
            valid_placements(v@),
            same_placements(v@, orig),
            same_keys(v@, orig),
            forall|a: int, b: int|
                0 <= a < b < i && spec_tile_group(v@[a].tile) == spec_tile_group(v@[b].tile) ==> (
                #[trigger] v@[a]).whose <= (#[trigger] v@[b]).whose,
            0 < i < n ==> spec_tile_group(v@[i - 1].tile) != spec_tile_group(v@[i as int].tile),
        decreases n - i,
    {
        let g = tile_group(v[i].tile);
        let mut j: usize = i + 1;
        while j < n && tile_group(v[j].tile) == g
            invariant
                v.len() == n,
                i < j <= n,
                forall|k: int| i <= k < j ==> spec_tile_group((#[trigger] v@[k]).tile) == g,
            decreases n - j,
        {
            j = j + 1;
        }
        let ghost run = v@;
        let mut lo: usize = i;
        let mut hi: usize = j;
        while lo < hi
            invariant
                v.len() == n,
                i <= lo <= hi <= j <= n,
                is_sorted(v@),
                valid_placements(v@),
                same_placements(v@, orig),
                same_keys(v@, orig),
                forall|k: int| i <= k < j ==> spec_tile_group((#[trigger] v@[k]).tile) == g,
                forall|k: int| i <= k < lo ==> (#[trigger] v@[k]).whose == 0,
                forall|k: int| hi <= k < j ==> (#[trigger] v@[k]).whose == 1,
                forall|k: int| 0 <= k < i || j <= k < n ==> #[trigger] v@[k] == run[k],
            decreases hi - lo,
        {
            if v[lo].whose == 0 {
                lo = lo + 1;
            } else if v[hi - 1].whose == 1 {
                hi = hi - 1;
            } else {
                let ghost before = v@;
                let first = v[lo];
                let second = v[hi - 1];
                v.set(lo, PlacedTile { tile: first.tile, whose: 0, square: first.square });
                v.set(hi - 1, PlacedTile { tile: second.tile, whose: 1, square: second.square });
                proof {
                    assert(before[lo as int].whose == 1);
                    assert(before[hi - 1].whose == 0);
                    assert(v@ =~= before.update(
                        lo as int,
                        PlacedTile { whose: 0, ..before[lo as int] },
                    ).update(hi - 1, PlacedTile { whose: 1, ..before[hi - 1] }));
                    lemma_trade_owners_same_placements(before, lo as int, hi - 1);
                    lemma_same_placements_transitive(v@, before, orig);
                    assert forall|a: int, b: int| 0 <= a < b < v@.len() implies placement_le(
                        #[trigger] v@[a],
                        #[trigger] v@[b],
                    ) by {
                        assert(placement_le(before[a], before[b]));
                    }
                    assert forall|k: int| 0 <= k < v@.len() implies (#[trigger] v@[k]).tile != 0
                        && v@[k].whose <= 1 by {
                        assert(before[k].tile != 0);
                    }
                    assert forall|k: int| 0 <= k < v@.len() implies (#[trigger] v@[k]).tile
                        == orig[k].tile && v@[k].square == orig[k].square by {
                        assert(before[k].tile == orig[k].tile);
                    }
                }
                lo = lo + 1;
                hi = hi - 1;
            }
        }
        proof {
            assert forall|a: int, b: int|
                0 <= a < b < j && spec_tile_group(v@[a].tile) == spec_tile_group(
                    v@[b].tile,
                ) implies (#[trigger] v@[a]).whose <= (#[trigger] v@[b]).whose by {
                if b < i {
                    assert(v@[a] == run[a] && v@[b] == run[b]);
                } else if a < i {
                    // a lies before the run, b in it: their groups differ
                    assert(placement_le(v@[a], v@[i - 1]) || a == i - 1);
                    assert(placement_le(v@[i - 1], v@[i as int]));
                    assert(v@[i - 1] == run[i - 1]);
                    assert(spec_tile_group(v@[i as int].tile) == g);
                    assert(spec_tile_group(v@[b].tile) == g);
                    assert(spec_tile_group(run[i as int].tile) == g);
                } else {
                }
            }
            if j < n {
                assert(v@[j as int] == run[j as int]);
                assert(spec_tile_group(v@[j - 1].tile) == g);
            }
        }
        i = j;
    }
}

/// Brings a list of placements into canonical form.
pub fn canonicalize(v: &mut Vec<PlacedTile>)
    requires
        valid_placements(old(v)@),
    ensures
        is_canonical(final(v)@),
        same_placements(final(v)@, old(v)@),
{
    let ghost orig = v@;
    sort_placements(v);
    let ghost sorted = v@;
    assign_owners(v);
    proof {
        lemma_same_placements_transitive(v@, sorted, orig);
    }
}

} // verus!
