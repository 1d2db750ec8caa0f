use endgame::placement::{blanked, canonicalize, tile_group, PlacedTile};

fn tile(tile: u8, whose: u8, square: i16) -> PlacedTile {
    PlacedTile { tile, whose, square }
}

#[test]
fn blanked_tile_is_the_blank() {
    assert_eq!(blanked(0x81), 0);
    assert_eq!(blanked(0xbf), 0);
    assert_eq!(blanked(5), 5);
    assert_eq!(blanked(0x3f), 0x3f);
}

#[test]
fn blanks_form_one_group() {
    assert_eq!(tile_group(0x81), 0x80);
    assert_eq!(tile_group(0x9a), 0x80);
    assert_eq!(tile_group(7), 7);
}

#[test]
fn canonical_order_is_by_tile_then_square() {
    let mut v = vec![tile(5, 0, 9), tile(3, 1, 20), tile(5, 0, 2), tile(0x81, 1, 0)];
    canonicalize(&mut v);
    assert_eq!(v, vec![tile(3, 1, 20), tile(5, 0, 2), tile(5, 0, 9), tile(0x81, 1, 0)]);
}

#[test]
fn canonical_owners_are_player_zero_first() {
    let mut v = vec![tile(5, 1, 2), tile(5, 0, 9), tile(5, 1, 4)];
    canonicalize(&mut v);
    assert_eq!(v, vec![tile(5, 0, 2), tile(5, 1, 4), tile(5, 1, 9)]);
}

#[test]
fn canonical_blank_run_keeps_letters_and_counts() {
    // blank-as-B by player 1 on square 3, blank-as-A by player 0 on square 8
    let mut v = vec![tile(0x82, 1, 3), tile(0x81, 0, 8), tile(4, 1, 1)];
    canonicalize(&mut v);
    // the letters stay with their squares; within the blanks player 0 comes first
    assert_eq!(v, vec![tile(4, 1, 1), tile(0x81, 0, 8), tile(0x82, 1, 3)]);
    let mut w = vec![tile(0x81, 1, 8), tile(4, 1, 1), tile(0x82, 0, 3)];
    canonicalize(&mut w);
    assert_eq!(w, v);
}

#[test]
fn canonical_form_does_not_depend_on_order() {
    let a = vec![tile(1, 0, 0), tile(2, 1, 1), tile(1, 1, 5), tile(0x83, 0, 7)];
    let mut x = a.clone();
    let mut y = vec![a[3], a[1], a[0], a[2]];
    let mut z = vec![a[2], a[3], a[1], a[0]];
    canonicalize(&mut x);
    canonicalize(&mut y);
    canonicalize(&mut z);
    assert_eq!(x, y);
    assert_eq!(x, z);
}
