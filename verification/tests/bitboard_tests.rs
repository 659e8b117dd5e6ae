use battlesnake::bitboard::{Bitboard, BoardMasks};

#[test]
fn test_flood_fill_open_board() {
    let m = BoardMasks::new(11, 11);
    let start = Bitboard::from_coord(5, 5, 11);
    let result = start.flood_fill(Bitboard::empty(), &m);
    assert_eq!(result.popcount(), 121, "All 121 cells should be reachable on empty board");
}

#[test]
fn test_flood_fill_horizontal_wall() {
    let m = BoardMasks::new(11, 11);
    let start = Bitboard::from_coord(0, 0, 11);
    let mut blocked = Bitboard::empty();
    for x in 0..11 {
        blocked = blocked.set_coord(x, 5, 11);
    }
    let result = start.flood_fill(blocked, &m);
    assert_eq!(result.popcount(), 55);
}

#[test]
fn test_no_column_wrap_right() {
    let m = BoardMasks::new(11, 11);
    let bb = Bitboard::from_coord(10, 5, 11);
    let expanded = bb.expand(&m);
    assert!(expanded.test_coord(9, 5, 11));
    assert!(expanded.test_coord(10, 4, 11));
    assert!(expanded.test_coord(10, 6, 11));
    assert!(!expanded.test_coord(0, 6, 11), "Must not wrap to next row");
}

#[test]
fn test_no_column_wrap_left() {
    let m = BoardMasks::new(11, 11);
    let bb = Bitboard::from_coord(0, 5, 11);
    let expanded = bb.expand(&m);
    assert!(expanded.test_coord(1, 5, 11));
    assert!(expanded.test_coord(0, 4, 11));
    assert!(expanded.test_coord(0, 6, 11));
    assert!(!expanded.test_coord(10, 4, 11), "Must not wrap to previous row");
}

#[test]
fn test_board_mask_popcount() {
    let m = BoardMasks::new(11, 11);
    assert_eq!(Bitboard(m.board_mask).popcount(), 121);
}

#[test]
fn bitboard_operators() {
    let a = Bitboard::from_idx(3).set_idx(5);
    let b = Bitboard::from_idx(5).set_idx(7);
    assert_eq!((a | b).0, (1 << 3) | (1 << 5) | (1 << 7));
    assert_eq!((a & b).0, 1 << 5);
    assert_eq!((a ^ b).0, (1 << 3) | (1 << 7));
    assert_eq!((!Bitboard::empty()).0, u128::MAX);
    let mut c = a;
    c |= b;
    assert_eq!(c, a | b);
    c &= b;
    assert_eq!(c, b);
}

#[test]
fn bitboard_cells_and_expansion() {
    let m = BoardMasks::new(5, 5);
    let b = Bitboard::from_coord(0, 0, 5);
    assert!(b.test_coord(0, 0, 5));
    assert!(!b.test_idx(1));
    assert_eq!(b.expand(&m).0, (1 << 1) | (1 << 5));
    assert_eq!(Bitboard::from_coord(4, 0, 5).expand_right(&m).0, 0);
    assert_eq!(Bitboard::from_coord(0, 4, 5).expand_up(&m).0, 0);
    assert_eq!(Bitboard::from_coord(0, 1, 5).expand_down(&m).0, 1);
    assert_eq!(Bitboard::from_coord(1, 0, 5).expand_left(&m).0, 1);
    assert!(b.clear_coord(0, 0, 5).is_empty());
    assert!(b.any());
    assert_eq!(b.set_coord(2, 2, 5).popcount(), 2);
    assert_eq!(BoardMasks::standard().board_mask.count_ones(), 121);
    let (fill, hit) = b.flood_fill_with_target(Bitboard::empty(), Bitboard::from_idx(24), &m);
    assert_eq!(fill.popcount(), 25);
    assert!(hit);
}
