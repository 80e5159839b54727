use chess_core::bitboard::{BitBoard, PieceType, Side};

#[test]
fn square_zero_is_h1_and_bit_63_is_a8() {
    // bit 0 = h1, bit 7 = a1, bit 8 = h2, bit 63 = a8
    assert_eq!(BitBoard::nth(0).data, 1);
    assert_eq!(BitBoard::nth(7).data, 0x80);
    assert_eq!(BitBoard::nth(8).data, 0x100);
    assert_eq!(BitBoard::nth(63).data, 0x8000_0000_0000_0000);
    let a8 = BitBoard::nth(63).render();
    assert_eq!(a8, "10000000\n00000000\n00000000\n00000000\n00000000\n00000000\n00000000\n00000000\n");
    let h1 = BitBoard::nth(0).render();
    assert_eq!(h1, "00000000\n00000000\n00000000\n00000000\n00000000\n00000000\n00000000\n00000001\n");
    let h2 = BitBoard::nth(8).render();
    assert_eq!(h2, "00000000\n00000000\n00000000\n00000000\n00000000\n00000000\n00000001\n00000000\n");
}

#[test]
fn lowest_set_index() {
    assert_eq!(BitBoard::zero().lsb_index(), None);
    assert_eq!(BitBoard { data: 0b1000 }.lsb_index(), Some(3));
    assert_eq!(BitBoard { data: 0x8000_0000_0000_0000 }.lsb_index(), Some(63));
    assert_eq!(BitBoard::ones().lsb_index(), Some(0));
}

#[test]
fn set_test_get_and_clear_a_bit() {
    let mut b = BitBoard::zero();
    b.set_bit(5);
    b.set_bit(40);
    assert_eq!(b.data, (1u64 << 5) | (1u64 << 40));
    assert!(b.test_bit(5));
    assert!(!b.test_bit(6));
    assert_eq!(b.get_bit(5).data, 1u64 << 5);
    assert_eq!(b.get_bit(6).data, 0);
    assert_eq!(b.pop_bit(5).data, 1u64 << 40);
    // clearing a bit that is not set changes nothing
    assert_eq!(b.pop_bit(6).data, b.data);
}

#[test]
fn set_operations() {
    let a = BitBoard { data: 0b1100 };
    let b = BitBoard { data: 0b1010 };
    assert_eq!(a.union(b).data, 0b1110);
    assert_eq!(a.intersection(b).data, 0b1000);
    assert_eq!(a.symmetric_difference(b).data, 0b0110);
    assert_eq!(a.complement().data, !0b1100u64);
    assert_eq!(BitBoard::zero().complement().data, u64::MAX);
}

#[test]
fn population_count() {
    assert_eq!(BitBoard::zero().count(), 0);
    assert_eq!(BitBoard::ones().count(), 64);
    assert_eq!(BitBoard { data: 0xff00 }.count(), 8);
    assert_eq!(BitBoard { data: 0x8000_0000_0000_0001 }.count(), 2);
}

#[test]
fn piece_letters() {
    assert_eq!(PieceType::Pawn.to_char(), 'p');
    assert_eq!(PieceType::Knight.to_char(), 'n');
    assert_eq!(PieceType::Bishop.to_char(), 'b');
    assert_eq!(PieceType::Rook.to_char(), 'r');
    assert_eq!(PieceType::Queen.to_char(), 'q');
    assert_eq!(PieceType::King.to_char(), 'k');
}

#[test]
fn side_flips() {
    assert_eq!(Side::White.update(), Side::Black);
    assert_eq!(Side::Black.update(), Side::White);
    assert_eq!(Side::White.update().update(), Side::White);
}
