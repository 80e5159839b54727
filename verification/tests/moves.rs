use chess_core::bitboard::PieceType;
use chess_core::chessmove::{ChessMove, MoveType, MovesArray};

#[test]
fn a_move_packs_its_fields_into_sixteen_bits() {
    // bits 0-5 source, 6-11 target, 12-13 promotion piece, 14-15 kind
    let m = ChessMove::new(11, 27, None, MoveType::Normal);
    assert_eq!(m.data, 11 | (27 << 6));
    let c = ChessMove::new(3, 1, None, MoveType::Castle);
    assert_eq!(c.data, 3 | (1 << 6) | (1 << 14));
    let e = ChessMove::new(36, 45, None, MoveType::EnPassant);
    assert_eq!(e.data, 36 | (45 << 6) | (2 << 14));
    let q = ChessMove::new(51, 59, Some(PieceType::Queen), MoveType::Promotion);
    assert_eq!(q.data, 51 | (59 << 6) | (3 << 12) | (3 << 14));
    let r = ChessMove::new(51, 59, Some(PieceType::Rook), MoveType::Promotion);
    assert_eq!(r.data, 51 | (59 << 6) | (2 << 12) | (3 << 14));
    let b = ChessMove::new(51, 59, Some(PieceType::Bishop), MoveType::Promotion);
    assert_eq!(b.data, 51 | (59 << 6) | (1 << 12) | (3 << 14));
    let n = ChessMove::new(51, 59, Some(PieceType::Knight), MoveType::Promotion);
    assert_eq!(n.data, 51 | (59 << 6) | (3 << 14));
    // of a square only the low six bits count
    assert_eq!(ChessMove::new(64 + 11, 128 + 27, None, MoveType::Normal), m);
}

#[test]
fn getters_read_the_fields() {
    let q = ChessMove::new(51, 59, Some(PieceType::Rook), MoveType::Promotion);
    assert_eq!(q.get_source_index(), 51);
    assert_eq!(q.source(), 51);
    assert_eq!(q.get_target_index(), 59);
    assert_eq!(q.target(), 59);
    assert_eq!(q.get_piece_data(), Some(PieceType::Rook));
    assert_eq!(q.piece(), Some(PieceType::Rook));
    assert_eq!(q.get_piece_data_raw(), 2);
    assert_eq!(q.get_move_type(), MoveType::Promotion);
    assert_eq!(q.get_move_type_raw(), 3);
    let m = ChessMove { data: (2 << 12) | (27 << 6) | 11 };
    // promotion bits without the promotion kind name no piece
    assert_eq!(m.get_piece_data(), None);
    assert_eq!(m.piece(), None);
    assert_eq!(m.get_piece_data_raw(), 2);
    assert_eq!(m.get_move_type(), MoveType::Normal);
    assert_eq!(ChessMove { data: 1 << 14 }.get_move_type(), MoveType::Castle);
    assert_eq!(ChessMove { data: 2 << 14 }.get_move_type(), MoveType::EnPassant);
}

#[test]
fn setters_replace_one_field() {
    let mut m = ChessMove::new(11, 27, None, MoveType::Normal);
    m.set_source_index(12);
    assert_eq!(m, ChessMove::new(12, 27, None, MoveType::Normal));
    m.set_target_index(28);
    assert_eq!(m, ChessMove::new(12, 28, None, MoveType::Normal));
    m.set_move_type(MoveType::Promotion);
    m.set_piece_data(Some(PieceType::Queen));
    assert_eq!(m, ChessMove::new(12, 28, Some(PieceType::Queen), MoveType::Promotion));
    m.set_piece_data(None);
    assert_eq!(m, ChessMove::new(12, 28, Some(PieceType::Queen), MoveType::Promotion));
    m.set_data(50, 58, Some(PieceType::Knight), MoveType::Promotion);
    assert_eq!(m, ChessMove::new(50, 58, Some(PieceType::Knight), MoveType::Promotion));
    m.set_data(3, 5, None, MoveType::Castle);
    assert_eq!(m.source(), 3);
    assert_eq!(m.target(), 5);
    assert_eq!(m.get_move_type(), MoveType::Castle);
}

#[test]
fn a_move_prints_in_long_algebraic_text() {
    assert_eq!(ChessMove::new(11, 27, None, MoveType::Normal).print_move(), "e2e4");
    assert_eq!(
        ChessMove::new(51, 59, Some(PieceType::Queen), MoveType::Promotion).print_move(),
        "e7e8q"
    );
    assert_eq!(
        ChessMove::new(51, 58, Some(PieceType::Knight), MoveType::Promotion).print_move(),
        "e7f8n"
    );
    assert_eq!(
        ChessMove::new(8, 0, Some(PieceType::Rook), MoveType::Promotion).print_move(),
        "h2h1r"
    );
    assert_eq!(
        ChessMove::new(15, 7, Some(PieceType::Bishop), MoveType::Promotion).print_move(),
        "a2a1b"
    );
    // castling prints as the move of the king
    assert_eq!(ChessMove::new(3, 1, None, MoveType::Castle).print_move(), "e1g1");
    assert_eq!(ChessMove::new(59, 61, None, MoveType::Castle).print_move(), "e8c8");
    assert_eq!(ChessMove::new(0, 63, None, MoveType::Normal).print_move(), "h1a8");
    assert_eq!(ChessMove::new(11, 27, None, MoveType::Normal).text_vec(), b"e2e4".to_vec());
}

#[test]
fn the_list_grows_and_shrinks_at_its_end() {
    let a = ChessMove::new(11, 27, None, MoveType::Normal);
    let b = ChessMove::new(12, 28, None, MoveType::Normal);
    let mut list = MovesArray::new();
    assert_eq!(list.len(), 0);
    assert_eq!(list.pop(), None);
    list.push(a);
    list.push(b);
    assert_eq!(list.len(), 2);
    assert_eq!(list.get(0), a);
    assert_eq!(list.get(1), b);
    assert_eq!(list.to_vec(), vec![a, b]);
    let slots = list.data();
    assert_eq!(slots[0], Some(a));
    assert_eq!(slots[1], Some(b));
    assert_eq!(slots[2], None);
    assert_eq!(slots[255], None);
    assert_eq!(list.const_clone(), list);
    assert_eq!(list.pop(), Some(b));
    assert_eq!(list.len(), 1);
    assert_eq!(list.data()[1], None);
    assert_eq!(list.pop(), Some(a));
    assert_eq!(list.pop(), None);
}

#[test]
fn the_list_is_copied_by_the_new_functions() {
    let a = ChessMove::new(11, 27, None, MoveType::Normal);
    let empty = MovesArray::new();
    let one = empty.new_add(a);
    assert_eq!(empty.len(), 0);
    assert_eq!(one.to_vec(), vec![a]);
    let two = one.new_raw(12, 28, None, MoveType::Normal);
    assert_eq!(two.to_vec(), vec![a, ChessMove::new(12, 28, None, MoveType::Normal)]);
    let (back, last) = two.new_pop();
    assert_eq!(back, one);
    assert_eq!(last, Some(ChessMove::new(12, 28, None, MoveType::Normal)));
    let (still, none) = empty.new_pop();
    assert_eq!(still, empty);
    assert_eq!(none, None);
    let promos = one.new_promotions(51, 59);
    assert_eq!(
        promos.to_vec(),
        vec![
            a,
            ChessMove::new(51, 59, Some(PieceType::Queen), MoveType::Promotion),
            ChessMove::new(51, 59, Some(PieceType::Rook), MoveType::Promotion),
            ChessMove::new(51, 59, Some(PieceType::Bishop), MoveType::Promotion),
            ChessMove::new(51, 59, Some(PieceType::Knight), MoveType::Promotion),
        ]
    );
}

#[test]
fn the_list_holds_256_moves() {
    let mut list = MovesArray::new();
    for i in 0..256usize {
        list.push(ChessMove::new(i % 64, (i / 4) % 64, None, MoveType::Normal));
    }
    assert_eq!(list.len(), 256);
    assert_eq!(list.get(255), ChessMove::new(63, 63, None, MoveType::Normal));
    assert_eq!(list.data()[255], Some(ChessMove::new(63, 63, None, MoveType::Normal)));
}

#[test]
fn sorting_orders_by_text() {
    let mut list = MovesArray::new();
    let texts_in = ["g1f3", "e2e4", "a7a8q", "a7a8", "e1g1", "a7a8n", "b1c3", "a2a3"];
    for t in texts_in {
        let b = t.as_bytes();
        let s = 8 * (b[1] - b'1') as usize + (b'h' - b[0]) as usize;
        let d = 8 * (b[3] - b'1') as usize + (b'h' - b[2]) as usize;
        let m = if b.len() == 5 {
            let p = if b[4] == b'q' { PieceType::Queen } else { PieceType::Knight };
            ChessMove::new(s, d, Some(p), MoveType::Promotion)
        } else {
            ChessMove::new(s, d, None, MoveType::Normal)
        };
        list.push(m);
    }
    // the same text twice: the castling move has the greater word
    list.push(ChessMove::new(3, 1, None, MoveType::Castle));
    list.sort();
    let printed: Vec<String> = list.to_vec().iter().map(|m| m.print_move()).collect();
    assert_eq!(
        printed,
        vec!["a2a3", "a7a8", "a7a8n", "a7a8q", "b1c3", "e1g1", "e1g1", "e2e4", "g1f3"]
    );
    assert_eq!(list.get(5), ChessMove::new(3, 1, None, MoveType::Normal));
    assert_eq!(list.get(6), ChessMove::new(3, 1, None, MoveType::Castle));
    assert_eq!(list.len(), 9);
}
