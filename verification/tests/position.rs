use chess_core::bitboard::{BitBoard, PieceType, Side};
use chess_core::chessboard::{cpt_index, cpt_of_index, generate_mailbox, ChessBoard};
use chess_core::chessmove::{ChessMove, MoveType};
use chess_core::display::print_mailbox;
use chess_core::fen::{sym_index, square_index};
use chess_core::setup::{FenError, INITIAL_CHESS_POS_FEN};
use chess_core::tables::AttackTables;
use chess_core::zobrist::{ZorbristHash, ZorbristHashKey, ZH_EXTRA_KEYS, ZH_PIECE_KEYS, ZH_SIDE_KEY};

fn sq(name: &str) -> usize {
    let b = name.as_bytes();
    8 * (b[1] - b'1') as usize + (b'h' - b[0]) as usize
}

fn board(tables: &AttackTables, fen: &str) -> ChessBoard {
    ChessBoard::from_fen(fen, tables).unwrap()
}

fn play(tables: &AttackTables, b: &ChessBoard, text: &str) -> ChessBoard {
    let moves = b.generate_moves(tables).to_vec();
    let m = moves.iter().find(|m| m.print_move() == text).unwrap();
    b.update_state(tables, *m)
}

fn consistent(b: &ChessBoard) {
    // the square map is the map that the piece sets stand for
    assert_eq!(generate_mailbox(b.piece_bbs), b.mailbox);
    for k in 0..12usize {
        for s in 0..64usize {
            let in_set = b.piece_bbs[k].test_bit(s);
            assert_eq!(in_set, b.mailbox[s] == Some(cpt_of_index(k)));
        }
    }
    assert_eq!(ZorbristHash::hash(b), b.current_hash);
    assert_eq!(b.piece_bbs[0].count(), 1);
    assert_eq!(b.piece_bbs[6].count(), 1);
}

#[test]
fn the_pieces_are_numbered_king_queen_knight_bishop_rook_pawn() {
    let kinds = [
        PieceType::King,
        PieceType::Queen,
        PieceType::Knight,
        PieceType::Bishop,
        PieceType::Rook,
        PieceType::Pawn,
    ];
    for (i, k) in kinds.iter().enumerate() {
        assert_eq!(cpt_index((Side::White, *k)), i);
        assert_eq!(cpt_index((Side::Black, *k)), 6 + i);
        assert_eq!(cpt_of_index(i), (Side::White, *k));
        assert_eq!(cpt_of_index(6 + i), (Side::Black, *k));
    }
    for (i, c) in "KQNBRPkqnbrp".chars().enumerate() {
        assert_eq!(sym_index(c), i);
    }
}

#[test]
fn squares_have_names() {
    assert_eq!(square_index("h1"), 0);
    assert_eq!(square_index("a1"), 7);
    assert_eq!(square_index("h2"), 8);
    assert_eq!(square_index("e4"), 27);
    assert_eq!(square_index("a8"), 63);
    assert_eq!(square_index("h8"), 56);
}

#[test]
fn the_starting_position() {
    let tables = AttackTables::new().unwrap();
    let b = ChessBoard::default();
    assert_eq!(b, ChessBoard::start());
    assert_eq!(b.with_checkers(&tables), b);
    assert_eq!(b, board(&tables, INITIAL_CHESS_POS_FEN));
    assert_eq!(b.piece_bbs[0].data, 0b00001000); // white king on e1
    assert_eq!(b.piece_bbs[1].data, 0b00010000);
    assert_eq!(b.piece_bbs[2].data, 0b01000010);
    assert_eq!(b.piece_bbs[3].data, 0b00100100);
    assert_eq!(b.piece_bbs[4].data, 0b10000001);
    assert_eq!(b.piece_bbs[5].data, 0xff00);
    assert_eq!(b.piece_bbs[6].data, 0b00001000 << 56);
    assert_eq!(b.piece_bbs[7].data, 0b00010000 << 56);
    assert_eq!(b.piece_bbs[8].data, 0b01000010 << 56);
    assert_eq!(b.piece_bbs[9].data, 0b00100100 << 56);
    assert_eq!(b.piece_bbs[10].data, 0b10000001 << 56);
    assert_eq!(b.piece_bbs[11].data, 0xff << 48);
    assert_eq!(b.mailbox[sq("e1")], Some((Side::White, PieceType::King)));
    assert_eq!(b.mailbox[sq("d8")], Some((Side::Black, PieceType::Queen)));
    assert_eq!(b.mailbox[sq("e4")], None);
    assert_eq!(b.castle_bools, [true; 4]);
    assert_eq!(b.enpassant_bb, BitBoard::zero());
    assert_eq!(b.check_bb, BitBoard::zero());
    assert_eq!(b.side_to_move, Side::White);
    assert_eq!(b.half_move_clock, 0);
    assert_eq!(b.full_move_counter, 1);
    assert_eq!(b.current_hash, 1544757369275567478);
    assert_eq!(ChessBoard::default(), b);
    assert_eq!(b.const_clone(), b);
    consistent(&b);
}

#[test]
fn occupancy_of_each_side() {
    let tables = AttackTables::new().unwrap();
    let b = ChessBoard::default();
    assert_eq!(b.blockers().data, 0xffff_0000_0000_ffff);
    assert_eq!(b.white_blockers().data, 0xffff);
    assert_eq!(b.black_blockers().data, 0xffff_0000_0000_0000);
}

#[test]
fn the_hash_is_the_exclusive_or_of_the_keys() {
    let tables = AttackTables::new().unwrap();
    // two kings, Black to move, one castling right, an en-passant square
    let b = board(&tables, "4k2r/8/8/8/4P3/8/8/4K3 b k e3 0 1");
    let expected = ZH_SIDE_KEY
        ^ ZH_PIECE_KEYS[sq("e8")][6]
        ^ ZH_PIECE_KEYS[sq("h8")][10]
        ^ ZH_PIECE_KEYS[sq("e4")][5]
        ^ ZH_PIECE_KEYS[sq("e1")][0]
        ^ ZH_EXTRA_KEYS[2]
        ^ ZH_EXTRA_KEYS[4 + 3];
    assert_eq!(b.current_hash, expected);
    assert_eq!(ZorbristHash::hash(&b), expected);
    assert_eq!(
        ZorbristHash::get_piece_hash(sq("e4"), (Side::White, PieceType::Pawn)),
        ZH_PIECE_KEYS[27][5]
    );
    assert_eq!(ZH_PIECE_KEYS[0][0], 11649360378367592562);
    assert_eq!(ZH_PIECE_KEYS[63][11], 1327566141813347118);
    assert_eq!(ZH_EXTRA_KEYS[11], 16770344834736168106);
    assert_eq!(ZH_SIDE_KEY, 8110401300783452258);
    let keys = ZorbristHashKey::new();
    assert_eq!(keys.piece_data, ZH_PIECE_KEYS);
    assert_eq!(keys.extra_data, ZH_EXTRA_KEYS);
    assert_eq!(keys.side_data, ZH_SIDE_KEY);
}

#[test]
fn attacked_squares() {
    let tables = AttackTables::new().unwrap();
    let b = ChessBoard::default();
    assert!(b.is_square_attacked(&tables, sq("e3"), Side::White)); // pawns d2, f2
    assert!(b.is_square_attacked(&tables, sq("f3"), Side::White)); // knight g1
    assert!(b.is_square_attacked(&tables, sq("d2"), Side::White)); // king, queen, ...
    assert!(!b.is_square_attacked(&tables, sq("e4"), Side::White));
    assert!(!b.is_square_attacked(&tables, sq("e3"), Side::Black));
    assert!(b.is_square_attacked(&tables, sq("e6"), Side::Black));
    assert!(!b.king_is_in_check(&tables, Side::White));
    assert!(!b.king_is_in_check(&tables, Side::Black));
    assert_eq!(b.king_pos(Side::White), sq("e1"));
    assert_eq!(b.king_pos(Side::Black), sq("e8"));
    let c = board(&tables, "4k3/8/8/8/8/8/4r3/4K3 w - - 0 1");
    assert!(c.king_is_in_check(&tables, Side::White));
    assert!(!c.king_is_in_check(&tables, Side::Black));
    assert_eq!(c.check_bb.data, 1 << sq("e2"));
    assert_eq!(c.compute_checkers(&tables), c.check_bb);
}

#[test]
fn pins() {
    let tables = AttackTables::new().unwrap();
    // the knight on e2 is pinned by the rook on e8, the pawn on d2 is not
    let b = board(&tables, "4r1k1/8/8/8/8/8/3PN3/4K3 w - - 0 1");
    assert!(b.piece_is_pinned(&tables, sq("e2")));
    assert!(!b.piece_is_pinned(&tables, sq("d2")));
    let line = (1u64 << sq("e2")) | (1 << sq("e3")) | (1 << sq("e4")) | (1 << sq("e5"))
        | (1 << sq("e6")) | (1 << sq("e7")) | (1 << sq("e8"));
    assert_eq!(b.pin_lines_of(&tables, sq("e2")).data, line);
    assert_eq!(b.pin_mask_of(&tables, sq("e2")).data, line);
    assert_eq!(b.pin_mask_of(&tables, sq("d2")).data, u64::MAX);
    // a second piece on the line unpins
    let c = board(&tables, "4r1k1/8/8/8/4P3/8/4N3/4K3 w - - 0 1");
    assert!(!c.piece_is_pinned(&tables, sq("e2")));
    assert!(!c.piece_is_pinned(&tables, sq("e4")));
    // a bishop does not pin along a file
    let d = board(&tables, "4b1k1/8/8/8/8/8/4N3/4K3 w - - 0 1");
    assert!(!d.piece_is_pinned(&tables, sq("e2")));
}

#[test]
fn check_masks() {
    let tables = AttackTables::new().unwrap();
    let free = ChessBoard::default();
    assert_eq!(free.check_mask_of(&tables).data, u64::MAX);
    let single = board(&tables, "4r1k1/8/8/8/8/8/8/4K3 w - - 0 1");
    let line = (1u64 << sq("e2")) | (1 << sq("e3")) | (1 << sq("e4")) | (1 << sq("e5"))
        | (1 << sq("e6")) | (1 << sq("e7")) | (1 << sq("e8"));
    assert_eq!(single.check_mask_of(&tables).data, line);
    let knight = board(&tables, "6k1/8/8/8/8/3n4/8/4K3 w - - 0 1");
    assert_eq!(knight.check_mask_of(&tables).data, 1 << sq("d3"));
    let double = board(&tables, "4r1k1/8/8/8/8/3n4/8/4K3 w - - 0 1");
    assert_eq!(double.check_bb.count(), 2);
    assert_eq!(double.check_mask_of(&tables).data, 0);
}

#[test]
fn a_double_step_sets_the_en_passant_square() {
    let tables = AttackTables::new().unwrap();
    let b = ChessBoard::default();
    let c = play(&tables, &b, "e2e4");
    assert_eq!(c.enpassant_bb.data, 1 << sq("e3"));
    assert_eq!(c.side_to_move, Side::Black);
    assert_eq!(c.mailbox[sq("e2")], None);
    assert_eq!(c.mailbox[sq("e4")], Some((Side::White, PieceType::Pawn)));
    assert_eq!(c.half_move_clock, 0);
    assert_eq!(c.full_move_counter, 1);
    consistent(&c);
    let d = play(&tables, &c, "g8f6");
    assert_eq!(d.enpassant_bb.data, 0);
    assert_eq!(d.half_move_clock, 1);
    assert_eq!(d.full_move_counter, 2);
    assert_eq!(d.side_to_move, Side::White);
    consistent(&d);
    let e = play(&tables, &d, "e4e5");
    let f = play(&tables, &e, "d7d5");
    assert_eq!(f.enpassant_bb.data, 1 << sq("d6"));
    assert_eq!(f, board(&tables, "rnbqkb1r/ppp1pppp/5n2/3pP3/8/8/PPPP1PPP/RNBQKBNR w KQkq d6 0 3"));
}

#[test]
fn an_en_passant_capture_removes_the_pawn_behind_the_target() {
    let tables = AttackTables::new().unwrap();
    let b = board(&tables, "rnbqkb1r/ppp1pppp/5n2/3pP3/8/8/PPPP1PPP/RNBQKBNR w KQkq d6 0 3");
    let moves = b.generate_moves(&tables).to_vec();
    let ep = ChessMove::new(sq("e5"), sq("d6"), None, MoveType::EnPassant);
    assert!(moves.contains(&ep));
    let c = b.update_state(&tables, ep);
    assert_eq!(c.mailbox[sq("d6")], Some((Side::White, PieceType::Pawn)));
    assert_eq!(c.mailbox[sq("d5")], None);
    assert_eq!(c.mailbox[sq("e5")], None);
    assert_eq!(c.half_move_clock, 0);
    assert_eq!(c, board(&tables, "rnbqkb1r/ppp1pppp/3P1n2/8/8/8/PPPP1PPP/RNBQKBNR b KQkq - 0 3"));
    consistent(&c);
}

#[test]
fn castling_moves_the_rook_and_drops_both_rights() {
    let tables = AttackTables::new().unwrap();
    let b = board(&tables, "r3k2r/8/8/8/8/8/8/R3K2R w KQkq - 0 1");
    let short = play(&tables, &b, "e1g1");
    assert_eq!(short, board(&tables, "r3k2r/8/8/8/8/8/8/R4RK1 b kq - 1 1"));
    assert_eq!(short.mailbox[1], Some((Side::White, PieceType::King)));
    assert_eq!(short.mailbox[2], Some((Side::White, PieceType::Rook)));
    consistent(&short);
    let long = play(&tables, &b, "e1c1");
    assert_eq!(long, board(&tables, "r3k2r/8/8/8/8/8/8/2KR3R b kq - 1 1"));
    assert_eq!(long.mailbox[5], Some((Side::White, PieceType::King)));
    assert_eq!(long.mailbox[4], Some((Side::White, PieceType::Rook)));
    consistent(&long);
    let black = board(&tables, "r3k2r/8/8/8/8/8/8/R3K2R b KQkq - 0 1");
    let black_short = play(&tables, &black, "e8g8");
    assert_eq!(black_short, board(&tables, "r4rk1/8/8/8/8/8/8/R3K2R w KQ - 1 2"));
    assert_eq!(black_short.mailbox[57], Some((Side::Black, PieceType::King)));
    assert_eq!(black_short.mailbox[58], Some((Side::Black, PieceType::Rook)));
    let black_long = play(&tables, &black, "e8c8");
    assert_eq!(black_long, board(&tables, "2kr3r/8/8/8/8/8/8/R3K2R w KQ - 1 2"));
    assert_eq!(black_long.mailbox[61], Some((Side::Black, PieceType::King)));
    assert_eq!(black_long.mailbox[60], Some((Side::Black, PieceType::Rook)));
    consistent(&black_long);
}

#[test]
fn rook_and_king_moves_and_rook_captures_drop_rights() {
    let tables = AttackTables::new().unwrap();
    let b = board(&tables, "r3k2r/8/8/8/8/8/8/R3K2R w KQkq - 0 1");
    assert_eq!(play(&tables, &b, "h1h2").castle_bools, [false, true, true, true]);
    assert_eq!(play(&tables, &b, "a1a2").castle_bools, [true, false, true, true]);
    assert_eq!(play(&tables, &b, "e1e2").castle_bools, [false, false, true, true]);
    // the rook takes the rook on its corner: both sides lose that right
    assert_eq!(play(&tables, &b, "h1h8").castle_bools, [false, true, false, true]);
    assert_eq!(play(&tables, &b, "a1a8").castle_bools, [true, false, true, false]);
    let c = play(&tables, &b, "e1e2");
    assert_eq!(play(&tables, &c, "e8d8").castle_bools, [false, false, false, false]);
    // a promotion that takes a rook on its corner drops the right as well
    let d = board(&tables, "r3k2r/1P6/8/8/8/8/8/4K3 w kq - 0 1");
    assert_eq!(play(&tables, &d, "b7a8q").castle_bools, [false, false, true, false]);
    assert_eq!(play(&tables, &d, "b7b8q").castle_bools, [false, false, true, true]);
}

#[test]
fn a_promotion_replaces_the_pawn() {
    let tables = AttackTables::new().unwrap();
    let b = board(&tables, "1n2k3/P7/8/8/8/8/8/4K3 w - - 5 9");
    let q = play(&tables, &b, "a7a8q");
    assert_eq!(q, board(&tables, "Qn2k3/8/8/8/8/8/8/4K3 b - - 0 9"));
    let n = play(&tables, &b, "a7b8n");
    assert_eq!(n, board(&tables, "1N2k3/8/8/8/8/8/8/4K3 b - - 0 9"));
    let r = play(&tables, &b, "a7a8r");
    assert_eq!(r.mailbox[63], Some((Side::White, PieceType::Rook)));
    let bishop = play(&tables, &b, "a7a8b");
    assert_eq!(bishop.mailbox[63], Some((Side::White, PieceType::Bishop)));
    consistent(&q);
    consistent(&n);
}

#[test]
fn the_half_move_clock_starts_again_after_a_pawn_move_or_a_capture() {
    let tables = AttackTables::new().unwrap();
    let b = board(&tables, "4k3/8/8/3p4/8/2N5/4P3/4K3 w - - 7 20");
    assert_eq!(play(&tables, &b, "c3b1").half_move_clock, 8);
    assert_eq!(play(&tables, &b, "c3d5").half_move_clock, 0);
    assert_eq!(play(&tables, &b, "e2e3").half_move_clock, 0);
    assert_eq!(play(&tables, &b, "e1d1").half_move_clock, 8);
    assert_eq!(play(&tables, &b, "e1d1").full_move_counter, 20);
    let c = play(&tables, &b, "e1d1");
    assert_eq!(play(&tables, &c, "e8e7").full_move_counter, 21);
    assert_eq!(play(&tables, &c, "e8e7").half_move_clock, 9);
}

#[test]
fn the_counters_stop_at_the_top_of_their_range() {
    let tables = AttackTables::new().unwrap();
    let mut b = board(&tables, "4k3/8/8/8/8/8/8/4K3 b - - 0 1");
    b.half_move_clock = usize::MAX;
    b.full_move_counter = usize::MAX;
    let c = play(&tables, &b, "e8e7");
    assert_eq!(c.half_move_clock, usize::MAX);
    assert_eq!(c.full_move_counter, usize::MAX);
}

#[test]
fn the_move_that_gives_check_fills_the_set_of_checking_pieces() {
    let tables = AttackTables::new().unwrap();
    let b = board(&tables, "4k3/8/8/8/8/8/8/R3K3 w - - 0 1");
    let c = play(&tables, &b, "a1a8");
    assert_eq!(c.check_bb.data, 1 << sq("a8"));
    let d = play(&tables, &b, "a1a7");
    assert_eq!(d.check_bb.data, 0);
    // a discovered double check
    let e = board(&tables, "4k3/8/8/8/8/4N3/8/4RK2 w - - 0 1");
    let f = play(&tables, &e, "e3d5");
    assert_eq!(f.check_bb.data, 1 << sq("e1"));
    let g = play(&tables, &e, "e3g4");
    assert_eq!(g.check_bb.data, 1 << sq("e1"));
    let h = board(&tables, "4k3/8/8/8/8/8/4N3/4RK2 w - - 0 1");
    let i = play(&tables, &h, "e2g3");
    assert_eq!(i.check_bb.data, 1 << sq("e1"));
    let j = board(&tables, "4k3/6N1/8/8/8/8/8/4RK2 b - - 0 1");
    assert_eq!(j.check_bb.count(), 2);
}

#[test]
fn with_checkers_computes_the_checking_pieces_anew() {
    let tables = AttackTables::new().unwrap();
    let mut b = board(&tables, "4k3/8/8/8/8/8/4r3/4K3 w - - 0 1");
    let right = b.check_bb;
    b.check_bb = BitBoard::zero();
    assert_eq!(b.with_checkers(&tables).check_bb, right);
}

#[test]
fn the_board_prints_rank_eight_first() {
    let tables = AttackTables::new().unwrap();
    let b = ChessBoard::default();
    let expected = "\u{2656}\u{2658}\u{2657}\u{2655}\u{2654}\u{2657}\u{2658}\u{2656}\n\
                    \u{2659}\u{2659}\u{2659}\u{2659}\u{2659}\u{2659}\u{2659}\u{2659}\n\
                    ........\n........\n........\n........\n\
                    \u{265F}\u{265F}\u{265F}\u{265F}\u{265F}\u{265F}\u{265F}\u{265F}\n\
                    \u{265C}\u{265E}\u{265D}\u{265B}\u{265A}\u{265D}\u{265E}\u{265C}\n";
    assert_eq!(print_mailbox(b.mailbox), expected);
    assert_eq!(b.render(), expected);
    let ascii = chess_core::display::print_grid(&b.mailbox, false);
    assert_eq!(
        ascii,
        "rnbqkbnr\npppppppp\n........\n........\n........\n........\nPPPPPPPP\nRNBQKBNR\n"
    );
}

#[test]
fn fen_errors() {
    let tables = AttackTables::new().unwrap();
    let err = |s: &str| ChessBoard::from_fen(s, &tables).unwrap_err();
    assert_eq!(err(""), FenError::FieldCount);
    assert_eq!(err("8/8/8/8/8/8/8/8 w - - 0"), FenError::FieldCount);
    assert_eq!(err("4k3/8/8/8/8/8/8/4K3 w - - 0 1 extra"), FenError::FieldCount);
    assert_eq!(err("4k3/8/8/8/8/8/8/4K2 w - - 0 1"), FenError::Placement);
    assert_eq!(err("4k3/8/8/8/8/8/8/4K4 w - - 0 1"), FenError::Placement);
    assert_eq!(err("4k3/8/8/8/8/8/8 w - - 0 1"), FenError::Placement);
    assert_eq!(err("4k3/8/8/8/8/8/8/4K3/ w - - 0 1"), FenError::Placement);
    assert_eq!(err("4k3//8/8/8/8/8/8/4K3 w - - 0 1"), FenError::Placement);
    assert_eq!(err("4k3/8/8/8/8/8/8/4X3 w - - 0 1"), FenError::Placement);
    assert_eq!(err("4k38/8/8/8/8/8/8/4K3 w - - 0 1"), FenError::Placement);
    assert_eq!(err("4k3/8/8/8/8/8/8/4K3 x - - 0 1"), FenError::ActiveSide);
    assert_eq!(err("4k3/8/8/8/8/8/8/4K3 white - - 0 1"), FenError::ActiveSide);
    assert_eq!(err("4k3/8/8/8/8/8/8/4K3 w KX - 0 1"), FenError::Castling);
    assert_eq!(err("4k3/8/8/8/8/8/8/4K3 w -- - 0 1"), FenError::Castling);
    assert_eq!(err("4k3/8/8/8/8/8/8/4K3 w - e9 0 1"), FenError::EnPassant);
    assert_eq!(err("4k3/8/8/8/8/8/8/4K3 w - i3 0 1"), FenError::EnPassant);
    assert_eq!(err("4k3/8/8/8/8/8/8/4K3 w - e 0 1"), FenError::EnPassant);
    assert_eq!(err("4k3/8/8/8/8/8/8/4K3 w - - x 1"), FenError::Counter);
    assert_eq!(err("4k3/8/8/8/8/8/8/4K3 w - - 0 -1"), FenError::Counter);
    assert_eq!(
        err("4k3/8/8/8/8/8/8/4K3 w - - 0 99999999999999999999999999"),
        FenError::Counter
    );
    assert_eq!(err("8/8/8/8/8/8/8/4K3 w - - 0 1"), FenError::Kings);
    assert_eq!(err("4k3/8/8/8/8/8/8/3KK3 w - - 0 1"), FenError::Kings);
    assert_eq!(err("8/8/8/8/8/8/4k3/4K3 w - - 0 1"), FenError::Kings);
    assert_eq!(err("4k2P/8/8/8/8/8/8/4K3 w - - 0 1"), FenError::Pawns);
    assert_eq!(err("4k3/8/8/8/8/8/8/p3K3 w - - 0 1"), FenError::Pawns);
    assert_eq!(err("4k3/8/8/8/8/8/8/4K3 w K - 0 1"), FenError::CastlingRights);
    assert_eq!(err("4k2r/8/8/8/8/8/8/4K2R w q - 0 1"), FenError::CastlingRights);
    assert_eq!(err("r2k3r/8/8/8/8/8/8/4K3 w kq - 0 1"), FenError::CastlingRights);
    // no pawn has just passed over e3
    assert_eq!(err("4k3/8/8/8/8/8/8/4K3 b - e3 0 1"), FenError::EnPassant);
    // the pawn is there, but it is White's move
    assert_eq!(err("4k3/8/8/8/4P3/8/8/4K3 w - e3 0 1"), FenError::EnPassant);
    // the square is not empty
    assert_eq!(err("4k3/8/8/8/4P3/4N3/8/4K3 b - e3 0 1"), FenError::EnPassant);
}

#[test]
fn fen_fields_are_read() {
    let tables = AttackTables::new().unwrap();
    let b = board(&tables, "  r3k2r/8/8/3pP3/8/8/8/R3K2R \t w  Kq d6 12 \n 34 ");
    assert_eq!(b.side_to_move, Side::White);
    assert_eq!(b.castle_bools, [true, false, false, true]);
    assert_eq!(b.enpassant_bb.data, 1 << sq("d6"));
    assert_eq!(b.half_move_clock, 12);
    assert_eq!(b.full_move_counter, 34);
    assert_eq!(b.mailbox[sq("a8")], Some((Side::Black, PieceType::Rook)));
    assert_eq!(b.mailbox[sq("h1")], Some((Side::White, PieceType::Rook)));
    assert_eq!(b.mailbox[sq("e5")], Some((Side::White, PieceType::Pawn)));
    assert_eq!(b.mailbox[sq("d5")], Some((Side::Black, PieceType::Pawn)));
    assert_eq!(b.mailbox[sq("e4")], None);
    consistent(&b);
    let c = board(&tables, "4k3/8/8/8/8/8/8/4K3 b - - 007 0");
    assert_eq!(c.side_to_move, Side::Black);
    assert_eq!(c.half_move_clock, 7);
    assert_eq!(c.full_move_counter, 0);
    assert_eq!(c.castle_bools, [false; 4]);
    let parts = ChessBoard::from_parts(
        &tables,
        c.mailbox,
        [false; 4],
        None,
        Side::Black,
        7,
        0,
    );
    assert_eq!(parts, Ok(c));
    assert_eq!(
        ChessBoard::from_fen_bytes(b"4k3/8/8/8/8/8/8/4K3 b - - 7 0", &tables),
        Ok(c)
    );
}
