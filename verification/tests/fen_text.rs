use chess_core::bitboard::{BitBoard, PieceType, Side};
use chess_core::chessboard::ChessBoard;
use chess_core::fen::{
    letter_piece, parse_castling, parse_counter, parse_ep, parse_placement, split_fields,
};
use chess_core::fen_text::{
    piece_letter, push_castling, push_decimal, push_ep, push_placement, push_side,
};
use chess_core::setup::{find_fault, find_king, initial_mailbox, kings_touch, sets_of_mailbox, FenError, INITIAL_CHESS_POS_FEN};
use chess_core::tables::AttackTables;

const TEXTS: [&str; 9] = [
    "rnbqkbnr/pppppppp/8/8/8/8/PPPPPPPP/RNBQKBNR w KQkq - 0 1",
    "r3k2r/p1ppqpb1/bn2pnp1/3PN3/1p2P3/2N2Q1p/PPPBBPPP/R3K2R w KQkq - 0 1",
    "8/2p5/3p4/KP5r/1R3p1k/8/4P1P1/8 w - - 0 1",
    "r3k2r/Pppp1ppp/1b3nbN/nP6/BBP1P3/q4N2/Pp1P2PP/R2Q1RK1 w kq - 0 1",
    "rnbq1k1r/pp1Pbppp/2p5/8/2B5/8/PPP1NnPP/RNBQK2R w KQ - 1 8",
    "rnbqkb1r/ppp1pppp/5n2/3pP3/8/8/PPPP1PPP/RNBQKBNR w KQkq d6 0 3",
    "rnbqkbnr/pppppppp/8/8/3P4/8/PPP1PPPP/RNBQKBNR b KQkq d3 0 1",
    "4k3/8/8/8/8/8/8/4K2R b K - 120 4000",
    "7k/8/8/8/8/8/8/K7 w - - 18446744073709551615 0",
];

#[test]
fn the_text_of_a_position_reads_back_as_the_position() {
    let tables = AttackTables::new().unwrap();
    for text in TEXTS {
        let b = ChessBoard::from_fen(text, &tables).unwrap();
        assert_eq!(b.to_fen(), text);
        assert_eq!(b.to_fen_bytes(), text.as_bytes().to_vec());
        assert_eq!(ChessBoard::from_fen(&b.to_fen(), &tables), Ok(b));
        assert_eq!(ChessBoard::from_fen_bytes(&b.to_fen_bytes(), &tables), Ok(b));
        for m in b.generate_moves(&tables).to_vec() {
            let c = b.update_state(&tables, m);
            let printed = c.to_fen();
            let read = ChessBoard::from_fen(&printed, &tables).unwrap();
            assert_eq!(read, c);
            assert_eq!(read.to_fen(), printed);
        }
    }
    assert_eq!(ChessBoard::default().to_fen(), INITIAL_CHESS_POS_FEN);
    assert_eq!(ChessBoard::start().to_fen(), INITIAL_CHESS_POS_FEN);
}

#[test]
fn the_text_is_normalised() {
    let tables = AttackTables::new().unwrap();
    let b = ChessBoard::from_fen("  4k3/8/8/44/8/8/8/4K2R \t w  K  -  007 09 ", &tables).unwrap();
    assert_eq!(b.to_fen(), "4k3/8/8/8/8/8/8/4K2R w K - 7 9");
    let c = ChessBoard::from_fen("r3k2r/8/8/8/8/8/8/R3K2R b qkQK - 0 1", &tables).unwrap();
    assert_eq!(c.to_fen(), "r3k2r/8/8/8/8/8/8/R3K2R b KQkq - 0 1");
}

#[test]
fn the_fields_are_written_one_by_one() {
    let mut out = Vec::new();
    push_decimal(&mut out, 0);
    assert_eq!(out, b"0".to_vec());
    push_decimal(&mut out, 10);
    push_decimal(&mut out, 12345);
    assert_eq!(out, b"01012345".to_vec());
    let mut big = Vec::new();
    push_decimal(&mut big, usize::MAX);
    assert_eq!(big, usize::MAX.to_string().into_bytes());
    let mut c = b"x".to_vec();
    push_castling(&mut c, &[false; 4]);
    push_castling(&mut c, &[true, false, false, true]);
    push_castling(&mut c, &[true; 4]);
    assert_eq!(c, b"x-KqKQkq".to_vec());
    let mut e = Vec::new();
    push_ep(&mut e, BitBoard::zero());
    push_ep(&mut e, BitBoard::nth(19));
    push_ep(&mut e, BitBoard::nth(47));
    push_ep(&mut e, BitBoard::nth(40));
    assert_eq!(e, b"-e3a6h6".to_vec());
    let mut s = Vec::new();
    push_side(&mut s, Side::White);
    push_side(&mut s, Side::Black);
    assert_eq!(s, b" w  b ".to_vec());
    let mut p = Vec::new();
    push_placement(&mut p, &initial_mailbox());
    assert_eq!(p, b"rnbqkbnr/pppppppp/8/8/8/8/PPPPPPPP/RNBQKBNR".to_vec());
    let mut q = Vec::new();
    push_placement(&mut q, &[None; 64]);
    assert_eq!(q, b"8/8/8/8/8/8/8/8".to_vec());
    for (letter, piece) in [
        (b'K', (Side::White, PieceType::King)),
        (b'Q', (Side::White, PieceType::Queen)),
        (b'N', (Side::White, PieceType::Knight)),
        (b'B', (Side::White, PieceType::Bishop)),
        (b'R', (Side::White, PieceType::Rook)),
        (b'P', (Side::White, PieceType::Pawn)),
        (b'k', (Side::Black, PieceType::King)),
        (b'q', (Side::Black, PieceType::Queen)),
        (b'n', (Side::Black, PieceType::Knight)),
        (b'b', (Side::Black, PieceType::Bishop)),
        (b'r', (Side::Black, PieceType::Rook)),
        (b'p', (Side::Black, PieceType::Pawn)),
    ] {
        assert_eq!(piece_letter(piece), letter);
        assert_eq!(letter_piece(letter), Some(piece));
    }
    assert_eq!(letter_piece(b'x'), None);
    assert_eq!(letter_piece(b'1'), None);
}

#[test]
fn the_fields_are_read_one_by_one() {
    assert_eq!(
        split_fields(b"  ab c\t\td \n e\r\x0cf "),
        vec![b"ab".to_vec(), b"c".to_vec(), b"d".to_vec(), b"e".to_vec(), b"f".to_vec()]
    );
    assert_eq!(split_fields(b""), Vec::<Vec<u8>>::new());
    assert_eq!(split_fields(b"   "), Vec::<Vec<u8>>::new());
    // a vertical tab is no white space
    assert_eq!(split_fields(b"a\x0bb"), vec![b"a\x0bb".to_vec()]);
    assert_eq!(parse_counter(b"0"), Some(0));
    assert_eq!(parse_counter(b"0042"), Some(42));
    assert_eq!(parse_counter(b"18446744073709551615"), Some(usize::MAX));
    assert_eq!(parse_counter(b"18446744073709551616"), None);
    assert_eq!(parse_counter(b""), None);
    assert_eq!(parse_counter(b"4 2"), None);
    assert_eq!(parse_counter(b"+1"), None);
    assert_eq!(parse_castling(b"-"), Some([false; 4]));
    assert_eq!(parse_castling(b"KQkq"), Some([true; 4]));
    assert_eq!(parse_castling(b"qK"), Some([true, false, false, true]));
    assert_eq!(parse_castling(b"kk"), Some([false, false, true, false]));
    assert_eq!(parse_castling(b""), None);
    assert_eq!(parse_castling(b"K-"), None);
    assert_eq!(parse_ep(b"-"), Some(None));
    assert_eq!(parse_ep(b"e3"), Some(Some(19)));
    assert_eq!(parse_ep(b"a8"), Some(Some(63)));
    assert_eq!(parse_ep(b"h1"), Some(Some(0)));
    assert_eq!(parse_ep(b"E3"), None);
    assert_eq!(parse_ep(b"e0"), None);
    assert_eq!(parse_ep(b"e33"), None);
    assert_eq!(parse_placement(b"8/8/8/8/8/8/8/8"), Some([None; 64]));
    assert_eq!(
        parse_placement(b"rnbqkbnr/pppppppp/8/8/8/8/PPPPPPPP/RNBQKBNR"),
        Some(initial_mailbox())
    );
    assert_eq!(parse_placement(b"8/8/8/8/8/8/8/7"), None);
    assert_eq!(parse_placement(b"8/8/8/8/8/8/8/9"), None);
    assert_eq!(parse_placement(b"/8/8/8/8/8/8/8/8"), None);
    let one = parse_placement(b"7k/8/8/8/8/8/8/K7").unwrap();
    assert_eq!(one[56], Some((Side::Black, PieceType::King)));
    assert_eq!(one[7], Some((Side::White, PieceType::King)));
    assert_eq!(one.iter().filter(|e| e.is_some()).count(), 2);
}

#[test]
fn the_parts_of_a_position_are_checked() {
    let start = initial_mailbox();
    assert_eq!(find_king(&start, Side::White), Some(3));
    assert_eq!(find_king(&start, Side::Black), Some(59));
    assert_eq!(find_king(&[None; 64], Side::White), None);
    let mut two = start;
    two[27] = Some((Side::White, PieceType::King));
    assert_eq!(find_king(&two, Side::White), None);
    assert!(kings_touch(3, 4));
    assert!(kings_touch(3, 12));
    assert!(!kings_touch(3, 3));
    assert!(!kings_touch(3, 5));
    assert!(!kings_touch(7, 8)); // a1 and h2 are neighbours in number only
    assert_eq!(find_fault(&start, &[true; 4], None, Side::White), None);
    assert_eq!(find_fault(&two, &[true; 4], None, Side::White), Some(FenError::Kings));
    assert_eq!(find_fault(&start, &[true; 4], Some(19), Side::Black), Some(FenError::EnPassant));
    assert_eq!(find_fault(&start, &[true; 4], Some(64), Side::Black), Some(FenError::EnPassant));
    let mut moved = start;
    moved[0] = None;
    assert_eq!(find_fault(&moved, &[true; 4], None, Side::White), Some(FenError::CastlingRights));
    assert_eq!(find_fault(&moved, &[false, true, true, true], None, Side::White), None);
    let mut pawn = start;
    pawn[1] = Some((Side::Black, PieceType::Pawn));
    assert_eq!(find_fault(&pawn, &[true; 4], None, Side::White), Some(FenError::Pawns));
    let sets = sets_of_mailbox(&start);
    assert_eq!(sets[0].data, 0b1000);
    assert_eq!(sets[5].data, 0xff00);
    assert_eq!(sets[11].data, 0xff << 48);
    assert_eq!(sets[10].data, 0b10000001 << 56);
}
