use chess_core::bitboard::{PieceType, Side};
use chess_core::chessboard::{generate_mailbox, ChessBoard};
use chess_core::chessmove::{ChessMove, MoveType};
use chess_core::search::MAX_DEPTH;
use chess_core::setup::FenError;
use chess_core::tables::AttackTables;
use chess_core::uci::{parse_uci_command, pick_move, same_bytes, GoError, UciCommand};
use chess_core::zobrist::ZorbristHash;

fn sq(name: &str) -> usize {
    let b = name.as_bytes();
    8 * (b[1] - b'1') as usize + (b'h' - b[0]) as usize
}

fn board(tables: &AttackTables, fen: &str) -> ChessBoard {
    ChessBoard::from_fen(fen, tables).unwrap()
}

fn texts(tables: &AttackTables, b: &ChessBoard) -> Vec<String> {
    let mut v: Vec<String> = b.generate_moves(tables).to_vec().iter().map(|m| m.print_move()).collect();
    v.sort();
    v
}

const POSITIONS: [&str; 8] = [
    "rnbqkbnr/pppppppp/8/8/8/8/PPPPPPPP/RNBQKBNR w KQkq - 0 1",
    "r3k2r/p1ppqpb1/bn2pnp1/3PN3/1p2P3/2N2Q1p/PPPBBPPP/R3K2R w KQkq - 0 1",
    "8/2p5/3p4/KP5r/1R3p1k/8/4P1P1/8 w - - 0 1",
    "r3k2r/Pppp1ppp/1b3nbN/nP6/BBP1P3/q4N2/Pp1P2PP/R2Q1RK1 w kq - 0 1",
    "rnbq1k1r/pp1Pbppp/2p5/8/2B5/8/PPP1NnPP/RNBQK2R w KQ - 1 8",
    "r3k2r/p1ppqpb1/bn2pnp1/3PN3/1p2P3/2N2Q1p/PPPBBPPP/R3K2R b KQkq - 0 1",
    "4k3/8/8/8/8/3n4/8/4RK2 b - - 0 1",
    "8/8/8/2k5/3Pp3/8/8/4K2B b - d3 0 1",
];

#[test]
fn the_generator_orders_king_queen_knight_bishop_rook_pawn() {
    let tables = AttackTables::new().unwrap();
    let b = ChessBoard::default();
    let moves: Vec<String> = b.generate_moves(&tables).to_vec().iter().map(|m| m.print_move()).collect();
    assert_eq!(
        moves,
        vec![
            "g1h3", "g1f3", "b1c3", "b1a3", "h2h3", "h2h4", "g2g3", "g2g4", "f2f3", "f2f4",
            "e2e3", "e2e4", "d2d3", "d2d4", "c2c3", "c2c4", "b2b3", "b2b4", "a2a3", "a2a4",
        ]
    );
}

#[test]
fn castling_needs_empty_and_safe_squares() {
    let tables = AttackTables::new().unwrap();
    let both = board(&tables, "r3k2r/8/8/8/8/8/8/R3K2R w KQkq - 0 1");
    let m = both.generate_moves(&tables).to_vec();
    assert!(m.contains(&ChessMove::new(3, 1, None, MoveType::Castle)));
    assert!(m.contains(&ChessMove::new(3, 5, None, MoveType::Castle)));
    // castling comes first
    assert_eq!(m[0], ChessMove::new(3, 1, None, MoveType::Castle));
    assert_eq!(m[1], ChessMove::new(3, 5, None, MoveType::Castle));
    // a rook on f8 attacks f1: no short castling
    let f = board(&tables, "r3kr2/8/8/8/8/8/8/R3K2R w KQq - 0 1");
    let m = texts(&tables, &f);
    assert!(!m.contains(&"e1g1".to_string()));
    assert!(m.contains(&"e1c1".to_string()));
    // a rook on b8 attacks b1 only: long castling stays legal
    let bfile = board(&tables, "1r2k2r/8/8/8/8/8/8/R3K2R w KQk - 0 1");
    assert!(texts(&tables, &bfile).contains(&"e1c1".to_string()));
    // a rook on d8 attacks d1: no long castling
    let d = board(&tables, "3rk2r/8/8/8/8/8/8/R3K2R w KQk - 0 1");
    let m = texts(&tables, &d);
    assert!(!m.contains(&"e1c1".to_string()));
    assert!(m.contains(&"e1g1".to_string()));
    // no castling out of check
    let check = board(&tables, "r3k2r/8/8/8/8/8/4r3/R3K2R w KQkq - 0 1");
    let m = texts(&tables, &check);
    assert!(!m.contains(&"e1g1".to_string()));
    assert!(!m.contains(&"e1c1".to_string()));
    // a piece in between
    let blocked = board(&tables, "r3k2r/8/8/8/8/8/8/RN2K1NR w KQkq - 0 1");
    let m = texts(&tables, &blocked);
    assert!(!m.contains(&"e1g1".to_string()));
    assert!(!m.contains(&"e1c1".to_string()));
    // without the right
    let none = board(&tables, "r3k2r/8/8/8/8/8/8/R3K2R w kq - 0 1");
    let m = texts(&tables, &none);
    assert!(!m.contains(&"e1g1".to_string()));
    assert!(!m.contains(&"e1c1".to_string()));
    // Black
    let black = board(&tables, "r3k2r/8/8/8/8/8/8/R3K2R b KQkq - 0 1");
    let m = black.generate_moves(&tables).to_vec();
    assert_eq!(m[0], ChessMove::new(59, 57, None, MoveType::Castle));
    assert_eq!(m[1], ChessMove::new(59, 61, None, MoveType::Castle));
}

#[test]
fn a_pinned_piece_stays_on_its_line() {
    let tables = AttackTables::new().unwrap();
    // rook e2 pinned by rook e8: it moves along the e-file only
    let b = board(&tables, "4r1k1/8/8/8/8/8/4R3/4K3 w - - 0 1");
    let m = texts(&tables, &b);
    let rook: Vec<&String> = m.iter().filter(|t| t.starts_with("e2")).collect();
    assert_eq!(rook, vec!["e2e3", "e2e4", "e2e5", "e2e6", "e2e7", "e2e8"]);
    // a pinned knight has no move
    let n = board(&tables, "4r1k1/8/8/8/8/8/4N3/4K3 w - - 0 1");
    assert!(texts(&tables, &n).iter().all(|t| !t.starts_with("e2")));
    // a pawn pinned along its file may push, a pawn pinned along a diagonal may not
    let p = board(&tables, "4r1k1/8/8/8/8/8/4P3/4K3 w - - 0 1");
    let m = texts(&tables, &p);
    assert!(m.contains(&"e2e3".to_string()));
    assert!(m.contains(&"e2e4".to_string()));
    let d = board(&tables, "6k1/8/8/8/7b/8/5P2/4K3 w - - 0 1");
    assert!(texts(&tables, &d).iter().all(|t| !t.starts_with("f2")));
    // ... but it may take the pinner
    let x = board(&tables, "6k1/8/8/8/8/6b1/5P2/4K3 w - - 0 1");
    let m = texts(&tables, &x);
    let pawn: Vec<&String> = m.iter().filter(|t| t.starts_with("f2")).collect();
    assert_eq!(pawn, vec!["f2g3"]);
}

#[test]
fn a_check_must_be_answered() {
    let tables = AttackTables::new().unwrap();
    // single check by a rook: king steps, blocks, capture
    let b = board(&tables, "4r1k1/8/8/8/8/8/3Q4/3RK3 w - - 0 1");
    assert_eq!(texts(&tables, &b), vec!["d2e2", "d2e3", "e1f1", "e1f2"]);
    // double check: the king alone moves
    let d = board(&tables, "4r1k1/8/8/8/8/3n4/3Q4/4K3 w - - 0 1");
    assert!(texts(&tables, &d).iter().all(|t| t.starts_with("e1")));
    assert_eq!(texts(&tables, &d), vec!["e1d1", "e1f1"]);
    // the king may not step back along the line of the checking rook
    let k = board(&tables, "4r1k1/8/8/8/8/8/4K3/8 w - - 0 1");
    assert!(!texts(&tables, &k).contains(&"e2e1".to_string()));
    assert!(!texts(&tables, &k).contains(&"e2e3".to_string()));
    // checkmate and stalemate: no move
    let mate = board(&tables, "R5k1/5ppp/8/8/8/8/8/4K3 b - - 0 1");
    assert_eq!(mate.generate_moves(&tables).len(), 0);
    assert!(mate.check_bb.data != 0);
    let stale = board(&tables, "7k/5Q2/6K1/8/8/8/8/8 b - - 0 1");
    assert_eq!(stale.generate_moves(&tables).len(), 0);
    assert_eq!(stale.check_bb.data, 0);
}

#[test]
fn en_passant_must_not_uncover_the_king() {
    let tables = AttackTables::new().unwrap();
    // both pawns leave the fifth rank: the rook would see the king
    let b = board(&tables, "8/8/8/K2Pp2r/8/8/8/4k3 w - e6 0 1");
    assert!(!texts(&tables, &b).contains(&"d5e6".to_string()));
    // without the rook the capture is legal
    let c = board(&tables, "8/8/8/K2Pp3/8/8/8/4k3 w - e6 0 1");
    assert!(texts(&tables, &c).contains(&"d5e6".to_string()));
    assert!(c
        .generate_moves(&tables)
        .to_vec()
        .contains(&ChessMove::new(sq("d5"), sq("e6"), None, MoveType::EnPassant)));
    // in check by the pawn that has just moved: taking it en passant is legal
    let d = board(&tables, "8/8/8/2k5/3Pp3/8/8/4K2B b - d3 0 1");
    let m = texts(&tables, &d);
    assert!(m.contains(&"e4d3".to_string()));
    // in check by another piece: en passant does not help
    let e = board(&tables, "4k3/8/8/3pP3/8/8/8/r3K3 w - d6 0 1");
    assert!(!texts(&tables, &e).contains(&"e5d6".to_string()));
    // in check, an en-passant capture is tried only where it takes the checking pawn
    let f = board(&tables, "5b2/8/8/3pP3/8/K7/8/7k w - d6 0 1");
    assert_eq!(f.check_bb.data, 1 << sq("f8"));
    assert!(!texts(&tables, &f).contains(&"e5d6".to_string()));
}

#[test]
fn promotions_come_in_fours() {
    let tables = AttackTables::new().unwrap();
    let b = board(&tables, "1n2k3/P7/8/8/8/8/8/4K3 w - - 0 1");
    let m: Vec<ChessMove> = b.generate_moves(&tables).to_vec();
    let pawn: Vec<ChessMove> = m.into_iter().filter(|x| x.source() == sq("a7")).collect();
    assert_eq!(
        pawn,
        vec![
            ChessMove::new(sq("a7"), sq("a8"), Some(PieceType::Queen), MoveType::Promotion),
            ChessMove::new(sq("a7"), sq("a8"), Some(PieceType::Rook), MoveType::Promotion),
            ChessMove::new(sq("a7"), sq("a8"), Some(PieceType::Bishop), MoveType::Promotion),
            ChessMove::new(sq("a7"), sq("a8"), Some(PieceType::Knight), MoveType::Promotion),
            ChessMove::new(sq("a7"), sq("b8"), Some(PieceType::Queen), MoveType::Promotion),
            ChessMove::new(sq("a7"), sq("b8"), Some(PieceType::Rook), MoveType::Promotion),
            ChessMove::new(sq("a7"), sq("b8"), Some(PieceType::Bishop), MoveType::Promotion),
            ChessMove::new(sq("a7"), sq("b8"), Some(PieceType::Knight), MoveType::Promotion),
        ]
    );
}

#[test]
fn no_generated_move_leaves_the_own_king_attacked() {
    let tables = AttackTables::new().unwrap();
    for fen in POSITIONS {
        let b = board(&tables, fen);
        for m in b.generate_moves(&tables).to_vec() {
            let c = b.update_state(&tables, m);
            assert!(!c.king_is_in_check(&tables, b.side_to_move), "{} {}", fen, m.print_move());
            for n in c.generate_moves(&tables).to_vec() {
                let d = c.update_state(&tables, n);
                assert!(!d.king_is_in_check(&tables, c.side_to_move));
            }
        }
    }
}

#[test]
fn every_safe_move_of_a_piece_is_generated() {
    // every normal move of a piece to a square it attacks that takes no
    // piece of its own side and leaves the own king safe is in the list
    let tables = AttackTables::new().unwrap();
    for fen in POSITIONS {
        let b = board(&tables, fen);
        let list = b.generate_moves(&tables).to_vec();
        let side = b.side_to_move;
        let occ = b.blockers();
        for s in 0..64usize {
            let (ps, kind) = match b.mailbox[s] {
                Some(p) => p,
                None => continue,
            };
            if ps != side || kind == PieceType::Pawn {
                continue;
            }
            let reach = match kind {
                PieceType::King => tables.king_attacks(s),
                PieceType::Knight => tables.knight_attacks(s),
                PieceType::Bishop => chess_core::tables::get_bishop_attack(&tables, s, occ),
                PieceType::Rook => chess_core::tables::get_rook_attack(&tables, s, occ),
                _ => chess_core::tables::get_queen_attack(&tables, s, occ),
            };
            for t in 0..64usize {
                if !reach.test_bit(t) {
                    continue;
                }
                match b.mailbox[t] {
                    Some((ts, tk)) => {
                        if ts == side || tk == PieceType::King {
                            continue;
                        }
                    }
                    None => {}
                }
                let m = ChessMove::new(s, t, None, MoveType::Normal);
                // play it on a copy of the sets and look at the king
                let mut sets = b.piece_bbs;
                for k in 0..12usize {
                    sets[k] = sets[k].pop_bit(s).pop_bit(t);
                }
                let own = chess_core::chessboard::cpt_index((ps, kind));
                sets[own].set_bit(t);
                let king = sets[if side == Side::White { 0 } else { 6 }].lsb_index().unwrap();
                let safe = !chess_core::chessboard::square_attacked(&tables, &sets, king, side.update());
                assert_eq!(list.contains(&m), safe, "{} {}", fen, m.print_move());
            }
        }
    }
}

#[test]
fn no_move_is_generated_twice_and_no_two_read_alike() {
    let tables = AttackTables::new().unwrap();
    for fen in POSITIONS {
        let b = board(&tables, fen);
        let list = b.generate_moves(&tables).to_vec();
        for i in 0..list.len() {
            for j in 0..i {
                assert_ne!(list[i], list[j]);
                assert_ne!(list[i].print_move(), list[j].print_move());
            }
        }
    }
}

#[test]
fn the_text_of_a_generated_move_finds_the_move() {
    let tables = AttackTables::new().unwrap();
    for fen in POSITIONS {
        let b = board(&tables, fen);
        let arr = b.generate_moves(&tables);
        for m in arr.to_vec() {
            assert_eq!(pick_move(&arr, m.print_move().as_bytes()), Some(m));
            assert_eq!(pick_move(&arr, &m.text_vec()), Some(m));
        }
        assert_eq!(pick_move(&arr, b"a1a1"), None);
        assert_eq!(pick_move(&arr, b""), None);
    }
    assert!(same_bytes(b"e2e4", b"e2e4"));
    assert!(!same_bytes(b"e2e4", b"e2e3"));
    assert!(!same_bytes(b"e2e4", b"e2e4q"));
}

#[test]
fn every_transition_keeps_map_sets_and_hash_together() {
    let tables = AttackTables::new().unwrap();
    for fen in POSITIONS {
        let b = board(&tables, fen);
        for m in b.generate_moves(&tables).to_vec() {
            let c = b.update_state(&tables, m);
            assert_eq!(generate_mailbox(c.piece_bbs), c.mailbox);
            assert_eq!(ZorbristHash::hash(&c), c.current_hash);
            assert_eq!(c.compute_checkers(&tables), c.check_bb);
            assert_eq!(c.side_to_move, b.side_to_move.update());
            for i in 0..4 {
                assert!(!c.castle_bools[i] || b.castle_bools[i]);
            }
            assert_eq!(c.piece_bbs[0].count(), 1);
            assert_eq!(c.piece_bbs[6].count(), 1);
        }
    }
}

#[test]
fn in_check_every_move_is_a_king_move_a_block_or_a_capture_of_the_checker() {
    let tables = AttackTables::new().unwrap();
    let fens = [
        "4r1k1/8/8/8/8/8/3Q4/3RK3 w - - 0 1",
        "4r1k1/8/8/8/8/3n4/3Q4/4K3 w - - 0 1",
        "8/8/8/2k5/3Pp3/8/8/4K2B b - d3 0 1",
        "r3k2r/8/8/8/8/8/4r3/R3K2R w KQkq - 0 1",
        "rnbqkbnr/ppp1pppp/8/1B1p4/4P3/8/PPPP1PPP/RNBQK1NR b KQkq - 1 2",
    ];
    for fen in fens {
        let b = board(&tables, fen);
        assert!(b.king_is_in_check(&tables, b.side_to_move));
        assert!(b.check_bb.data != 0);
        let king = b.king_pos(b.side_to_move);
        let n = b.check_bb.count();
        for m in b.generate_moves(&tables).to_vec() {
            if m.source() == king {
                continue;
            }
            assert_eq!(n, 1);
            let giver = b.check_bb.lsb_index().unwrap();
            let blocks = tables.ray_between(king, giver).test_bit(m.target());
            let takes = m.target() == giver;
            let takes_ep = m.get_move_type() == MoveType::EnPassant
                && (if b.side_to_move == Side::White { m.target() - 8 } else { m.target() + 8 })
                    == giver;
            assert!(blocks || takes || takes_ep, "{} {}", fen, m.print_move());
        }
    }
}

#[test]
fn material_is_counted_for_white() {
    let tables = AttackTables::new().unwrap();
    assert_eq!(ChessBoard::default().naive_eval(), 0);
    assert_eq!(board(&tables, "4k3/8/8/8/8/8/8/Q3K3 w - - 0 1").naive_eval(), 90);
    assert_eq!(board(&tables, "4k3/8/8/8/8/8/8/Q3K3 b - - 0 1").naive_eval(), 90);
    assert_eq!(board(&tables, "rn2k3/p7/8/8/8/8/8/B3K3 w - - 0 1").naive_eval(), 35 - 50 - 30 - 10);
}

#[test]
fn negamax_values() {
    let tables = AttackTables::new().unwrap();
    let lowest = isize::MIN + 1;
    let highest = isize::MAX - 1;
    // depth 0: material for the side to move
    let w = board(&tables, "4k3/8/8/8/8/8/8/Q3K3 w - - 0 1");
    assert_eq!(w.negamax(&tables, lowest, highest, 0), (90, None));
    let b = board(&tables, "4k3/8/8/8/8/8/8/Q3K3 b - - 0 1");
    assert_eq!(b.negamax(&tables, lowest, highest, 0), (-90, None));
    // mated: the mate score, the lower the more depth is left
    let mate = board(&tables, "R5k1/5ppp/8/8/8/8/8/4K3 b - - 0 1");
    assert_eq!(mate.negamax(&tables, lowest, highest, 1), (-(isize::MAX / 2) - 1, None));
    assert_eq!(mate.negamax(&tables, lowest, highest, 3), (-(isize::MAX / 2) - 3, None));
    assert_eq!(mate.search(&tables, 3), None);
    // stalemate: zero
    let stale = board(&tables, "7k/5Q2/6K1/8/8/8/8/8 b - - 0 1");
    assert_eq!(stale.negamax(&tables, lowest, highest, 2), (0, None));
    // one ply: the capture of the queen
    let take = board(&tables, "4k3/8/8/8/8/8/q7/R3K3 w - - 0 1");
    let (v, m) = take.negamax(&tables, lowest, highest, 1);
    assert_eq!(m.unwrap().print_move(), "a1a2");
    assert_eq!(v, 50);
    // two plies: mate in one
    let one = board(&tables, "6k1/5ppp/8/8/8/8/8/R3K3 w - - 0 1");
    let (v, m) = one.negamax(&tables, lowest, highest, 2);
    assert_eq!(m.unwrap().print_move(), "a1a8");
    assert_eq!(v, isize::MAX / 2 + 1);
    assert_eq!(one.search(&tables, 2).unwrap().print_move(), "a1a8");
    assert_eq!(MAX_DEPTH, 0x3fff_ffff);
}

#[test]
fn alpha_beta_cuts_off() {
    let tables = AttackTables::new().unwrap();
    // with beta below every value the first move ends the search
    let b = ChessBoard::default();
    let (v, m) = b.negamax(&tables, -10, -5, 1);
    assert_eq!(v, 0);
    assert_eq!(m.unwrap().print_move(), "g1h3");
    // with alpha above every value no move becomes the best move
    let (v, m) = b.negamax(&tables, 5, 10, 1);
    assert_eq!(v, 0);
    assert_eq!(m, None);
}

#[test]
fn lists_of_moves_are_played() {
    let tables = AttackTables::new().unwrap();
    let mut b = ChessBoard::default();
    b.parse_uci_move(&tables, "e2e4 c7c5 g1f3");
    assert_eq!(b, board(&tables, "rnbqkbnr/pp1ppppp/8/2p5/4P3/5N2/PPPP1PPP/RNBQKB1R b KQkq - 1 2"));
    // a word that names no legal move is passed over
    b.parse_uci_move(&tables, "e2e4 nonsense  d7d6");
    assert_eq!(b, board(&tables, "rnbqkbnr/pp2pppp/3p4/2p5/4P3/5N2/PPPP1PPP/RNBQKB1R w KQkq - 0 3"));
    b.parse_uci_move(&tables, "startpos d2d4");
    assert_eq!(b, board(&tables, "rnbqkbnr/pppppppp/8/8/3P4/8/PPP1PPPP/RNBQKBNR b KQkq d3 0 1"));
    b.parse_uci_move(&tables, "");
    assert_eq!(b, board(&tables, "rnbqkbnr/pppppppp/8/8/3P4/8/PPP1PPPP/RNBQKBNR b KQkq d3 0 1"));
    let mut c = ChessBoard::default();
    c.play_word(&tables, b"e2e4");
    assert_eq!(c.mailbox[sq("e4")], Some((Side::White, PieceType::Pawn)));
    let before = c;
    c.play_word(&tables, b"e2e4");
    assert_eq!(c, before);
}

#[test]
fn position_commands() {
    let tables = AttackTables::new().unwrap();
    let mut b = board(&tables, "4k3/8/8/8/8/8/8/4K3 w - - 0 1");
    assert_eq!(b.parse_uci_position_cmd(&tables, "position startpos moves e2e4 e7e5"), Ok(()));
    assert_eq!(b, board(&tables, "rnbqkbnr/pppp1ppp/8/4p3/4P3/8/PPPP1PPP/RNBQKBNR w KQkq e6 0 2"));
    assert_eq!(
        b.parse_uci_position_cmd(
            &tables,
            "position fen r3k2r/8/8/8/8/8/8/R3K2R w KQkq - 0 1 moves e1g1 e8c8"
        ),
        Ok(())
    );
    assert_eq!(b, board(&tables, "2kr3r/8/8/8/8/8/8/R4RK1 w - - 2 2"));
    assert_eq!(b.parse_uci_position_cmd(&tables, "position FEN 4k3/8/8/8/8/8/8/4K3 b - - 3 9"), Ok(()));
    assert_eq!(b, board(&tables, "4k3/8/8/8/8/8/8/4K3 b - - 3 9"));
    // a position that is refused leaves the position as it was
    let before = b;
    assert_eq!(
        b.parse_uci_position_cmd(&tables, "position startpos moves e2e4 fen 8/8/8/8/8/8/8/8 w - - 0 1"),
        Err(FenError::Kings)
    );
    assert_eq!(b, before);
    assert_eq!(b.parse_uci_position_cmd(&tables, "position fen 4k3/8/8/8 w"), Err(FenError::FieldCount));
    assert_eq!(b, before);
    assert_eq!(
        b.parse_uci_position_cmd(&tables, "position fen 4k3/8/8/8/8/8/8/4K3 x - - 0 1"),
        Err(FenError::ActiveSide)
    );
    // `fen` as the last word sets up the starting position
    assert_eq!(b.parse_uci_position_cmd(&tables, "position fen"), Ok(()));
    assert_eq!(b, ChessBoard::default());
}

#[test]
fn go_commands() {
    let tables = AttackTables::new().unwrap();
    let mut one = board(&tables, "6k1/5ppp/8/8/8/8/8/R3K3 w - - 0 1");
    let before = one;
    assert_eq!(one.parse_uci_go_cmd(&tables, "go depth 2"), Ok("bestmove a1a8".to_string()));
    assert_eq!(one, before);
    assert_eq!(one.parse_uci_go_cmd(&tables, "depth 2"), Ok("bestmove a1a8".to_string()));
    assert_eq!(one.parse_uci_go_cmd(&tables, "go depth"), Err(GoError::InvalidDepth));
    assert_eq!(one.parse_uci_go_cmd(&tables, "go depth two"), Err(GoError::InvalidDepth));
    assert_eq!(one.parse_uci_go_cmd(&tables, "go depth 4611686018427387904"), Err(GoError::InvalidDepth));
    assert_eq!(one.parse_uci_go_cmd(&tables, "go depth 0"), Err(GoError::NoMove));
    // the last depth counts
    assert_eq!(one.parse_uci_go_cmd(&tables, "go depth 0 depth 2"), Ok("bestmove a1a8".to_string()));
    let mut take = board(&tables, "4k3/8/8/8/8/8/q7/R3K3 w - - 0 1");
    assert_eq!(take.parse_uci_go_cmd(&tables, "go depth 1"), Ok("bestmove a1a2".to_string()));
    let mut mate = board(&tables, "R5k1/5ppp/8/8/8/8/8/4K3 b - - 0 1");
    assert_eq!(mate.parse_uci_go_cmd(&tables, "go depth 1"), Err(GoError::NoMove));
}

#[test]
fn perft_after_three_moves_is_the_sum_of_its_subtrees() {
    let tables = AttackTables::new().unwrap();
    let mut b = ChessBoard::default();
    b.parse_uci_move(&tables, "e2e4 c7c5 g1f3");
    let total = b.perft_count(&tables, 3);
    let mut sum = 0;
    for m in b.generate_moves(&tables).to_vec() {
        sum += b.update_state(&tables, m).perft_count(&tables, 2);
    }
    assert_eq!(total, sum);
    assert_eq!(b.perft_count(&tables, 1), 22);
}

#[test]
fn a_line_is_known_by_its_first_word() {
    assert_eq!(parse_uci_command("uci"), UciCommand::Uci);
    assert_eq!(parse_uci_command("  isready  "), UciCommand::IsReady);
    assert_eq!(parse_uci_command("ucinewgame"), UciCommand::NewGame);
    assert_eq!(parse_uci_command("position startpos moves e2e4"), UciCommand::Position);
    assert_eq!(parse_uci_command("go depth 3"), UciCommand::Go);
    assert_eq!(parse_uci_command("quit"), UciCommand::Quit);
    assert_eq!(parse_uci_command(""), UciCommand::Unknown);
    assert_eq!(parse_uci_command("stop"), UciCommand::Unknown);
    assert_eq!(parse_uci_command("ucis"), UciCommand::Unknown);
    assert_eq!(parse_uci_command("depth go"), UciCommand::Unknown);
}
