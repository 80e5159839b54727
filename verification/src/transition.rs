//! Playing a move: the position that results from it.
//!
//! A move is taken off the square map and the piece sets together, the
//! hash following each step, and the castling rights, the en-passant
//! square, the counters and the set of checking pieces are then renewed.
use vstd::prelude::*;
use crate::bits::{bit, has_bit, lemma_ext, lemma_single_all, lsb};
use crate::bitboard::{rank_of, BitBoard, PieceType, Side};
use crate::chessboard::{
    consistent, cpt_index, has_one_king, king_at, kings_apart, lemma_king_square,
    lemma_piece_index, lemma_single_bit, piece_of_index, ChessBoard,
};
use crate::chessmove::{is_promotion_piece, ChessMove, MoveType};
use crate::leapers::{king_reach, lemma_king_reach_symmetric};
use crate::tables::AttackTables;
use crate::zobrist::{
    castle_hash, castle_part, ep_hash, ep_part, lemma_pieces_hash_update, lemma_xor, pieces_hash,
    side_hash, square_key, ZorbristHash,
};

verus! {

/// A counter one higher, or unchanged at the top of its range.
pub open spec fn next_count(c: usize) -> usize {
    if c < usize::MAX {
        (c + 1) as usize
    } else {
        c
    }
}

/// The square of the pawn that an en-passant capture to `target` removes.
pub open spec fn ep_victim(side: Side, target: int) -> int {
    match side {
        Side::White => target - 8,
        Side::Black => target + 8,
    }
}

/// Where the rook starts and ends when the king castles to `target`.
pub open spec fn castle_rook(target: int) -> (int, int) {
    if target == 1 {
        (0, 2)
    } else if target == 5 {
        (7, 4)
    } else if target == 57 {
        (56, 58)
    } else {
        (63, 60)
    }
}

impl ChessBoard {
    /// The piece that the move takes from its target square: none for a
    /// castling move or an en-passant capture.
    pub open spec fn captured(&self, m: ChessMove) -> Option<(Side, PieceType)> {
        match m.spec_move_type() {
            MoveType::Normal | MoveType::Promotion => self.mailbox[m.spec_target()],
            _ => None,
        }
    }

    /// The move can be played: its source holds a piece of the side to
    /// move, no king is taken, a king does not step next to the other
    /// king, and what the kind of the move asks for is there.
    pub open spec fn admits(&self, m: ChessMove) -> bool {
        let s = m.spec_source();
        let t = m.spec_target();
        let mb = self.mailbox@;
        let stm = self.side_to_move;
        &&& mb[s] matches Some(p) && p.0 == stm
        &&& mb[s].unwrap().1 == PieceType::King ==> forall|b: int|
            0 <= b < 64 && #[trigger] mb[b] == Some((stm.flip(), PieceType::King)) ==> !king_reach(
                t,
                b,
            )
        &&& match m.spec_move_type() {
            MoveType::Normal => {
                &&& s != t
                &&& !(mb[t] matches Some(q) && q.1 == PieceType::King)
                &&& mb[s].unwrap().1 == PieceType::Pawn ==> {
                    &&& 8 <= t < 56
                    &&& stm == Side::White && s + 16 == t ==> rank_of(s) == 1 && mb[s + 8] is None
                        && mb[t] is None
                    &&& stm == Side::Black && s == t + 16 ==> rank_of(s) == 6 && mb[s - 8] is None
                        && mb[t] is None
                }
            },
            MoveType::Castle => {
                &&& mb[s].unwrap().1 == PieceType::King
                &&& match stm {
                    Side::White => s == 3 && ((t == 1 && self.castle_bools[0] && mb[1] is None
                        && mb[2] is None) || (t == 5 && self.castle_bools[1] && mb[4] is None
                        && mb[5] is None && mb[6] is None)),
                    Side::Black => s == 59 && ((t == 57 && self.castle_bools[2] && mb[57] is None
                        && mb[58] is None) || (t == 61 && self.castle_bools[3] && mb[60] is None
                        && mb[61] is None && mb[62] is None)),
                }
            },
            MoveType::EnPassant => {
                &&& mb[s].unwrap().1 == PieceType::Pawn
                &&& self.enpassant_bb.data != 0
                &&& t == lsb(self.enpassant_bb.data)
            },
            MoveType::Promotion => {
                &&& s != t
                &&& mb[s].unwrap().1 == PieceType::Pawn
                &&& !(mb[t] matches Some(q) && q.1 == PieceType::King)
                &&& match stm {
                    Side::White => rank_of(t) == 7,
                    Side::Black => rank_of(t) == 0,
                }
            },
        }
    }

    /// The square map after the move.
    pub open spec fn moved_mailbox(&self, m: ChessMove) -> Seq<Option<(Side, PieceType)>> {
        let s = m.spec_source();
        let t = m.spec_target();
        let mb = self.mailbox@;
        let stm = self.side_to_move;
        match m.spec_move_type() {
            MoveType::Normal => mb.update(s, None).update(t, mb[s]),
            MoveType::Castle => mb.update(s, None).update(t, mb[s]).update(
                castle_rook(t).0,
                None,
            ).update(castle_rook(t).1, Some((stm, PieceType::Rook))),
            MoveType::EnPassant => mb.update(s, None).update(t, mb[s]).update(
                ep_victim(stm, t),
                None,
            ),
            MoveType::Promotion => mb.update(s, None).update(
                t,
                Some((stm, m.spec_piece().unwrap())),
            ),
        }
    }

    /// Whether castling right `i` outlives the move: it is lost when the
    /// king of its side moves, when its rook leaves its corner, and when
    /// its rook is taken on its corner.
    pub open spec fn keeps_castle(&self, m: ChessMove, i: int) -> bool {
        let side = if i < 2 {
            Side::White
        } else {
            Side::Black
        };
        let corner = if i == 0 {
            0int
        } else if i == 1 {
            7int
        } else if i == 2 {
            56int
        } else {
            63int
        };
        let p = self.mailbox[m.spec_source()];
        &&& self.castle_bools[i]
        &&& p != Some((side, PieceType::King))
        &&& !(p == Some((side, PieceType::Rook)) && m.spec_source() == corner)
        &&& !(self.captured(m) == Some((side, PieceType::Rook)) && m.spec_target() == corner)
    }

    /// The castling rights after the move.
    pub open spec fn moved_castle(&self, m: ChessMove) -> Seq<bool> {
        seq![
            self.keeps_castle(m, 0),
            self.keeps_castle(m, 1),
            self.keeps_castle(m, 2),
            self.keeps_castle(m, 3),
        ]
    }

    /// The en-passant set after the move: the square passed over by a pawn
    /// that has advanced two squares, whether or not a pawn can take there.
    pub open spec fn moved_ep(&self, m: ChessMove) -> u64 {
        let s = m.spec_source();
        let t = m.spec_target();
        let p = self.mailbox[s];
        if m.spec_move_type() == MoveType::Normal && p == Some((Side::White, PieceType::Pawn)) && s
            + 16 == t {
            bit(t - 8)
        } else if m.spec_move_type() == MoveType::Normal && p == Some(
            (Side::Black, PieceType::Pawn),
        ) && s == t + 16 {
            bit(t + 8)
        } else {
            0
        }
    }

    /// The half-move clock after the move: zero after a pawn move or a
    /// capture, else one more.
    pub open spec fn moved_half_move_clock(&self, m: ChessMove) -> usize {
        if (self.mailbox[m.spec_source()] matches Some(p) && p.1 == PieceType::Pawn)
            || self.captured(m) is Some {
            0
        } else {
            next_count(self.half_move_clock)
        }
    }

    /// The move counter after the move: one more after a move of Black.
    pub open spec fn moved_full_move_counter(&self) -> usize {
        match self.side_to_move {
            Side::White => self.full_move_counter,
            Side::Black => next_count(self.full_move_counter),
        }
    }

    /// `r` is the position after the move: it has the map, the rights, the
    /// en-passant square, the side and the counters that the move leaves,
    /// and every invariant holds of it.
    pub open spec fn leads_to(&self, m: ChessMove, r: ChessBoard) -> bool {
        &&& r.wf()
        &&& r.mailbox@ == self.moved_mailbox(m)
        &&& r.castle_bools@ == self.moved_castle(m)
        &&& r.enpassant_bb.data == self.moved_ep(m)
        &&& r.side_to_move == self.side_to_move.flip()
        &&& r.half_move_clock == self.moved_half_move_clock(m)
        &&& r.full_move_counter == self.moved_full_move_counter()
    }

    /// The position after the move.
    pub open spec fn successor(&self, m: ChessMove) -> ChessBoard {
        choose|r: ChessBoard| self.leads_to(m, r)
    }

    /// Map and sets agree, and the hash field holds the hash of the
    /// pieces alone.
    spec fn placed(&self) -> bool {
        &&& consistent(self.piece_bbs@, self.mailbox@)
        &&& self.current_hash == pieces_hash(self.mailbox@, 64)
    }

    /// The other fields are those of `other`.
    spec fn same_rest(&self, other: &ChessBoard) -> bool {
        &&& self.castle_bools == other.castle_bools
        &&& self.enpassant_bb == other.enpassant_bb
        &&& self.check_bb == other.check_bb
        &&& self.side_to_move == other.side_to_move
        &&& self.half_move_clock == other.half_move_clock
        &&& self.full_move_counter == other.full_move_counter
    }

    /// Takes the piece off `square`.
    fn lift(&mut self, square: usize) -> (p: (Side, PieceType))
        requires
            old(self).placed(),
            square < 64,
            old(self).mailbox[square as int] is Some,
        ensures
            Some(p) == old(self).mailbox[square as int],
            final(self).placed(),
            final(self).mailbox@ == old(self).mailbox@.update(square as int, None),
            final(self).same_rest(old(self)),
    {
        let p = match self.mailbox[square] {
            Some(p) => p,
            None => (Side::White, PieceType::Pawn),
        };
        let k = cpt_index(p);
        let ghost before = *self;
        proof {
            lemma_pieces_hash_update(self.mailbox@, square as int, None, 64);
            lemma_xor(self.current_hash ^ square_key(Some(p), square as int), 0, 0);
            lemma_single_all(self.piece_bbs[k as int].data, square as int);
        }
        self.piece_bbs[k] = self.piece_bbs[k].pop_bit(square);
        self.mailbox[square] = None;
        self.current_hash = self.current_hash ^ ZorbristHash::get_piece_hash(square, p);
        proof {
            assert forall|s: int, j: int| 0 <= s < 64 && 0 <= j < 12 implies (has_bit(
                #[trigger] self.piece_bbs@[j].data,
                s,
            ) <==> #[trigger] self.mailbox@[s] == Some(piece_of_index(j))) by {
                lemma_piece_index(p, j);
                assert(has_bit(before.piece_bbs@[j].data, s) <==> before.mailbox@[s] == Some(
                    piece_of_index(j),
                ));
            }
        }
        p
    }

    /// Puts `piece` on the empty square `square`.
    fn put(&mut self, square: usize, piece: (Side, PieceType))
        requires
            old(self).placed(),
            square < 64,
            old(self).mailbox[square as int] is None,
        ensures
            final(self).placed(),
            final(self).mailbox@ == old(self).mailbox@.update(square as int, Some(piece)),
            final(self).same_rest(old(self)),
    {
        let k = cpt_index(piece);
        let ghost before = *self;
        proof {
            lemma_pieces_hash_update(self.mailbox@, square as int, Some(piece), 64);
            lemma_xor(self.current_hash, 0, 0);
            lemma_single_all(self.piece_bbs[k as int].data, square as int);
        }
        self.piece_bbs[k].set_bit(square);
        self.mailbox[square] = Some(piece);
        self.current_hash = self.current_hash ^ ZorbristHash::get_piece_hash(square, piece);
        proof {
            assert forall|s: int, j: int| 0 <= s < 64 && 0 <= j < 12 implies (has_bit(
                #[trigger] self.piece_bbs@[j].data,
                s,
            ) <==> #[trigger] self.mailbox@[s] == Some(piece_of_index(j))) by {
                lemma_piece_index(piece, j);
                assert(has_bit(before.piece_bbs@[j].data, s) <==> before.mailbox@[s] == Some(
                    piece_of_index(j),
                ));
            }
        }
    }

    /// Empties `square`, whatever stands on it.
    fn clear(&mut self, square: usize)
        requires
            old(self).placed(),
            square < 64,
        ensures
            final(self).placed(),
            final(self).mailbox@ == old(self).mailbox@.update(square as int, None),
            final(self).same_rest(old(self)),
    {
        if self.mailbox[square].is_some() {
            let _ = self.lift(square);
        } else {
            assert(self.mailbox@ =~= old(self).mailbox@.update(square as int, None));
        }
    }
}

/// Whether `p` is the piece of the given side and kind.
fn is_piece(p: Option<(Side, PieceType)>, side: Side, kind: PieceType) -> (r: bool)
    ensures
        r == (p == Some((side, kind))),
{
    match p {
        Some(q) => q.0 == side && q.1 == kind,
        None => false,
    }
}

/// A counter one higher, or unchanged at the top of its range.
fn bump(c: usize) -> (r: usize)
    ensures
        r == next_count(c),
{
    if c < usize::MAX {
        c + 1
    } else {
        c
    }
}

impl ChessBoard {
    /// Whether castling right `i` outlives the move.
    fn castle_kept(&self, chess_move: ChessMove, i: usize) -> (r: bool)
        requires
            i < 4,
        ensures
            r == self.keeps_castle(chess_move, i as int),
    {
        let side = if i < 2 {
            Side::White
        } else {
            Side::Black
        };
        let corner: usize = if i == 0 {
            0
        } else if i == 1 {
            7
        } else if i == 2 {
            56
        } else {
            63
        };
        let source = chess_move.source();
        let target = chess_move.target();
        let p = self.mailbox[source];
        let captured = match chess_move.get_move_type() {
            MoveType::Normal => self.mailbox[target],
            MoveType::Promotion => self.mailbox[target],
            _ => None,
        };
        self.castle_bools[i] && !is_piece(p, side, PieceType::King) && !(is_piece(
            p,
            side,
            PieceType::Rook,
        ) && source == corner) && !(is_piece(captured, side, PieceType::Rook) && target == corner)
    }

    /// The position after `chess_move`.
    ///
    /// The en-passant square is set after every double step of a pawn, and
    /// the half-move clock starts again after a pawn move or a capture.
    pub fn update_state(&self, tables: &AttackTables, chess_move: ChessMove) -> (r: ChessBoard)
        requires
            tables.wf(),
            self.structural(),
            self.admits(chess_move),
        ensures
            r.wf(),
            r.mailbox@ == self.moved_mailbox(chess_move),
            r.castle_bools@ == self.moved_castle(chess_move),
            r.enpassant_bb.data == self.moved_ep(chess_move),
            r.side_to_move == self.side_to_move.flip(),
            r.half_move_clock == self.moved_half_move_clock(chess_move),
            r.full_move_counter == self.moved_full_move_counter(),
            r == self.successor(chess_move),
    {
        let mut b = self.const_clone();
        let source: usize = chess_move.source();
        let target: usize = chess_move.target();
        let stm = self.side_to_move;
        let kind = chess_move.get_move_type();
        let piece = match self.mailbox[source] {
            Some(p) => p,
            None => (stm, PieceType::Pawn),
        };
        let captured = match kind {
            MoveType::Normal => self.mailbox[target],
            MoveType::Promotion => self.mailbox[target],
            _ => None,
        };
        let castle: [bool; 4] = [
            self.castle_kept(chess_move, 0),
            self.castle_kept(chess_move, 1),
            self.castle_kept(chess_move, 2),
            self.castle_kept(chess_move, 3),
        ];
        let mut ep: u64 = 0;
        match kind {
            MoveType::Normal => {
                if is_piece(Some(piece), Side::White, PieceType::Pawn) && source + 16 == target {
                    ep = 1u64 << (target - 8);
                } else if is_piece(Some(piece), Side::Black, PieceType::Pawn) && source == target
                    + 16 {
                    ep = 1u64 << (target + 8);
                }
            },
            _ => {},
        }
        assert(ep == self.moved_ep(chess_move));
        let half = if piece.1 == PieceType::Pawn || captured.is_some() {
            0
        } else {
            bump(self.half_move_clock)
        };
        let full = match stm {
            Side::White => self.full_move_counter,
            Side::Black => bump(self.full_move_counter),
        };

        // the hash of the pieces alone
        let side_key: u64 = match stm {
            Side::White => 0,
            Side::Black => crate::zobrist::ZH_SIDE_KEY,
        };
        proof {
            let sd = side_hash(stm);
            let pc = pieces_hash(self.mailbox@, 64);
            let cs = castle_hash(self.castle_bools@);
            let e = ep_hash(self.enpassant_bb.data);
            lemma_xor(sd ^ pc ^ cs, e, e);
            lemma_xor(sd ^ pc, cs, cs);
            lemma_xor(sd, pc, sd);
            lemma_xor(sd, sd, pc);
            lemma_xor(pc, 0, 0);
        }
        b.current_hash = b.current_hash ^ ep_part(self.enpassant_bb) ^ castle_part(
            &self.castle_bools,
        ) ^ side_key;
        assert(b.placed());

        match kind {
            MoveType::Normal => {
                let _ = b.lift(source);
                b.clear(target);
                b.put(target, piece);
            },
            MoveType::Castle => {
                let _ = b.lift(source);
                b.put(target, piece);
                let rook_from: usize = if target == 1 {
                    0
                } else if target == 5 {
                    7
                } else if target == 57 {
                    56
                } else {
                    63
                };
                let rook_to: usize = if target == 1 {
                    2
                } else if target == 5 {
                    4
                } else if target == 57 {
                    58
                } else {
                    60
                };
                let _ = b.lift(rook_from);
                b.put(rook_to, (stm, PieceType::Rook));
            },
            MoveType::EnPassant => {
                proof {
                    crate::bits::lemma_lsb(self.enpassant_bb.data);
                }
                let victim: usize = match stm {
                    Side::White => target - 8,
                    Side::Black => target + 8,
                };
                let _ = b.lift(source);
                b.put(target, piece);
                b.clear(victim);
            },
            MoveType::Promotion => {
                let promoted = match chess_move.get_piece_data() {
                    Some(x) => x,
                    None => PieceType::Queen,
                };
                let _ = b.lift(source);
                b.clear(target);
                b.put(target, (stm, promoted));
            },
        }
        assert(b.mailbox@ =~= self.moved_mailbox(chess_move));

        b.castle_bools = castle;
        b.enpassant_bb = BitBoard { data: ep };
        b.side_to_move = stm.update();
        b.half_move_clock = half;
        b.full_move_counter = full;
        let new_side_key: u64 = match b.side_to_move {
            Side::White => 0,
            Side::Black => crate::zobrist::ZH_SIDE_KEY,
        };
        b.current_hash = new_side_key ^ b.current_hash ^ castle_part(&b.castle_bools) ^ ep_part(
            b.enpassant_bb,
        );
        assert(b.castle_bools@ =~= self.moved_castle(chess_move));
        proof {
            self.lemma_moved_structure(chess_move);
            lemma_king_square(b.piece_bbs@, b.mailbox@, b.side_to_move);
        }
        b.check_bb = b.compute_checkers(tables);
        proof {
            assert(self.leads_to(chess_move, b));
            lemma_position_determined(b, self.successor(chess_move));
        }
        b
    }

    /// The map, the rights and the en-passant square that a move leaves
    /// behind keep the invariants of a position.
    pub proof fn lemma_moved_structure(&self, m: ChessMove)
        requires
            self.structural(),
            self.admits(m),
        ensures
            has_one_king(self.moved_mailbox(m), Side::White),
            has_one_king(self.moved_mailbox(m), Side::Black),
            kings_apart(self.moved_mailbox(m)),
            ({
                let mb = self.moved_mailbox(m);
                let c = self.moved_castle(m);
                let ep = self.moved_ep(m);
                let e = lsb(ep);
                &&& mb.len() == 64
                &&& forall|s: int|
                    0 <= s < 64 && (#[trigger] mb[s] matches Some(p) && p.1 == PieceType::Pawn)
                        ==> 8 <= s < 56
                &&& c[0] ==> mb[3] == Some((Side::White, PieceType::King)) && mb[0] == Some(
                    (Side::White, PieceType::Rook),
                )
                &&& c[1] ==> mb[3] == Some((Side::White, PieceType::King)) && mb[7] == Some(
                    (Side::White, PieceType::Rook),
                )
                &&& c[2] ==> mb[59] == Some((Side::Black, PieceType::King)) && mb[56] == Some(
                    (Side::Black, PieceType::Rook),
                )
                &&& c[3] ==> mb[59] == Some((Side::Black, PieceType::King)) && mb[63] == Some(
                    (Side::Black, PieceType::Rook),
                )
                &&& ep != 0 ==> {
                    &&& crate::chessboard::is_single(ep)
                    &&& mb[e] is None
                    &&& match self.side_to_move.flip() {
                        Side::White => rank_of(e) == 5 && mb[e - 8] == Some(
                            (Side::Black, PieceType::Pawn),
                        ),
                        Side::Black => rank_of(e) == 2 && mb[e + 8] == Some(
                            (Side::White, PieceType::Pawn),
                        ),
                    }
                }
            }),
    {
        let s = m.spec_source();
        let t = m.spec_target();
        let mb0 = self.mailbox@;
        let mb = self.moved_mailbox(m);
        let stm = self.side_to_move;
        let p = mb0[s].unwrap();
        crate::chessmove::lemma_decode(m);
        let kw = choose|k: int| king_at(mb0, Side::White, k);
        let kb = choose|k: int| king_at(mb0, Side::Black, k);
        if self.enpassant_bb.data != 0 {
            crate::bits::lemma_lsb(self.enpassant_bb.data);
        }
        let nw = if p == (Side::White, PieceType::King) {
            t
        } else {
            kw
        };
        let nb = if p == (Side::Black, PieceType::King) {
            t
        } else {
            kb
        };
        assert(mb0[kw] == Some((Side::White, PieceType::King)));
        assert(mb0[kb] == Some((Side::Black, PieceType::King)));
        assert(king_at(mb, Side::White, nw));
        assert(king_at(mb, Side::Black, nb));
        assert(kings_apart(mb)) by {
            assert forall|a: int, b: int|
                0 <= a < 64 && 0 <= b < 64 && #[trigger] mb[a] == Some(
                    (Side::White, PieceType::King),
                ) && #[trigger] mb[b] == Some((Side::Black, PieceType::King)) implies !king_reach(
                a,
                b,
            ) by {
                assert(a == nw && b == nb);
                assert(mb0[kw] == Some((Side::White, PieceType::King)));
                assert(mb0[kb] == Some((Side::Black, PieceType::King)));
                lemma_king_reach_symmetric(a, b);
            }
        }
        let ep = self.moved_ep(m);
        if ep != 0 {
            if stm == Side::White {
                lemma_single_bit(t - 8);
            } else {
                lemma_single_bit(t + 8);
            }
        }
        if m.spec_move_type() == MoveType::Promotion {
            assert(is_promotion_piece(m.spec_piece().unwrap()));
        }
    }
}


/// A position is determined by its square map, castling rights,
/// en-passant square, side to move and counters: the piece sets, the set of
/// checking pieces and the hash follow from them.
pub proof fn lemma_position_determined(a: ChessBoard, b: ChessBoard)
    requires
        a.wf(),
        b.wf(),
        a.mailbox@ == b.mailbox@,
        a.castle_bools@ == b.castle_bools@,
        a.enpassant_bb.data == b.enpassant_bb.data,
        a.side_to_move == b.side_to_move,
        a.half_move_clock == b.half_move_clock,
        a.full_move_counter == b.full_move_counter,
    ensures
        a == b,
{
    assert forall|k: int| 0 <= k < 12 implies a.piece_bbs[k] == b.piece_bbs[k] by {
        assert forall|j: int| 0 <= j < 64 implies has_bit(a.piece_bbs[k].data, j) == has_bit(
            b.piece_bbs[k].data,
            j,
        ) by {
            assert(has_bit(a.piece_bbs@[k].data, j) <==> a.mailbox@[j] == Some(piece_of_index(k)));
            assert(has_bit(b.piece_bbs@[k].data, j) <==> b.mailbox@[j] == Some(piece_of_index(k)));
        }
        lemma_ext(a.piece_bbs[k].data, b.piece_bbs[k].data);
    }
    assert(a.piece_bbs =~= b.piece_bbs);
    assert(a.mailbox =~= b.mailbox);
    assert(a.castle_bools =~= b.castle_bools);
}


} // verus!
