//! What holds of positions that legal play has led to, beyond the
//! invariants: the side that has just moved is not in check, and an
//! en-passant capture cannot shield the king.
use vstd::prelude::*;
use crate::bits::{has_bit, lemma_ext, lemma_lsb, lemma_single_all, lemma_zero_iff, lsb};
use crate::bitboard::{rank_of, PieceType, Side};
use crate::chessboard::{is_single, king_square, lemma_king_square, ChessBoard};
use crate::chessmove::{lemma_decode, ChessMove, MoveType};
use crate::laws::{law_line_keeps_invariants, legal_line, lemma_start_position, lemma_successor_of, play, reachable};
use crate::setup::lemma_initial_king_is_safe;
use crate::soundness::lemma_leaper_is_near;
use crate::tables::strictly_between;
use crate::threat::{attacked_on, clear_on, hits_from, lemma_attacked_on, lemma_attackers, lemma_clear_on_symmetric};
use crate::transition::ep_victim;
use crate::uci::start_position;

verus! {

/// On the file of a pawn that has advanced two squares, a line that holds
/// the square it came from and the square it passed over, but not the
/// square it stands on, ends on the square it stands on.
proof fn lemma_double_step_line(k: int, x: int, from: int, over: int, to: int)
    requires
        strictly_between(k, x, from),
        strictly_between(k, x, over),
        0 <= to < 64,
        (from == over + 8 && to == over - 8) || (from == over - 8 && to == over + 8),
        !strictly_between(k, x, to),
    ensures
        k == to || x == to,
{
}

impl ChessBoard {
    /// The king of the side that is not to move is not attacked.
    pub open spec fn opponent_safe(&self) -> bool {
        !attacked_on(
            self.mailbox@,
            king_square(self.piece_bbs@, self.side_to_move.flip()),
            self.side_to_move,
        )
    }

    /// A legal move leads to a position in which the side that has moved
    /// is not in check.
    pub proof fn lemma_successor_opponent_safe(&self, m: ChessMove)
        requires
            self.wf(),
            self.legal_moves().contains(m),
        ensures
            self.successor(m).wf(),
            self.successor(m).opponent_safe(),
    {
        let i = choose|i: int| 0 <= i < self.legal_moves().len() && self.legal_moves()[i] == m;
        self.law_generator_is_sound(i);
        self.lemma_legal_moves_fine();
        assert(self.fine(self.legal_moves()[i]));
        lemma_successor_of(*self, m);
        let r = self.successor(m);
        let stm = self.side_to_move;
        lemma_king_square(r.piece_bbs@, r.mailbox@, stm);
        lemma_attacked_on(r.piece_bbs@, r.mailbox@, king_square(r.piece_bbs@, stm), stm.flip());
    }

    /// After a legal move from a position in which the side that had just
    /// moved was not in check, an en-passant capture that leaves the king
    /// safe takes the only checking piece, if there is a check at all.
    pub proof fn lemma_ep_takes_the_checking_pawn(&self, first: ChessMove, m: ChessMove)
        requires
            self.wf(),
            self.opponent_safe(),
            self.legal_moves().contains(first),
            self.successor(first).pseudo_legal(m),
            self.successor(first).safe_after(m),
            m.spec_move_type() == MoveType::EnPassant,
        ensures
            ({
                let p = self.successor(first);
                p.check_bb.data == 0 || (is_single(p.check_bb.data) && lsb(p.check_bb.data)
                    == ep_victim(p.side_to_move, m.spec_target()))
            }),
    {
        self.lemma_successor_opponent_safe(first);
        let i = choose|i: int| 0 <= i < self.legal_moves().len() && self.legal_moves()[i] == first;
        self.lemma_legal_moves_fine();
        assert(self.fine(self.legal_moves()[i]));
        lemma_successor_of(*self, first);
        let p = self.successor(first);
        let by = self.side_to_move;
        let stm = p.side_to_move;
        let before = self.mailbox@;
        let mb = p.mailbox@;
        lemma_decode(first);
        lemma_decode(m);
        // the first move was the double step of a pawn
        let from = first.spec_source();
        let to = first.spec_target();
        let over = lsb(p.enpassant_bb.data);
        lemma_lsb(p.enpassant_bb.data);
        assert(p.enpassant_bb.data == self.moved_ep(first));
        if by == Side::White {
            crate::chessboard::lemma_single_bit(to - 8);
        } else {
            crate::chessboard::lemma_single_bit(to + 8);
        }
        assert(mb =~= before.update(from, None).update(to, before[from]));
        let victim = ep_victim(stm, over);
        assert(victim == to);
        p.lemma_checkers_meaning(0);
        let k = p.ksq();
        lemma_king_square(self.piece_bbs@, self.mailbox@, stm);
        assert(before[k] == Some((stm, PieceType::King)));
        assert(king_square(self.piece_bbs@, stm) == k);
        // the capture
        let s = m.spec_source();
        let after = p.moved_mailbox(m);
        assert(after =~= mb.update(s, None).update(over, mb[s]).update(victim, None));
        assert(after[k] == Some((stm, PieceType::King)));
        let c = p.check_bb.data;
        assert forall|x: int| has_bit(c, x) implies x == victim by {
            p.lemma_checkers_meaning(x);
            if x != victim {
                let e = mb[x].unwrap();
                assert(x != s && x != over);
                assert(after[x] == mb[x]);
                assert(before[x] == mb[x]);
                if e.1 == PieceType::Pawn || e.1 == PieceType::Knight || e.1 == PieceType::King {
                    assert(hits_from(after, x, k, by));
                } else {
                    lemma_clear_on_symmetric(mb, x, k);
                    if strictly_between(k, x, over) {
                        // the line was open before the double step, or it
                        // runs along the file of the pawn
                        if strictly_between(k, x, from) {
                            assert(mb[to] is Some);
                            assert(!strictly_between(k, x, to));
                            lemma_double_step_line(k, x, from, over, to);
                        } else {
                            assert forall|y: int| #[trigger] strictly_between(x, k, y) implies before[y]
                                is None by {
                                crate::lines::lemma_between_symmetric(x, k, y);
                                assert(mb[y] is None);
                            }
                            assert(hits_from(before, x, k, by));
                        }
                    } else {
                        assert forall|y: int| #[trigger] strictly_between(x, k, y) implies after[y]
                            is None by {
                            crate::lines::lemma_between_symmetric(x, k, y);
                            assert(mb[y] is None);
                        }
                        assert(hits_from(after, x, k, by));
                    }
                }
            }
        }
        if c != 0 {
            lemma_lsb(c);
            assert(lsb(c) == victim);
            lemma_single_all(0, victim);
            assert forall|j: int| 0 <= j < 64 implies has_bit(c, j) == has_bit(
                crate::bits::bit(victim),
                j,
            ) by {}
            lemma_ext(c, crate::bits::bit(victim));
        }
    }

    /// The generator is complete in every position that a legal move has
    /// led to from a position in which the side that had just moved was
    /// not in check: a move that follows the rules of its piece and leaves
    /// the own king safe is a legal move.
    pub proof fn law_generator_is_complete_after_a_move(&self, first: ChessMove, m: ChessMove)
        requires
            self.wf(),
            self.opponent_safe(),
            self.legal_moves().contains(first),
            self.successor(first).pseudo_legal(m),
            self.successor(first).safe_after(m),
        ensures
            self.successor(first).legal_moves().contains(m),
    {
        self.lemma_successor_opponent_safe(first);
        if m.spec_move_type() == MoveType::EnPassant {
            self.lemma_ep_takes_the_checking_pawn(first, m);
        }
        self.successor(first).law_generator_is_complete(m);
    }
}

/// Legal play from the starting position leads only to positions in which
/// the side that has just moved is not in check.
pub proof fn law_line_is_safe(moves: Seq<ChessMove>, n: int)
    requires
        legal_line(start_position(), moves),
        0 <= n <= moves.len(),
    ensures
        play(start_position(), moves, n).wf(),
        play(start_position(), moves, n).opponent_safe(),
    decreases n,
{
    lemma_start_position();
    if n == 0 {
        let p = start_position();
        lemma_initial_king_is_safe(p.piece_bbs@, p.mailbox@, Side::Black);
        lemma_king_square(p.piece_bbs@, p.mailbox@, Side::Black);
        let k = king_square(p.piece_bbs@, Side::Black);
        lemma_zero_iff(crate::chessboard::checkers_spec(p.piece_bbs@, Side::Black));
        if attacked_on(p.mailbox@, k, Side::White) {
            let x = choose|x: int| #[trigger] hits_from(p.mailbox@, x, k, Side::White);
            lemma_attackers(p.piece_bbs@, p.mailbox@, x, k, Side::White);
            lemma_king_square(p.piece_bbs@, p.mailbox@, Side::White);
            crate::leapers::lemma_king_reach_symmetric(x, k);
            assert(p.mailbox@[k] == Some((Side::Black, PieceType::King)));
        }
    } else {
        law_line_is_safe(moves, n - 1);
        let q = play(start_position(), moves, n - 1);
        assert(q.legal_moves().contains(moves[n - 1]));
        q.lemma_successor_opponent_safe(moves[n - 1]);
    }
}

/// The generator is complete in every position that legal play reaches
/// from the starting position: a move that follows the rules of its piece
/// and leaves the own king safe is a legal move.
pub proof fn law_generator_is_complete_when_reached(p: ChessBoard, m: ChessMove)
    requires
        reachable(p),
        p.pseudo_legal(m),
        p.safe_after(m),
    ensures
        p.legal_moves().contains(m),
{
    let moves = choose|moves: Seq<ChessMove>|
        legal_line(start_position(), moves) && p == play(
            start_position(),
            moves,
            moves.len() as int,
        );
    let n = moves.len() as int;
    if n == 0 {
        lemma_start_position();
        p.law_generator_is_complete(m);
    } else {
        law_line_is_safe(moves, n - 1);
        let q = play(start_position(), moves, n - 1);
        assert(q.legal_moves().contains(moves[n - 1]));
        q.law_generator_is_complete_after_a_move(moves[n - 1], m);
    }
}

} // verus!
