//! Soundness of the generator: no legal move leaves the king of the side
//! that moves attacked.
use vstd::prelude::*;
use crate::bits::{
    bit, has_bit, lemma_lsb, lemma_mask_of, lemma_ops_all, lemma_single_all, lemma_zero_iff, lsb,
    without_bit,
};
use crate::bitboard::{PieceType, Side};
use crate::chessboard::{
    attacked_spec, consistent, king_square, lemma_king_square, piece_of_index, side_base,
    ChessBoard,
};
use crate::chessmove::{lemma_new_fields, promotions, ChessMove, MoveType};
use crate::leapers::{king_reach, knight_reach, pawn_reach};
use crate::lines::{clear, diagonal, lemma_bishop_attack_iff, lemma_rook_attack_iff, straight};
use crate::movegen::{all_moves, lemma_moves_to_all, lemma_union_over, normal_move, pin_line};
use crate::tables::{ray_between_spec, strictly_between};
use crate::threat::{
    attacked_on, clear_on, hits_from, lemma_attacked_on, lemma_attackers, lemma_clear_on_symmetric,
    lemma_occupancy_of,
};

verus! {

/// A pawn, a knight or a king attacks from so near, or from so far off
/// every line, that no square lies between it and the square it attacks.
pub proof fn lemma_leaper_is_near(side: Side, x: int, k: int, t: int)
    requires
        pawn_reach(side, x, k) || knight_reach(x, k) || king_reach(x, k),
    ensures
        !strictly_between(k, x, t),
        !strictly_between(x, k, t),
{
}

/// Two pieces that each have `s` between the king and themselves stand on
/// one ray from the king: a square up to the one is before the other, or is
/// the other, or has the other before it.
pub proof fn lemma_same_ray(k: int, s: int, x: int, p: int, t: int)
    requires
        strictly_between(k, x, s),
        strictly_between(k, p, s),
        strictly_between(k, p, t) || t == p,
        !strictly_between(k, x, t),
        t != x,
    ensures
        strictly_between(k, p, x),
{
}

impl ChessBoard {
    /// After the move, no piece of the other side attacks the king of the
    /// side that has moved.
    pub open spec fn safe_after(&self, m: ChessMove) -> bool {
        let mb = self.moved_mailbox(m);
        forall|k: int|
            0 <= k < 64 && #[trigger] mb[k] == Some((self.side_to_move, PieceType::King))
                ==> !attacked_on(mb, k, self.side_to_move.flip())
    }

    /// The checking pieces are the pieces that attack the king.
    pub proof fn lemma_checkers_meaning(&self, x: int)
        requires
            self.wf(),
        ensures
            has_bit(self.check_bb.data, x) <==> hits_from(
                self.mailbox@,
                x,
                self.ksq(),
                self.side_to_move.flip(),
            ),
            0 <= self.ksq() < 64,
            self.mailbox[self.ksq()] == Some((self.side_to_move, PieceType::King)),
    {
        let stm = self.side_to_move;
        let by = stm.flip();
        lemma_king_square(self.piece_bbs@, self.mailbox@, stm);
        let k = self.ksq();
        lemma_attackers(self.piece_bbs@, self.mailbox@, x, k, by);
        if hits_from(self.mailbox@, x, k, by) && self.mailbox[x] == Some((by, PieceType::King)) {
            crate::leapers::lemma_king_reach_symmetric(x, k);
            assert(self.mailbox@[x] == Some((by, PieceType::King)));
            assert(self.mailbox@[k] == Some((stm, PieceType::King)));
        }
    }

    /// A square of the check mask, other than the square of a checking
    /// piece, lies between every checking piece and the king.
    proof fn lemma_answers_check(&self, x: int, t: int)
        requires
            self.wf(),
            has_bit(self.check_mask(), t),
            has_bit(self.check_bb.data, x),
            t != x,
        ensures
            strictly_between(self.ksq(), x, t),
    {
        let c = self.check_bb.data;
        lemma_single_all(0, 0);
        lemma_zero_iff(c);
        lemma_lsb(c);
        lemma_single_all(0, lsb(c));
        lemma_ops_all(c, ray_between_spec(self.ksq(), lsb(c)));
        lemma_mask_of(|y: int| strictly_between(self.ksq(), lsb(c), y));
    }

    /// What it means to be one of the sliders that see the king once the
    /// piece on `s` is lifted.
    pub proof fn lemma_xray_meaning(&self, s: int, p: int)
        requires
            self.wf(),
            0 <= s < 64,
        ensures
            has_bit(self.xray_sliders(s), p) <==> {
                &&& 0 <= p < 64
                &&& self.mailbox[p] matches Some(e) && e.0 == self.side_to_move.flip() && ((e.1
                    == PieceType::Queen && (straight(self.ksq(), p) || diagonal(self.ksq(), p)))
                    || (e.1 == PieceType::Bishop && diagonal(self.ksq(), p)) || (e.1
                    == PieceType::Rook && straight(self.ksq(), p)))
                &&& clear_on(self.mailbox@.update(s, None), self.ksq(), p)
            },
    {
        let stm = self.side_to_move;
        let by = stm.flip();
        let e = side_base(by);
        let k = self.ksq();
        lemma_king_square(self.piece_bbs@, self.mailbox@, stm);
        let occ2 = without_bit(self.occ(), s);
        let q = self.piece_bbs[e + 1].data;
        let b = self.piece_bbs[e + 3].data;
        let r = self.piece_bbs[e + 4].data;
        lemma_ops_all(q, b);
        lemma_ops_all(q, r);
        lemma_ops_all(crate::sliders::bishop_attack_spec(k, occ2), q | b);
        lemma_ops_all(crate::sliders::rook_attack_spec(k, occ2), q | r);
        lemma_ops_all(
            crate::sliders::bishop_attack_spec(k, occ2) & (q | b),
            crate::sliders::rook_attack_spec(k, occ2) & (q | r),
        );
        lemma_bishop_attack_iff(k, occ2, p);
        lemma_rook_attack_iff(k, occ2, p);
        lemma_occupancy_of(self.piece_bbs@, self.mailbox@);
        lemma_single_all(self.occ(), s);
        assert(piece_of_index(e + 1) == (by, PieceType::Queen));
        assert(piece_of_index(e + 3) == (by, PieceType::Bishop));
        assert(piece_of_index(e + 4) == (by, PieceType::Rook));
        if 0 <= p < 64 {
            assert(has_bit(self.piece_bbs@[e + 1].data, p) <==> self.mailbox@[p] == Some(
                piece_of_index(e + 1),
            ));
            assert(has_bit(self.piece_bbs@[e + 3].data, p) <==> self.mailbox@[p] == Some(
                piece_of_index(e + 3),
            ));
            assert(has_bit(self.piece_bbs@[e + 4].data, p) <==> self.mailbox@[p] == Some(
                piece_of_index(e + 4),
            ));
        }
        let lifted = self.mailbox@.update(s, None);
        if clear(k, p, occ2) {
            assert forall|y: int| #[trigger] strictly_between(k, p, y) implies lifted[y] is None by {
                assert(!has_bit(occ2, y));
            }
        }
        if clear_on(lifted, k, p) {
            assert forall|y: int| #[trigger] strictly_between(k, p, y) implies !has_bit(
                occ2,
                y,
            ) by {
                assert(lifted[y] is None);
            }
        }
    }

    /// A piece other than the king that goes from `s` to a square of the
    /// check mask and of its pin mask leaves the king safe.
    pub proof fn lemma_step_safe(&self, s: int, t: int, q: (Side, PieceType))
        requires
            self.wf(),
            0 <= s < 64,
            0 <= t < 64,
            s != t,
            self.mailbox[s] matches Some(p) && p.0 == self.side_to_move && p.1 != PieceType::King,
            q.0 == self.side_to_move,
            has_bit(self.check_mask(), t),
            has_bit(self.pin_mask(s), t),
            !(self.mailbox[t] matches Some(o) && o.1 == PieceType::King),
        ensures
            !attacked_on(
                self.mailbox@.update(s, None).update(t, Some(q)),
                self.ksq(),
                self.side_to_move.flip(),
            ),
            self.mailbox@.update(s, None).update(t, Some(q))[self.ksq()] == Some(
                (self.side_to_move, PieceType::King),
            ),
    {
        let stm = self.side_to_move;
        let by = stm.flip();
        let mb = self.mailbox@;
        let k = self.ksq();
        let after = mb.update(s, None).update(t, Some(q));
        let lifted = mb.update(s, None);
        self.lemma_checkers_meaning(0);
        if attacked_on(after, k, by) {
            let x = choose|x: int| #[trigger] hits_from(after, x, k, by);
            let e = after[x].unwrap();
            assert(x != t && x != s);
            assert(mb[x] == Some(e));
            self.lemma_checkers_meaning(x);
            if e.1 == PieceType::Pawn || e.1 == PieceType::Knight || e.1 == PieceType::King {
                // it attacks the king before the move as well: it gives check
                assert(hits_from(mb, x, k, by));
                self.lemma_answers_check(x, t);
                lemma_leaper_is_near(e.0, x, k, t);
            } else {
                assert(clear_on(after, x, k));
                lemma_clear_on_symmetric(after, x, k);
                assert(!strictly_between(k, x, t)) by {
                    if strictly_between(k, x, t) {
                        assert(after[t] is None);
                    }
                }
                if strictly_between(k, x, s) {
                    // the piece on `s` shields the king from `x`
                    assert(clear_on(lifted, k, x)) by {
                        assert forall|y: int| #[trigger] strictly_between(k, x, y) implies lifted[y]
                            is None by {
                            assert(after[y] is None);
                        }
                    }
                    self.lemma_xray_meaning(s, x);
                    assert(has_bit(self.xray_sliders(s), x));
                    lemma_mask_of(|y: int| strictly_between(k, x, y));
                    let f = |p: int| pin_line(self.ksq(), s, p);
                    lemma_union_over(self.xray_sliders(s), f);
                    lemma_ops_all(ray_between_spec(k, x), bit(x));
                    assert(has_bit(f(x), s));
                    assert(has_bit(self.pin_lines(s), s));
                    lemma_zero_iff(self.pin_lines(s));
                    assert(self.pinned(s));
                    assert(has_bit(self.pin_lines(s), t));
                    let p = choose|p: int|
                        has_bit(self.xray_sliders(s), p) && has_bit(#[trigger] f(p), t);
                    lemma_single_all(0, 0);
                    assert(has_bit(ray_between_spec(k, p), s));
                    lemma_mask_of(|y: int| strictly_between(k, p, y));
                    self.lemma_xray_meaning(s, p);
                    lemma_ops_all(ray_between_spec(k, p), bit(p));
                    lemma_single_all(0, p);
                    assert(strictly_between(k, p, t) || t == p);
                    lemma_same_ray(k, s, x, p, t);
                    assert(lifted[x] is None);
                } else {
                    // the line from `x` to the king was open before the move
                    assert(clear_on(mb, k, x)) by {
                        assert forall|y: int| #[trigger] strictly_between(k, x, y) implies mb[y]
                            is None by {
                            assert(after[y] is None);
                        }
                    }
                    lemma_clear_on_symmetric(mb, x, k);
                    assert(hits_from(mb, x, k, by));
                    self.lemma_answers_check(x, t);
                }
            }
        }
    }
}

/// On the first and on the last rank, the squares strictly between two
/// squares of the rank are the squares of the rank between them.
pub proof fn lemma_between_on_rank(a: int, b: int, x: int)
    requires
        0 <= a < 64,
        0 <= b < 64,
        crate::bitboard::rank_of(a) == crate::bitboard::rank_of(b),
    ensures
        strictly_between(a, b, x) <==> ((a < x < b) || (b < x < a)),
{
}

impl ChessBoard {
    /// The square map without the king of the side to move agrees with
    /// the piece sets without that king.
    pub proof fn lemma_without_king(&self)
        requires
            self.wf(),
        ensures
            consistent(self.bbs_without_king(), self.mailbox@.update(self.ksq(), None)),
    {
        let stm = self.side_to_move;
        let k = self.ksq();
        let kb = side_base(stm);
        lemma_king_square(self.piece_bbs@, self.mailbox@, stm);
        let bbs = self.bbs_without_king();
        let mb = self.mailbox@.update(k, None);
        lemma_single_all(0, 0);
        assert(piece_of_index(kb) == (stm, PieceType::King));
        assert forall|x: int, j: int| 0 <= x < 64 && 0 <= j < 12 implies (has_bit(
            #[trigger] bbs[j].data,
            x,
        ) <==> #[trigger] mb[x] == Some(piece_of_index(j))) by {
            assert(has_bit(self.piece_bbs@[j].data, x) <==> self.mailbox@[x] == Some(
                piece_of_index(j),
            ));
            crate::chessboard::lemma_piece_index((stm, PieceType::King), j);
        }
    }

    /// A step of the king to one of its targets leaves the king safe.
    pub proof fn lemma_king_step_safe(&self, t: int)
        requires
            self.wf(),
            has_bit(self.king_targets(), t),
        ensures
            self.safe_after(normal_move(self.ksq(), t)),
    {
        let stm = self.side_to_move;
        let by = stm.flip();
        let mb = self.mailbox@;
        let k = self.ksq();
        self.lemma_checkers_meaning(0);
        self.lemma_landing();
        let cand = crate::leapers::king_attack_spec(k) & self.landing();
        lemma_mask_of(|y: int| has_bit(cand, y) && !attacked_spec(self.bbs_without_king(), y, by));
        lemma_ops_all(crate::leapers::king_attack_spec(k), self.landing());
        let m = normal_move(k, t);
        lemma_new_fields(k, t, None, MoveType::Normal);
        let lifted = mb.update(k, None);
        let after = self.moved_mailbox(m);
        assert(after =~= lifted.update(t, Some((stm, PieceType::King))));
        self.lemma_without_king();
        lemma_attacked_on(self.bbs_without_king(), lifted, t, by);
        assert(!attacked_on(lifted, t, by));
        assert forall|j: int|
            0 <= j < 64 && #[trigger] after[j] == Some((stm, PieceType::King)) implies !attacked_on(
            after,
            j,
            by,
        ) by {
            assert(j == t);
            if attacked_on(after, t, by) {
                let x = choose|x: int| #[trigger] hits_from(after, x, t, by);
                assert(x != t);
                assert(lifted[x] == after[x]);
                if clear_on(after, x, t) {
                    assert forall|y: int| #[trigger] strictly_between(x, t, y) implies lifted[y]
                        is None by {
                        assert(after[y] is None);
                    }
                }
                assert(hits_from(lifted, x, t, by));
            }
        }
    }

    /// Castling leaves the king safe.
    pub proof fn lemma_castle_safe(&self, long: bool)
        requires
            self.wf(),
            if long {
                self.castle_long_ok()
            } else {
                self.castle_short_ok()
            },
        ensures
            self.safe_after(
                ChessMove::spec_new(
                    crate::movegen::king_home(self.side_to_move),
                    if long {
                        crate::movegen::king_home(self.side_to_move) + 2
                    } else {
                        crate::movegen::king_home(self.side_to_move) - 2
                    },
                    None,
                    MoveType::Castle,
                ),
            ),
    {
        let stm = self.side_to_move;
        let by = stm.flip();
        let mb = self.mailbox@;
        let home = crate::movegen::king_home(stm);
        let t = if long {
            home + 2
        } else {
            home - 2
        };
        let m = ChessMove::spec_new(home, t, None, MoveType::Castle);
        lemma_new_fields(home, t, None, MoveType::Castle);
        self.lemma_checkers_meaning(0);
        self.lemma_occupancies();
        let k = self.ksq();
        assert(k == home);
        let after = self.moved_mailbox(m);
        lemma_attacked_on(self.piece_bbs@, mb, t, by);
        assert(!attacked_on(mb, t, by));
        lemma_zero_iff(self.check_bb.data);
        let corner = crate::transition::castle_rook(t).0;
        let inner = crate::transition::castle_rook(t).1;
        assert forall|j: int|
            0 <= j < 64 && #[trigger] after[j] == Some((stm, PieceType::King)) implies !attacked_on(
            after,
            j,
            by,
        ) by {
            assert(j == t);
            if attacked_on(after, t, by) {
                let x = choose|x: int| #[trigger] hits_from(after, x, t, by);
                let e = after[x].unwrap();
                assert(x != t && x != home && x != corner && x != inner);
                assert(mb[x] == after[x]);
                if e.1 == PieceType::Bishop || e.1 == PieceType::Rook || e.1 == PieceType::Queen {
                    assert(clear_on(after, x, t));
                    if strictly_between(x, t, home) || strictly_between(x, t, corner) {
                        // `x` stands on the back rank on the far side of the
                        // king's home: it gave check before the move
                        lemma_between_on_rank(x, t, home);
                        lemma_between_on_rank(x, t, corner);
                        lemma_between_on_rank(x, home, 0);
                        assert(straight(x, home));
                        assert forall|y: int| #[trigger] strictly_between(x, home, y) implies mb[y]
                            is None by {
                            lemma_between_on_rank(x, home, y);
                            lemma_between_on_rank(x, t, y);
                            assert(strictly_between(x, t, y));
                            assert(after[y] is None);
                        }
                        assert(hits_from(mb, x, home, by));
                        self.lemma_checkers_meaning(x);
                    } else {
                        assert forall|y: int| #[trigger] strictly_between(x, t, y) implies mb[y]
                            is None by {
                            assert(after[y] is None);
                        }
                        assert(hits_from(mb, x, t, by));
                    }
                } else {
                    assert(hits_from(mb, x, t, by));
                }
            }
        }
    }

    /// The piece sets that the generator tries an en-passant capture on
    /// agree with the square map after the capture.
    pub proof fn lemma_after_ep(&self, s: int)
        requires
            self.wf(),
            self.enpassant_bb.data != 0,
            0 <= s < 64,
            self.mailbox[s] == Some((self.side_to_move, PieceType::Pawn)),
        ensures
            consistent(
                self.bbs_after_ep(s),
                self.moved_mailbox(
                    ChessMove::spec_new(
                        s,
                        lsb(self.enpassant_bb.data),
                        None,
                        MoveType::EnPassant,
                    ),
                ),
            ),
    {
        let stm = self.side_to_move;
        let e = lsb(self.enpassant_bb.data);
        lemma_lsb(self.enpassant_bb.data);
        let m = ChessMove::spec_new(s, e, None, MoveType::EnPassant);
        lemma_new_fields(s, e, None, MoveType::EnPassant);
        let victim = crate::transition::ep_victim(stm, e);
        let own = side_base(stm) + 5;
        let other = side_base(stm.flip()) + 5;
        let bbs = self.bbs_after_ep(s);
        let mb = self.moved_mailbox(m);
        lemma_single_all(self.piece_bbs[own].data, s);
        lemma_single_all(without_bit(self.piece_bbs[own].data, s), e);
        lemma_single_all(self.piece_bbs[other].data, victim);
        assert(piece_of_index(own) == (stm, PieceType::Pawn));
        assert(piece_of_index(other) == (stm.flip(), PieceType::Pawn));
        assert forall|x: int, j: int| 0 <= x < 64 && 0 <= j < 12 implies (has_bit(
            #[trigger] bbs[j].data,
            x,
        ) <==> #[trigger] mb[x] == Some(piece_of_index(j))) by {
            assert(has_bit(self.piece_bbs@[j].data, x) <==> self.mailbox@[x] == Some(
                piece_of_index(j),
            ));
            crate::chessboard::lemma_piece_index((stm, PieceType::Pawn), j);
            crate::chessboard::lemma_piece_index((stm.flip(), PieceType::Pawn), j);
        }
    }

    /// A legal en-passant capture leaves the king safe.
    pub proof fn lemma_ep_safe(&self, s: int)
        requires
            self.wf(),
            0 <= s < 64,
            self.mailbox[s] == Some((self.side_to_move, PieceType::Pawn)),
            self.ep_legal(s),
        ensures
            self.safe_after(
                ChessMove::spec_new(s, lsb(self.enpassant_bb.data), None, MoveType::EnPassant),
            ),
    {
        let stm = self.side_to_move;
        let by = stm.flip();
        let e = lsb(self.enpassant_bb.data);
        lemma_lsb(self.enpassant_bb.data);
        let m = ChessMove::spec_new(s, e, None, MoveType::EnPassant);
        lemma_new_fields(s, e, None, MoveType::EnPassant);
        self.lemma_checkers_meaning(0);
        self.lemma_after_ep(s);
        let after = self.moved_mailbox(m);
        let k = self.ksq();
        lemma_attacked_on(self.bbs_after_ep(s), after, k, by);
        assert forall|j: int|
            0 <= j < 64 && #[trigger] after[j] == Some((stm, PieceType::King)) implies !attacked_on(
            after,
            j,
            by,
        ) by {
            assert(self.mailbox@[j] == Some((stm, PieceType::King)));
            lemma_king_square(self.piece_bbs@, self.mailbox@, stm);
            assert(j == k);
        }
    }
}


impl ChessBoard {
    /// A move of a piece other than the king from `s` to `t`, within the
    /// check mask and the pin mask, leaves the king safe, whatever piece of
    /// the side to move it puts on `t`.
    proof fn lemma_step_safe_after(&self, s: int, t: int, m: ChessMove)
        requires
            self.wf(),
            0 <= s < 64,
            0 <= t < 64,
            s != t,
            self.mailbox[s] matches Some(p) && p.0 == self.side_to_move && p.1 != PieceType::King,
            has_bit(self.check_mask(), t),
            has_bit(self.pin_mask(s), t),
            !(self.mailbox[t] matches Some(o) && o.1 == PieceType::King),
            m.spec_source() == s,
            m.spec_target() == t,
            m.spec_move_type() == MoveType::Normal || (m.spec_move_type() == MoveType::Promotion
                && self.mailbox[s].unwrap().1 == PieceType::Pawn),
        ensures
            self.safe_after(m),
    {
        let stm = self.side_to_move;
        let q = if m.spec_move_type() == MoveType::Normal {
            self.mailbox[s].unwrap()
        } else {
            (stm, m.spec_piece().unwrap())
        };
        self.lemma_step_safe(s, t, q);
        let after = self.moved_mailbox(m);
        assert(after =~= self.mailbox@.update(s, None).update(t, Some(q)));
        crate::chessmove::lemma_decode(m);
        assert forall|j: int|
            0 <= j < 64 && #[trigger] after[j] == Some((stm, PieceType::King)) implies !attacked_on(
            after,
            j,
            stm.flip(),
        ) by {
            lemma_king_square(self.piece_bbs@, self.mailbox@, stm);
            assert(self.mailbox@[j] == Some((stm, PieceType::King)));
            assert(j == self.ksq());
        }
    }

    /// The moves of a queen, knight, bishop or rook leave the king safe.
    proof fn lemma_officer_safe(&self, k: int, s: int)
        requires
            self.wf(),
            1 <= k <= 4,
            has_bit(self.piece_bbs[side_base(self.side_to_move) + k].data, s),
        ensures
            all_moves(|m: ChessMove| self.safe_after(m), self.piece_moves(k, s)),
    {
        let pred = |m: ChessMove| self.safe_after(m);
        let targets = self.officer_targets(k, s);
        let base = side_base(self.side_to_move);
        self.lemma_landing();
        assert(piece_of_index(base + k).0 == self.side_to_move);
        assert(piece_of_index(base + k).1 != PieceType::King);
        assert(self.mailbox[s] == Some(piece_of_index(base + k)));
        assert forall|t: int| #[trigger] has_bit(targets, t) implies pred(normal_move(s, t)) by {
            lemma_single_all(0, 0);
            let raw = if k == 1 {
                crate::sliders::queen_attack_spec(s, self.occ())
            } else if k == 2 {
                crate::leapers::knight_attack_spec(s)
            } else if k == 3 {
                crate::sliders::bishop_attack_spec(s, self.occ())
            } else {
                crate::sliders::rook_attack_spec(s, self.occ())
            };
            lemma_ops_all(raw & self.landing() & self.check_mask(), self.pin_mask(s));
            lemma_ops_all(raw & self.landing(), self.check_mask());
            lemma_ops_all(raw, self.landing());
            lemma_new_fields(s, t, None, MoveType::Normal);
            self.lemma_occupancies();
            self.lemma_step_safe_after(s, t, normal_move(s, t));
        }
        lemma_moves_to_all(pred, s, targets, false);
    }

    /// The four promotions of a step that is within the masks leave the
    /// king safe.
    proof fn lemma_promotions_safe(&self, s: int, t: int)
        requires
            self.wf(),
            0 <= s < 64,
            0 <= t < 64,
            s != t,
            self.mailbox[s] == Some((self.side_to_move, PieceType::Pawn)),
            has_bit(self.check_mask(), t),
            has_bit(self.pin_mask(s), t),
            !(self.mailbox[t] matches Some(o) && o.1 == PieceType::King),
        ensures
            all_moves(|m: ChessMove| self.safe_after(m), promotions(s, t)),
    {
        lemma_new_fields(s, t, Some(PieceType::Queen), MoveType::Promotion);
        lemma_new_fields(s, t, Some(PieceType::Rook), MoveType::Promotion);
        lemma_new_fields(s, t, Some(PieceType::Bishop), MoveType::Promotion);
        lemma_new_fields(s, t, Some(PieceType::Knight), MoveType::Promotion);
        let ps = promotions(s, t);
        self.lemma_step_safe_after(s, t, ps[0]);
        self.lemma_step_safe_after(s, t, ps[1]);
        self.lemma_step_safe_after(s, t, ps[2]);
        self.lemma_step_safe_after(s, t, ps[3]);
    }

    /// The moves of a pawn leave the king safe.
    proof fn lemma_pawn_safe(&self, s: int)
        requires
            self.wf(),
            has_bit(self.piece_bbs[side_base(self.side_to_move) + 5].data, s),
        ensures
            all_moves(|m: ChessMove| self.safe_after(m), self.piece_moves(5, s)),
    {
        let pred = |m: ChessMove| self.safe_after(m);
        let stm = self.side_to_move;
        let base = side_base(stm);
        let promote = crate::movegen::promoting(stm, s);
        self.lemma_landing();
        self.lemma_occupancies();
        assert(piece_of_index(base + 5) == (stm, PieceType::Pawn));
        assert(self.mailbox[s] == Some(piece_of_index(base + 5)));
        assert(8 <= s < 56);
        let t1 = crate::movegen::forward(stm, s, 1);
        let t2 = crate::movegen::forward(stm, s, 2);
        lemma_single_all(0, 0);
        let push = self.push_target(s);
        assert forall|t: int| #[trigger] has_bit(push, t) implies (if promote {
            all_moves(pred, promotions(s, t))
        } else {
            pred(normal_move(s, t))
        }) by {
            lemma_ops_all(bit(t1) & self.check_mask(), self.pin_mask(s));
            lemma_ops_all(bit(t1), self.check_mask());
            lemma_single_all(0, t1);
            assert(t == t1);
            if promote {
                self.lemma_promotions_safe(s, t);
            } else {
                lemma_new_fields(s, t, None, MoveType::Normal);
                self.lemma_step_safe_after(s, t, normal_move(s, t));
            }
        }
        lemma_moves_to_all(pred, s, push, promote);
        let double = self.double_push_target(s);
        assert forall|t: int| #[trigger] has_bit(double, t) implies pred(normal_move(s, t)) by {
            lemma_ops_all(bit(t2) & self.check_mask(), self.pin_mask(s));
            lemma_ops_all(bit(t2), self.check_mask());
            lemma_single_all(0, t2);
            assert(t == t2);
            lemma_new_fields(s, t, None, MoveType::Normal);
            self.lemma_step_safe_after(s, t, normal_move(s, t));
        }
        lemma_moves_to_all(pred, s, double, false);
        let captures = self.capture_targets(s);
        assert forall|t: int| #[trigger] has_bit(captures, t) implies (if promote {
            all_moves(pred, promotions(s, t))
        } else {
            pred(normal_move(s, t))
        }) by {
            let a = crate::leapers::pawn_attack_spec(stm, s);
            lemma_ops_all(a & self.enemies() & !self.enemy_king() & self.check_mask(), self.pin_mask(s));
            lemma_ops_all(a & self.enemies() & !self.enemy_king(), self.check_mask());
            lemma_ops_all(a & self.enemies(), !self.enemy_king());
            lemma_ops_all(a, self.enemies());
            lemma_ops_all(self.enemy_king(), 0);
            Self::lemma_pawn_attack_rank(stm, s, t);
            if promote {
                self.lemma_promotions_safe(s, t);
            } else {
                lemma_new_fields(s, t, None, MoveType::Normal);
                self.lemma_step_safe_after(s, t, normal_move(s, t));
            }
        }
        lemma_moves_to_all(pred, s, captures, promote);
        if self.ep_legal(s) {
            self.lemma_ep_safe(s);
        }
    }

    /// The moves of the king leave the king safe.
    proof fn lemma_king_safe(&self)
        requires
            self.wf(),
        ensures
            all_moves(|m: ChessMove| self.safe_after(m), self.piece_moves(0, self.ksq())),
    {
        let pred = |m: ChessMove| self.safe_after(m);
        let s = self.ksq();
        assert forall|t: int| #[trigger] has_bit(self.king_targets(), t) implies pred(
            normal_move(s, t),
        ) by {
            self.lemma_king_step_safe(t);
        }
        lemma_moves_to_all(pred, s, self.king_targets(), false);
        if self.castle_short_ok() {
            self.lemma_castle_safe(false);
        }
        if self.castle_long_ok() {
            self.lemma_castle_safe(true);
        }
    }

    /// Every legal move leaves the king of the side that moves safe.
    pub proof fn lemma_legal_moves_safe(&self)
        requires
            self.wf(),
        ensures
            all_moves(|m: ChessMove| self.safe_after(m), self.legal_moves()),
    {
        let pred = |m: ChessMove| self.safe_after(m);
        let base = side_base(self.side_to_move);
        assert forall|j: int, s: int|
            0 <= j < 6 && #[trigger] has_bit(self.piece_bbs[base + j].data, s) implies all_moves(
            pred,
            self.piece_moves(j, s),
        ) by {
            if j == 0 {
                lemma_king_square(self.piece_bbs@, self.mailbox@, self.side_to_move);
                lemma_single_all(0, self.ksq());
                assert(s == self.ksq());
                self.lemma_king_safe();
            } else if j == 5 {
                self.lemma_pawn_safe(s);
            } else {
                self.lemma_officer_safe(j, s);
            }
        }
        self.lemma_kinds_all(pred, 0);
    }

    /// The generator is sound: after a legal move, the king of the side
    /// that has moved is not attacked.
    pub proof fn law_generator_is_sound(&self, i: int)
        requires
            self.wf(),
            0 <= i < self.legal_moves().len(),
        ensures
            !attacked_spec(
                self.successor(self.legal_moves()[i]).piece_bbs@,
                king_square(
                    self.successor(self.legal_moves()[i]).piece_bbs@,
                    self.side_to_move,
                ),
                self.side_to_move.flip(),
            ),
    {
        let m = self.legal_moves()[i];
        let stm = self.side_to_move;
        self.lemma_legal_moves_safe();
        assert(self.safe_after(m));
        self.lemma_legal_moves_fine();
        assert(self.fine(m));
        crate::laws::lemma_successor_of(*self, m);
        let r = self.successor(m);
        lemma_king_square(r.piece_bbs@, r.mailbox@, stm);
        let k = king_square(r.piece_bbs@, stm);
        assert(r.mailbox@[k] == Some((stm, PieceType::King)));
        lemma_attacked_on(r.piece_bbs@, r.mailbox@, k, stm.flip());
    }
}


} // verus!
