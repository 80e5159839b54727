//! Completeness of the generator: every move that follows the rules of
//! its piece and leaves the own king safe is a legal move.
use vstd::prelude::*;
use crate::bits::{
    bit, has_bit, lemma_ext, lemma_has_bit_basics, lemma_lsb, lemma_mask_of, lemma_ops_all,
    lemma_single_all, lemma_zero_iff, lsb, without_bit,
};
use crate::bitboard::{rank_of, PieceType, Side};
use crate::chessboard::{attacked_spec, is_single, piece_of_index, side_base, ChessBoard};
use crate::chessmove::{lemma_decode, lemma_new_fields, promotions, ChessMove, MoveType};
use crate::leapers::{
    king_attack_spec, king_reach, knight_attack_spec, knight_reach, pawn_attack_spec, pawn_reach,
};
use crate::lines::{lemma_bishop_attack_iff, lemma_queen_attack_iff, lemma_rook_attack_iff};
use crate::movegen::{
    forward, king_home, lemma_union_over, moves_to, normal_move, on_home_rank, pin_line, promoting,
};
use crate::soundness::lemma_leaper_is_near;
use crate::tables::{ray_between_spec, strictly_between};
use crate::threat::{
    attacked_on, clear_on, hits_from, lemma_attacked_on, lemma_clear_on, lemma_clear_on_symmetric,
    piece_hits,
};
use crate::transition::ep_victim;

verus! {

/// A sequence that holds a move holds it after something is put before it
/// or behind it.
pub proof fn lemma_contains_join(a: Seq<ChessMove>, b: Seq<ChessMove>, m: ChessMove)
    requires
        a.contains(m) || b.contains(m),
    ensures
        (a + b).contains(m),
{
    if a.contains(m) {
        let i = choose|i: int| 0 <= i < a.len() && a[i] == m;
        assert((a + b)[i] == m);
    } else {
        let i = choose|i: int| 0 <= i < b.len() && b[i] == m;
        assert((a + b)[a.len() + i] == m);
    }
}

/// The moves to a set of targets hold the move to each target.
pub proof fn lemma_moves_to_has(
    source: int,
    targets: u64,
    promote: bool,
    t: int,
    m: ChessMove,
)
    requires
        has_bit(targets, t),
        if promote {
            promotions(source, t).contains(m)
        } else {
            m == normal_move(source, t)
        },
    ensures
        moves_to(source, targets, promote).contains(m),
    decreases targets,
{
    lemma_single_all(0, 0);
    lemma_zero_iff(targets);
    lemma_lsb(targets);
    let l = lsb(targets);
    let rest = without_bit(targets, l);
    lemma_single_all(targets, l);
    let head = if promote {
        promotions(source, l)
    } else {
        seq![normal_move(source, l)]
    };
    let tail = moves_to(source, rest, promote);
    if t == l {
        if !promote {
            assert(head[0] == m);
        }
    } else {
        lemma_moves_to_has(source, rest, promote, t, m);
    }
    lemma_contains_join(head, tail, m);
}

/// Two pieces that attack one square along lines that share a square stand
/// on one ray: one of them is between the square and the other.
pub proof fn lemma_rays_meet(k: int, x: int, y: int, t: int)
    requires
        strictly_between(k, x, t),
        strictly_between(k, y, t),
        x != y,
    ensures
        strictly_between(k, x, y) || strictly_between(k, y, x),
{
}

/// A knight does not move along a line: no square it reaches shares a line
/// through its own square.
pub proof fn lemma_knight_leaves_line(k: int, p: int, s: int, t: int)
    requires
        strictly_between(k, p, s),
        strictly_between(k, p, t) || t == p,
    ensures
        !knight_reach(s, t),
{
}

impl ChessBoard {
    /// The pawn on `s` may go to `t` by the rules of the pawn: one step
    /// ahead to an empty square, two steps ahead from its home rank over
    /// empty squares, or one step aslant onto a piece of the other side.
    pub open spec fn pawn_step(&self, s: int, t: int) -> bool {
        let stm = self.side_to_move;
        let mb = self.mailbox@;
        ||| (t == forward(stm, s, 1) && mb[t] is None)
        ||| (on_home_rank(stm, s) && t == forward(stm, s, 2) && mb[forward(stm, s, 1)] is None
            && mb[t] is None)
        ||| (pawn_reach(stm, s, t) && (mb[t] matches Some(o) && o.0 == stm.flip()))
    }

    /// The rules of castling but for the last: the king is at home and not
    /// in check, the right is held, the squares between king and rook are
    /// empty, and the square that the king crosses is not attacked.
    pub open spec fn castle_step(&self, s: int, t: int) -> bool {
        let stm = self.side_to_move;
        let mb = self.mailbox@;
        let home = king_home(stm);
        let by = stm.flip();
        let short_right = match stm {
            Side::White => self.castle_bools[0],
            Side::Black => self.castle_bools[2],
        };
        let long_right = match stm {
            Side::White => self.castle_bools[1],
            Side::Black => self.castle_bools[3],
        };
        &&& s == home
        &&& self.check_bb.data == 0
        &&& {
            ||| (t == home - 2 && short_right && mb[home - 1] is None && mb[home - 2] is None
                && !attacked_on(mb, home - 1, by))
            ||| (t == home + 2 && long_right && mb[home + 1] is None && mb[home + 2] is None
                && mb[home + 3] is None && !attacked_on(mb, home + 1, by))
        }
    }

    /// The move follows the rules of its piece, the safety of the own king
    /// aside: it starts on a piece of the side to move, lands on no piece
    /// of that side and on no king, and goes as its piece goes.
    pub open spec fn pseudo_legal(&self, m: ChessMove) -> bool {
        let s = m.spec_source();
        let t = m.spec_target();
        let mb = self.mailbox@;
        let stm = self.side_to_move;
        &&& mb[s] matches Some(p) && p.0 == stm
        &&& !(mb[t] matches Some(o) && (o.0 == stm || o.1 == PieceType::King))
        &&& match m.spec_move_type() {
            MoveType::Normal => m.spec_piece_raw() == 0 && (if mb[s].unwrap().1
                == PieceType::Pawn {
                !promoting(stm, s) && self.pawn_step(s, t)
            } else {
                piece_hits(mb[s].unwrap(), s, t, mb)
            }),
            MoveType::Promotion => mb[s].unwrap().1 == PieceType::Pawn && promoting(stm, s)
                && self.pawn_step(s, t),
            MoveType::EnPassant => m.spec_piece_raw() == 0 && mb[s].unwrap().1 == PieceType::Pawn
                && self.enpassant_bb.data != 0 && t == lsb(self.enpassant_bb.data) && pawn_reach(
                stm,
                s,
                t,
            ),
            MoveType::Castle => m.spec_piece_raw() == 0 && mb[s].unwrap().1 == PieceType::King
                && self.castle_step(s, t),
        }
    }

    /// The checking pieces leave a piece other than the king no choice: a
    /// move of it that leaves the king safe lands within the check mask.
    proof fn lemma_safe_answers_check(&self, s: int, t: int, q: (Side, PieceType))
        requires
            self.wf(),
            0 <= s < 64,
            0 <= t < 64,
            s != t,
            self.mailbox[s] matches Some(p) && p.0 == self.side_to_move && p.1 != PieceType::King,
            q.0 == self.side_to_move,
            !attacked_on(
                self.mailbox@.update(s, None).update(t, Some(q)),
                self.ksq(),
                self.side_to_move.flip(),
            ),
        ensures
            has_bit(self.check_mask(), t),
    {
        let stm = self.side_to_move;
        let by = stm.flip();
        let mb = self.mailbox@;
        let k = self.ksq();
        let c = self.check_bb.data;
        let after = mb.update(s, None).update(t, Some(q));
        self.lemma_checkers_meaning(0);
        lemma_has_bit_basics(0, t);
        if c != 0 {
            lemma_lsb(c);
            let x = lsb(c);
            self.lemma_step_must_answer(s, t, q, x);
            if !is_single(c) {
                // a second checking piece
                lemma_single_all(0, x);
                if forall|j: int| 0 <= j < 64 ==> has_bit(c, j) == has_bit(bit(x), j) {
                    lemma_ext(c, bit(x));
                }
                let y = choose|j: int| 0 <= j < 64 && has_bit(c, j) != has_bit(bit(x), j);
                assert(has_bit(c, y) && y != x);
                self.lemma_step_must_answer(s, t, q, y);
                self.lemma_checkers_meaning(x);
                self.lemma_checkers_meaning(y);
                let ex = mb[x].unwrap();
                let ey = mb[y].unwrap();
                lemma_clear_on_symmetric(mb, x, k);
                lemma_clear_on_symmetric(mb, y, k);
                if strictly_between(k, x, t) {
                    if ex.1 == PieceType::Pawn || ex.1 == PieceType::Knight || ex.1
                        == PieceType::King {
                        lemma_leaper_is_near(ex.0, x, k, t);
                    }
                }
                if strictly_between(k, y, t) {
                    if ey.1 == PieceType::Pawn || ey.1 == PieceType::Knight || ey.1
                        == PieceType::King {
                        lemma_leaper_is_near(ey.0, y, k, t);
                    }
                }
                if t == x {
                    assert(strictly_between(k, y, x));
                    assert(mb[x] is None);
                } else if t == y {
                    assert(strictly_between(k, x, y));
                    assert(mb[y] is None);
                } else {
                    lemma_rays_meet(k, x, y, t);
                    if strictly_between(k, x, y) {
                        assert(mb[y] is None);
                    } else {
                        assert(mb[x] is None);
                    }
                }
            }
            lemma_ops_all(c, ray_between_spec(k, x));
            lemma_mask_of(|j: int| strictly_between(k, x, j));
        }
    }

    /// A checking piece still attacks the king after a move of another
    /// piece, unless the move takes it or lands between it and the king.
    proof fn lemma_step_must_answer(&self, s: int, t: int, q: (Side, PieceType), x: int)
        requires
            self.wf(),
            0 <= s < 64,
            0 <= t < 64,
            s != t,
            self.mailbox[s] matches Some(p) && p.0 == self.side_to_move && p.1 != PieceType::King,
            q.0 == self.side_to_move,
            has_bit(self.check_bb.data, x),
            !attacked_on(
                self.mailbox@.update(s, None).update(t, Some(q)),
                self.ksq(),
                self.side_to_move.flip(),
            ),
        ensures
            t == x || strictly_between(self.ksq(), x, t),
    {
        let stm = self.side_to_move;
        let by = stm.flip();
        let mb = self.mailbox@;
        let k = self.ksq();
        let after = mb.update(s, None).update(t, Some(q));
        self.lemma_checkers_meaning(x);
        if t != x && !strictly_between(k, x, t) {
            assert(after[x] == mb[x]);
            if clear_on(mb, x, k) {
                assert forall|y: int| #[trigger] strictly_between(x, k, y) implies after[y]
                    is None by {
                    crate::lines::lemma_between_symmetric(x, k, y);
                    assert(mb[y] is None);
                }
            }
            assert(hits_from(after, x, k, by));
        }
    }

    /// A pinned piece has no choice: a move of it that leaves the king
    /// safe lands within the pin mask.
    proof fn lemma_safe_respects_pin(&self, s: int, t: int, q: (Side, PieceType))
        requires
            self.wf(),
            0 <= s < 64,
            0 <= t < 64,
            s != t,
            self.mailbox[s] matches Some(p) && p.0 == self.side_to_move && p.1 != PieceType::King,
            q.0 == self.side_to_move,
            !attacked_on(
                self.mailbox@.update(s, None).update(t, Some(q)),
                self.ksq(),
                self.side_to_move.flip(),
            ),
        ensures
            has_bit(self.pin_mask(s), t),
            self.pinned(s) ==> exists|p: int|
                strictly_between(self.ksq(), p, s) && (strictly_between(self.ksq(), p, t) || t
                    == p),
    {
        let stm = self.side_to_move;
        let by = stm.flip();
        let mb = self.mailbox@;
        let k = self.ksq();
        let after = mb.update(s, None).update(t, Some(q));
        let lifted = mb.update(s, None);
        self.lemma_checkers_meaning(0);
        lemma_has_bit_basics(0, t);
        if self.pinned(s) {
            let f = |p: int| pin_line(self.ksq(), s, p);
            lemma_union_over(self.xray_sliders(s), f);
            lemma_zero_iff(self.pin_lines(s));
            let j = choose|j: int| 0 <= j < 64 && has_bit(self.pin_lines(s), j);
            let p = choose|p: int| has_bit(self.xray_sliders(s), p) && has_bit(#[trigger] f(p), j);
            lemma_single_all(0, 0);
            assert(has_bit(ray_between_spec(k, p), s));
            lemma_mask_of(|y: int| strictly_between(k, p, y));
            self.lemma_xray_meaning(s, p);
            assert(strictly_between(k, p, s));
            if t != p && !strictly_between(k, p, t) {
                assert(after[p] == mb[p]);
                assert forall|y: int| #[trigger] strictly_between(p, k, y) implies after[y]
                    is None by {
                    crate::lines::lemma_between_symmetric(p, k, y);
                    assert(lifted[y] is None);
                }
                assert(hits_from(after, p, k, by));
            }
            lemma_ops_all(ray_between_spec(k, p), bit(p));
            lemma_single_all(0, p);
            assert(has_bit(f(p), t));
        }
    }
}

impl ChessBoard {
    /// The moves of the pieces of one kind hold the moves of each of them.
    proof fn lemma_sources_has(&self, k: int, sources: u64, s: int, m: ChessMove)
        requires
            has_bit(sources, s),
            self.piece_moves(k, s).contains(m),
        ensures
            self.sources_moves(k, sources).contains(m),
        decreases sources,
    {
        lemma_single_all(0, 0);
        lemma_zero_iff(sources);
        lemma_lsb(sources);
        let l = lsb(sources);
        let rest = without_bit(sources, l);
        lemma_single_all(sources, l);
        if s != l {
            self.lemma_sources_has(k, rest, s, m);
        }
        lemma_contains_join(self.piece_moves(k, l), self.sources_moves(k, rest), m);
    }

    /// The moves of the kinds from `from` on hold the moves of each piece
    /// of those kinds.
    proof fn lemma_kinds_has(&self, from: int, k: int, s: int, m: ChessMove)
        requires
            0 <= from <= k < 6,
            has_bit(self.piece_bbs[side_base(self.side_to_move) + k].data, s),
            self.piece_moves(k, s).contains(m),
        ensures
            self.kinds_moves(from).contains(m),
        decreases 6 - from,
    {
        let base = side_base(self.side_to_move);
        if from == k {
            self.lemma_sources_has(k, self.piece_bbs[base + k].data, s, m);
        } else {
            self.lemma_kinds_has(from + 1, k, s, m);
        }
        lemma_contains_join(
            self.sources_moves(from, self.piece_bbs[base + from].data),
            self.kinds_moves(from + 1),
            m,
        );
    }

    /// A step of the king that leaves it safe is one of the king's moves.
    proof fn lemma_king_step_complete(&self, m: ChessMove)
        requires
            self.wf(),
            self.pseudo_legal(m),
            self.safe_after(m),
            self.mailbox[m.spec_source()] == Some((self.side_to_move, PieceType::King)),
            m.spec_move_type() == MoveType::Normal,
        ensures
            self.piece_moves(0, self.ksq()).contains(m),
    {
        let stm = self.side_to_move;
        let by = stm.flip();
        let mb = self.mailbox@;
        let s = m.spec_source();
        let t = m.spec_target();
        lemma_decode(m);
        self.lemma_checkers_meaning(0);
        let k = self.ksq();
        assert(mb[s] == Some((stm, PieceType::King)));
        assert(s == k);
        lemma_new_fields(s, t, None, MoveType::Normal);
        crate::chessmove::lemma_move_fields_determine(m, normal_move(s, t));
        self.lemma_landing();
        let cand = king_attack_spec(k) & self.landing();
        lemma_mask_of(|y: int| has_bit(cand, y) && !attacked_spec(self.bbs_without_king(), y, by));
        lemma_ops_all(king_attack_spec(k), self.landing());
        lemma_mask_of(|y: int| king_reach(k, y));
        let lifted = mb.update(k, None);
        let after = self.moved_mailbox(m);
        assert(after =~= lifted.update(t, Some((stm, PieceType::King))));
        self.lemma_without_king();
        lemma_attacked_on(self.bbs_without_king(), lifted, t, by);
        assert(after[t] == Some((stm, PieceType::King)));
        if attacked_on(lifted, t, by) {
            let x = choose|x: int| #[trigger] hits_from(lifted, x, t, by);
            assert(x != t);
            assert(after[x] == lifted[x]);
            if clear_on(lifted, x, t) {
                assert forall|y: int| #[trigger] strictly_between(x, t, y) implies after[y]
                    is None by {
                    assert(lifted[y] is None);
                }
            }
            assert(hits_from(after, x, t, by));
        }
        assert(has_bit(self.king_targets(), t));
        lemma_moves_to_has(k, self.king_targets(), false, t, m);
        lemma_contains_join(self.castle_moves(), moves_to(k, self.king_targets(), false), m);
    }

    /// Castling that follows the rules and leaves the king safe is one of
    /// the king's moves.
    proof fn lemma_castle_complete(&self, m: ChessMove)
        requires
            self.wf(),
            self.pseudo_legal(m),
            self.safe_after(m),
            m.spec_move_type() == MoveType::Castle,
        ensures
            self.piece_moves(0, self.ksq()).contains(m),
    {
        let stm = self.side_to_move;
        let by = stm.flip();
        let mb = self.mailbox@;
        let s = m.spec_source();
        let t = m.spec_target();
        let home = king_home(stm);
        lemma_decode(m);
        self.lemma_checkers_meaning(0);
        self.lemma_occupancies();
        let k = self.ksq();
        assert(mb[s] == Some((stm, PieceType::King)));
        assert(s == k && k == home);
        lemma_new_fields(home, t, None, MoveType::Castle);
        crate::chessmove::lemma_move_fields_determine(
            m,
            ChessMove::spec_new(home, t, None, MoveType::Castle),
        );
        let after = self.moved_mailbox(m);
        let corner = crate::transition::castle_rook(t).0;
        let inner = crate::transition::castle_rook(t).1;
        assert(after[t] == Some((stm, PieceType::King)));
        lemma_attacked_on(self.piece_bbs@, mb, t, by);
        lemma_attacked_on(self.piece_bbs@, mb, inner, by);
        if attacked_on(mb, t, by) {
            let x = choose|x: int| #[trigger] hits_from(mb, x, t, by);
            assert(x != t && x != home && x != corner && x != inner);
            assert(after[x] == mb[x]);
            if clear_on(mb, x, t) {
                assert forall|y: int| #[trigger] strictly_between(x, t, y) implies after[y]
                    is None by {
                    assert(mb[y] is None);
                    if y == inner {
                        // `x` stands on the back rank beyond the king
                        assert(rank_of(x) == rank_of(t));
                        crate::soundness::lemma_between_on_rank(x, t, inner);
                        crate::soundness::lemma_between_on_rank(x, t, home);
                        assert(strictly_between(x, t, home));
                        assert(mb[home] is None);
                    }
                }
            }
            assert(hits_from(after, x, t, by));
        }
        assert(!attacked_on(mb, t, by));
        let short = seq![ChessMove::spec_new(home, home - 2, None, MoveType::Castle)];
        let long = seq![ChessMove::spec_new(home, home + 2, None, MoveType::Castle)];
        if t == home - 2 {
            assert(self.castle_short_ok());
            assert(short[0] == m);
        } else {
            assert(self.castle_long_ok());
            assert(long[0] == m);
        }
        lemma_contains_join(
            if self.castle_short_ok() {
                short
            } else {
                Seq::empty()
            },
            if self.castle_long_ok() {
                long
            } else {
                Seq::empty()
            },
            m,
        );
        lemma_contains_join(self.castle_moves(), moves_to(k, self.king_targets(), false), m);
    }

    /// What the safety of the king after a move of another piece says of
    /// the target of the move.
    proof fn lemma_safe_within_masks(&self, m: ChessMove)
        requires
            self.wf(),
            self.pseudo_legal(m),
            self.safe_after(m),
            self.mailbox[m.spec_source()].unwrap().1 != PieceType::King,
            m.spec_move_type() == MoveType::Normal || m.spec_move_type() == MoveType::Promotion,
        ensures
            has_bit(self.check_mask(), m.spec_target()),
            has_bit(self.pin_mask(m.spec_source()), m.spec_target()),
            self.pinned(m.spec_source()) ==> exists|p: int|
                strictly_between(self.ksq(), p, m.spec_source()) && (strictly_between(
                    self.ksq(),
                    p,
                    m.spec_target(),
                ) || m.spec_target() == p),
            0 <= m.spec_source() < 64,
            0 <= m.spec_target() < 64,
            m.spec_source() != m.spec_target(),
    {
        let stm = self.side_to_move;
        let mb = self.mailbox@;
        let s = m.spec_source();
        let t = m.spec_target();
        lemma_decode(m);
        self.lemma_checkers_meaning(0);
        let k = self.ksq();
        let q = if m.spec_move_type() == MoveType::Normal {
            mb[s].unwrap()
        } else {
            (stm, m.spec_piece().unwrap())
        };
        let after = self.moved_mailbox(m);
        assert(after =~= mb.update(s, None).update(t, Some(q)));
        assert(after[k] == Some((stm, PieceType::King)));
        self.lemma_safe_answers_check(s, t, q);
        self.lemma_safe_respects_pin(s, t, q);
    }

    /// A move of a queen, knight, bishop or rook that follows the rules
    /// and leaves the king safe is one of the moves of that piece.
    proof fn lemma_officer_complete(&self, k: int, m: ChessMove)
        requires
            self.wf(),
            self.pseudo_legal(m),
            self.safe_after(m),
            1 <= k <= 4,
            self.mailbox[m.spec_source()] == Some(piece_of_index(side_base(self.side_to_move) + k)),
            m.spec_move_type() == MoveType::Normal,
        ensures
            self.piece_moves(k, m.spec_source()).contains(m),
    {
        let stm = self.side_to_move;
        let mb = self.mailbox@;
        let s = m.spec_source();
        let t = m.spec_target();
        let base = side_base(stm);
        assert(piece_of_index(base + k).0 == stm);
        assert(piece_of_index(base + k).1 != PieceType::King);
        assert(piece_of_index(base + k).1 != PieceType::Pawn);
        self.lemma_safe_within_masks(m);
        lemma_new_fields(s, t, None, MoveType::Normal);
        crate::chessmove::lemma_move_fields_determine(m, normal_move(s, t));
        self.lemma_landing();
        let occ = self.occ();
        lemma_clear_on(self.piece_bbs@, mb, s, t);
        lemma_queen_attack_iff(s, occ, t);
        lemma_bishop_attack_iff(s, occ, t);
        lemma_rook_attack_iff(s, occ, t);
        lemma_mask_of(|y: int| knight_reach(s, y));
        let raw = if k == 1 {
            crate::sliders::queen_attack_spec(s, occ)
        } else if k == 2 {
            knight_attack_spec(s)
        } else if k == 3 {
            crate::sliders::bishop_attack_spec(s, occ)
        } else {
            crate::sliders::rook_attack_spec(s, occ)
        };
        assert(has_bit(raw, t));
        lemma_ops_all(raw & self.landing() & self.check_mask(), self.pin_mask(s));
        lemma_ops_all(raw & self.landing(), self.check_mask());
        lemma_ops_all(raw, self.landing());
        if k == 2 && self.pinned(s) {
            let p = choose|p: int|
                strictly_between(self.ksq(), p, s) && (strictly_between(self.ksq(), p, t) || t
                    == p);
            lemma_knight_leaves_line(self.ksq(), p, s, t);
        }
        assert(has_bit(self.officer_targets(k, s), t));
        lemma_moves_to_has(s, self.officer_targets(k, s), false, t, m);
    }

    /// The move from `s` to `t` of a pawn is among the pawn's moves to a
    /// set of targets that holds `t`.
    proof fn lemma_pawn_move_in(&self, targets: u64, m: ChessMove)
        requires
            self.wf(),
            self.pseudo_legal(m),
            self.mailbox[m.spec_source()] == Some((self.side_to_move, PieceType::Pawn)),
            m.spec_move_type() == MoveType::Normal || m.spec_move_type() == MoveType::Promotion,
            has_bit(targets, m.spec_target()),
        ensures
            moves_to(
                m.spec_source(),
                targets,
                m.spec_move_type() == MoveType::Promotion,
            ).contains(m),
            (m.spec_move_type() == MoveType::Promotion) == promoting(
                self.side_to_move,
                m.spec_source(),
            ),
    {
        let s = m.spec_source();
        let t = m.spec_target();
        lemma_decode(m);
        if m.spec_move_type() == MoveType::Normal {
            lemma_new_fields(s, t, None, MoveType::Normal);
            crate::chessmove::lemma_move_fields_determine(m, normal_move(s, t));
        } else {
            let piece = m.spec_piece().unwrap();
            lemma_new_fields(s, t, Some(piece), MoveType::Promotion);
            crate::chessmove::lemma_move_fields_determine(
                m,
                ChessMove::spec_new(s, t, Some(piece), MoveType::Promotion),
            );
            let ps = promotions(s, t);
            assert(ps[0] == m || ps[1] == m || ps[2] == m || ps[3] == m);
        }
        lemma_moves_to_has(s, targets, m.spec_move_type() == MoveType::Promotion, t, m);
    }

    /// The target of a step or a capture of a pawn that follows the rules
    /// and leaves the king safe is in the set of targets of its kind.
    proof fn lemma_pawn_target(&self, m: ChessMove)
        requires
            self.wf(),
            self.pseudo_legal(m),
            self.safe_after(m),
            self.mailbox[m.spec_source()] == Some((self.side_to_move, PieceType::Pawn)),
            m.spec_move_type() == MoveType::Normal || m.spec_move_type() == MoveType::Promotion,
        ensures
            ({
                let s = m.spec_source();
                let t = m.spec_target();
                ||| has_bit(self.push_target(s), t)
                ||| (has_bit(self.double_push_target(s), t) && !promoting(self.side_to_move, s))
                ||| has_bit(self.capture_targets(s), t)
            }),
    {
        let stm = self.side_to_move;
        let mb = self.mailbox@;
        let s = m.spec_source();
        let t = m.spec_target();
        lemma_decode(m);
        self.lemma_occupancies();
        self.lemma_landing();
        self.lemma_safe_within_masks(m);
        assert(8 <= s < 56);
        let t1 = forward(stm, s, 1);
        let t2 = forward(stm, s, 2);
        lemma_single_all(0, 0);
        if t == t1 && mb[t] is None {
            lemma_single_all(0, t1);
            lemma_ops_all(bit(t1) & self.check_mask(), self.pin_mask(s));
            lemma_ops_all(bit(t1), self.check_mask());
        } else if on_home_rank(stm, s) && t == t2 && mb[t1] is None && mb[t] is None {
            lemma_single_all(0, t2);
            lemma_ops_all(bit(t2) & self.check_mask(), self.pin_mask(s));
            lemma_ops_all(bit(t2), self.check_mask());
        } else {
            let att = pawn_attack_spec(stm, s);
            lemma_mask_of(|y: int| pawn_reach(stm, s, y));
            lemma_ops_all(
                att & self.enemies() & !self.enemy_king() & self.check_mask(),
                self.pin_mask(s),
            );
            lemma_ops_all(att & self.enemies() & !self.enemy_king(), self.check_mask());
            lemma_ops_all(att & self.enemies(), !self.enemy_king());
            lemma_ops_all(att, self.enemies());
            lemma_ops_all(self.enemy_king(), 0);
        }
    }

    /// An en-passant capture that follows the rules, leaves the king safe
    /// and, in check, takes the only checking piece, is legal by the test
    /// of the generator.
    proof fn lemma_ep_complete(&self, m: ChessMove)
        requires
            self.wf(),
            self.pseudo_legal(m),
            self.safe_after(m),
            m.spec_move_type() == MoveType::EnPassant,
            self.check_bb.data == 0 || (is_single(self.check_bb.data) && lsb(self.check_bb.data)
                == ep_victim(self.side_to_move, m.spec_target())),
        ensures
            self.ep_legal(m.spec_source()),
            m == ChessMove::spec_new(
                m.spec_source(),
                lsb(self.enpassant_bb.data),
                None,
                MoveType::EnPassant,
            ),
    {
        let stm = self.side_to_move;
        let by = stm.flip();
        let s = m.spec_source();
        lemma_decode(m);
        self.lemma_checkers_meaning(0);
        let e = lsb(self.enpassant_bb.data);
        lemma_lsb(self.enpassant_bb.data);
        lemma_new_fields(s, e, None, MoveType::EnPassant);
        crate::chessmove::lemma_move_fields_determine(
            m,
            ChessMove::spec_new(s, e, None, MoveType::EnPassant),
        );
        lemma_mask_of(|y: int| pawn_reach(stm, s, y));
        self.lemma_after_ep(s);
        let after = self.moved_mailbox(m);
        let k = self.ksq();
        assert(after[k] == Some((stm, PieceType::King)));
        lemma_attacked_on(self.bbs_after_ep(s), after, k, by);
    }

    /// A move of a pawn that follows the rules and leaves the king safe is
    /// one of the moves of that pawn. An en-passant capture made in check
    /// is such a move when it takes the only checking piece.
    proof fn lemma_pawn_complete(&self, m: ChessMove)
        requires
            self.wf(),
            self.pseudo_legal(m),
            self.safe_after(m),
            self.mailbox[m.spec_source()] == Some((self.side_to_move, PieceType::Pawn)),
            m.spec_move_type() == MoveType::EnPassant ==> (self.check_bb.data == 0 || (is_single(
                self.check_bb.data,
            ) && lsb(self.check_bb.data) == ep_victim(self.side_to_move, m.spec_target()))),
        ensures
            self.piece_moves(5, m.spec_source()).contains(m),
    {
        let stm = self.side_to_move;
        let s = m.spec_source();
        let t = m.spec_target();
        let promote = promoting(stm, s);
        let a = moves_to(s, self.push_target(s), promote);
        let b = moves_to(s, self.double_push_target(s), false);
        let c = moves_to(s, self.capture_targets(s), promote);
        let d = if self.ep_legal(s) {
            seq![ChessMove::spec_new(s, lsb(self.enpassant_bb.data), None, MoveType::EnPassant)]
        } else {
            Seq::empty()
        };
        if m.spec_move_type() == MoveType::EnPassant {
            self.lemma_ep_complete(m);
            assert(d[0] == m);
        } else {
            self.lemma_pawn_target(m);
            if has_bit(self.push_target(s), t) {
                self.lemma_pawn_move_in(self.push_target(s), m);
            } else if has_bit(self.double_push_target(s), t) && !promote {
                self.lemma_pawn_move_in(self.double_push_target(s), m);
            } else {
                self.lemma_pawn_move_in(self.capture_targets(s), m);
            }
        }
        if a.contains(m) || b.contains(m) {
            lemma_contains_join(a, b, m);
        }
        if (a + b).contains(m) || c.contains(m) {
            lemma_contains_join(a + b, c, m);
        }
        lemma_contains_join(a + b + c, d, m);
    }

    /// The generator is complete: a move that follows the rules of its
    /// piece and leaves the king of the side that moves safe is a legal
    /// move. Of the en-passant captures made while in check, this is said
    /// of those that take the only checking piece.
    pub proof fn law_generator_is_complete(&self, m: ChessMove)
        requires
            self.wf(),
            self.pseudo_legal(m),
            self.safe_after(m),
            m.spec_move_type() == MoveType::EnPassant ==> (self.check_bb.data == 0 || (is_single(
                self.check_bb.data,
            ) && lsb(self.check_bb.data) == ep_victim(self.side_to_move, m.spec_target()))),
        ensures
            self.legal_moves().contains(m),
    {
        let stm = self.side_to_move;
        let base = side_base(stm);
        let s = m.spec_source();
        lemma_decode(m);
        let p = self.mailbox[s].unwrap();
        crate::chessboard::lemma_piece_index(p, 0);
        let k = crate::chessboard::piece_index(p) - base;
        assert(0 <= k < 6);
        assert(piece_of_index(base + k) == p);
        assert(has_bit(self.piece_bbs@[base + k].data, s) <==> self.mailbox@[s] == Some(
            piece_of_index(base + k),
        ));
        if p.1 == PieceType::King {
            self.lemma_checkers_meaning(0);
            assert(self.mailbox@[s] == Some((stm, PieceType::King)));
            assert(s == self.ksq());
            if m.spec_move_type() == MoveType::Normal {
                self.lemma_king_step_complete(m);
            } else {
                self.lemma_castle_complete(m);
            }
        } else if p.1 == PieceType::Pawn {
            self.lemma_pawn_complete(m);
        } else {
            self.lemma_officer_complete(k, m);
        }
        self.lemma_kinds_has(0, k, s, m);
    }
}


} // verus!
