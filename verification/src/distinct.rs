//! No move is generated twice, and no two generated moves read alike.
//!
//! Two moves read alike when they have the same source, the same target and
//! the same promotion piece: those are the parts that the text of a move
//! shows.
use vstd::prelude::*;
use crate::bits::{
    bit, has_bit, lemma_lsb, lemma_mask_of, lemma_ops_all, lemma_single_all, lsb, without_bit,
};
use crate::bitboard::{PieceType};
use crate::chessboard::{
    lemma_king_square, lemma_union_range, piece_of_index, side_base, union_range, ChessBoard,
};
use crate::chessmove::{lemma_new_fields, promotions, ChessMove, MoveType};
use crate::leapers::{king_attack_spec, king_reach, pawn_attack_spec, pawn_reach};
use crate::movegen::{capped, forward, king_home, moves_to, normal_move, promoting};

verus! {

/// The two moves have the same source, target and promotion piece.
pub open spec fn read_alike(a: ChessMove, b: ChessMove) -> bool {
    a.spec_source() == b.spec_source() && a.spec_target() == b.spec_target() && a.spec_piece()
        == b.spec_piece()
}

/// No two moves of the sequence read alike.
pub open spec fn all_read_apart(moves: Seq<ChessMove>) -> bool {
    forall|i: int, j: int|
        0 <= i < j < moves.len() ==> !read_alike(#[trigger] moves[i], #[trigger] moves[j])
}

/// Every move of the sequence starts on a square of `set`.
pub open spec fn start_in(moves: Seq<ChessMove>, set: u64) -> bool {
    forall|i: int| 0 <= i < moves.len() ==> has_bit(set, (#[trigger] moves[i]).spec_source())
}

/// Every move of the sequence ends on a square of `set`.
pub open spec fn end_in(moves: Seq<ChessMove>, set: u64) -> bool {
    forall|i: int| 0 <= i < moves.len() ==> has_bit(set, (#[trigger] moves[i]).spec_target())
}

/// The two sets share no square.
pub open spec fn disjoint(a: u64, b: u64) -> bool {
    forall|x: int| !(has_bit(a, x) && has_bit(b, x))
}

/// Two sequences whose moves start in disjoint sets read apart when each
/// does.
pub proof fn lemma_join_by_start(a: Seq<ChessMove>, b: Seq<ChessMove>, sa: u64, sb: u64)
    requires
        all_read_apart(a),
        all_read_apart(b),
        start_in(a, sa),
        start_in(b, sb),
        disjoint(sa, sb),
    ensures
        all_read_apart(a + b),
        start_in(a + b, sa | sb),
{
    lemma_ops_all(sa, sb);
    assert forall|i: int, j: int| 0 <= i < j < (a + b).len() implies !read_alike(
        #[trigger] (a + b)[i],
        #[trigger] (a + b)[j],
    ) by {
        if j < a.len() {
            assert(!read_alike(a[i], a[j]));
        } else if i >= a.len() {
            assert(!read_alike(b[i - a.len()], b[j - a.len()]));
        } else {
            assert(has_bit(sa, a[i].spec_source()));
            assert(has_bit(sb, b[j - a.len()].spec_source()));
        }
    }
    assert forall|i: int| 0 <= i < (a + b).len() implies has_bit(
        sa | sb,
        (#[trigger] (a + b)[i]).spec_source(),
    ) by {
        if i < a.len() {
            assert(has_bit(sa, a[i].spec_source()));
        } else {
            assert(has_bit(sb, b[i - a.len()].spec_source()));
        }
    }
}

/// Two sequences whose moves end in disjoint sets read apart when each
/// does.
pub proof fn lemma_join_by_end(a: Seq<ChessMove>, b: Seq<ChessMove>, ta: u64, tb: u64)
    requires
        all_read_apart(a),
        all_read_apart(b),
        end_in(a, ta),
        end_in(b, tb),
        disjoint(ta, tb),
    ensures
        all_read_apart(a + b),
        end_in(a + b, ta | tb),
{
    lemma_ops_all(ta, tb);
    assert forall|i: int, j: int| 0 <= i < j < (a + b).len() implies !read_alike(
        #[trigger] (a + b)[i],
        #[trigger] (a + b)[j],
    ) by {
        if j < a.len() {
            assert(!read_alike(a[i], a[j]));
        } else if i >= a.len() {
            assert(!read_alike(b[i - a.len()], b[j - a.len()]));
        } else {
            assert(has_bit(ta, a[i].spec_target()));
            assert(has_bit(tb, b[j - a.len()].spec_target()));
        }
    }
    assert forall|i: int| 0 <= i < (a + b).len() implies has_bit(
        ta | tb,
        (#[trigger] (a + b)[i]).spec_target(),
    ) by {
        if i < a.len() {
            assert(has_bit(ta, a[i].spec_target()));
        } else {
            assert(has_bit(tb, b[i - a.len()].spec_target()));
        }
    }
}

/// The moves from one square to a set of targets start on that square,
/// end in the set, and read apart.
pub proof fn lemma_moves_to_apart(source: int, targets: u64, promote: bool)
    requires
        0 <= source < 64,
    ensures
        all_read_apart(moves_to(source, targets, promote)),
        start_in(moves_to(source, targets, promote), bit(source)),
        end_in(moves_to(source, targets, promote), targets),
    decreases targets,
{
    lemma_single_all(0, source);
    if targets != 0 {
        lemma_lsb(targets);
        let t = lsb(targets);
        let rest = without_bit(targets, t);
        lemma_single_all(targets, t);
        lemma_moves_to_apart(source, rest, promote);
        let tail = moves_to(source, rest, promote);
        let head = if promote {
            promotions(source, t)
        } else {
            seq![normal_move(source, t)]
        };
        lemma_new_fields(source, t, None, MoveType::Normal);
        lemma_new_fields(source, t, Some(PieceType::Queen), MoveType::Promotion);
        lemma_new_fields(source, t, Some(PieceType::Rook), MoveType::Promotion);
        lemma_new_fields(source, t, Some(PieceType::Bishop), MoveType::Promotion);
        lemma_new_fields(source, t, Some(PieceType::Knight), MoveType::Promotion);
        assert(all_read_apart(head));
        assert(end_in(head, bit(t)));
        assert(start_in(head, bit(source)));
        assert(end_in(tail, rest));
        assert(disjoint(bit(t), rest));
        lemma_join_by_end(head, tail, bit(t), rest);
        lemma_ops_all(bit(t), rest);
        let all = head + tail;
        assert forall|i: int| 0 <= i < all.len() implies has_bit(
            targets,
            (#[trigger] all[i]).spec_target(),
        ) by {
            assert(has_bit(bit(t) | rest, all[i].spec_target()));
        }
        assert forall|i: int| 0 <= i < all.len() implies has_bit(
            bit(source),
            (#[trigger] all[i]).spec_source(),
        ) by {
            if i < head.len() {
                assert(has_bit(bit(source), head[i].spec_source()));
            } else {
                assert(has_bit(bit(source), tail[i - head.len()].spec_source()));
            }
        }
    }
}

impl ChessBoard {
    /// The moves of the king read apart and start on the king's square.
    proof fn lemma_king_apart(&self)
        requires
            self.structural(),
        ensures
            all_read_apart(self.piece_moves(0, self.ksq())),
            start_in(self.piece_moves(0, self.ksq()), bit(self.ksq())),
    {
        let s = self.ksq();
        let stm = self.side_to_move;
        let home = king_home(stm);
        lemma_king_square(self.piece_bbs@, self.mailbox@, stm);
        assert(self.mailbox[s] == Some((stm, PieceType::King)));
        let steps = moves_to(s, self.king_targets(), false);
        lemma_moves_to_apart(s, self.king_targets(), false);
        let castles = self.castle_moves();
        lemma_single_all(0, s);
        if castles.len() == 0 {
            assert(castles + steps =~= steps);
        } else {
            // a castling right finds the king at home
            assert(s == home);
            lemma_new_fields(home, home - 2, None, MoveType::Castle);
            lemma_new_fields(home, home + 2, None, MoveType::Castle);
            let far = bit(home - 2) | bit(home + 2);
            lemma_single_all(bit(home - 2), home + 2);
            lemma_single_all(0, home - 2);
            lemma_ops_all(bit(home - 2), bit(home + 2));
            assert(all_read_apart(castles));
            assert(end_in(castles, far));
            assert(start_in(castles, bit(s)));
            let cand = king_attack_spec(s) & self.landing();
            lemma_mask_of(
                |t: int| has_bit(cand, t) && !crate::chessboard::attacked_spec(
                    self.bbs_without_king(),
                    t,
                    stm.flip(),
                ),
            );
            lemma_ops_all(king_attack_spec(s), self.landing());
            lemma_mask_of(|t: int| king_reach(s, t));
            assert(disjoint(far, self.king_targets())) by {
                assert forall|x: int| !(has_bit(far, x) && has_bit(self.king_targets(), x)) by {
                    if has_bit(far, x) && has_bit(self.king_targets(), x) {
                        assert(king_reach(s, x));
                    }
                }
            }
            lemma_join_by_end(castles, steps, far, self.king_targets());
            let all = castles + steps;
            assert forall|i: int| 0 <= i < all.len() implies has_bit(
                bit(s),
                (#[trigger] all[i]).spec_source(),
            ) by {
                if i < castles.len() {
                    assert(has_bit(bit(s), castles[i].spec_source()));
                } else {
                    assert(has_bit(bit(s), steps[i - castles.len()].spec_source()));
                }
            }
        }
    }

    /// The moves of a pawn read apart and start on the pawn's square.
    proof fn lemma_pawn_apart(&self, s: int)
        requires
            self.structural(),
            has_bit(self.piece_bbs[side_base(self.side_to_move) + 5].data, s),
        ensures
            all_read_apart(self.piece_moves(5, s)),
            start_in(self.piece_moves(5, s), bit(s)),
    {
        let stm = self.side_to_move;
        let base = side_base(stm);
        let promote = promoting(stm, s);
        self.lemma_occupancies();
        assert(piece_of_index(base + 5) == (stm, PieceType::Pawn));
        assert(self.mailbox[s] == Some(piece_of_index(base + 5)));
        assert(8 <= s < 56);
        let t1 = forward(stm, s, 1);
        let t2 = forward(stm, s, 2);
        lemma_single_all(0, 0);
        lemma_single_all(0, s);
        let pt = self.push_target(s);
        let dt = self.double_push_target(s);
        let ct = self.capture_targets(s);
        let a = moves_to(s, pt, promote);
        let b = moves_to(s, dt, false);
        let c = moves_to(s, ct, promote);
        lemma_moves_to_apart(s, pt, promote);
        lemma_moves_to_apart(s, dt, false);
        lemma_moves_to_apart(s, ct, promote);
        let att = pawn_attack_spec(stm, s);
        lemma_mask_of(|x: int| pawn_reach(stm, s, x));
        // what each target set holds
        assert forall|x: int| has_bit(pt, x) implies x == t1 by {
            lemma_ops_all(bit(t1) & self.check_mask(), self.pin_mask(s));
            lemma_ops_all(bit(t1), self.check_mask());
            lemma_single_all(0, t1);
        }
        assert forall|x: int| has_bit(dt, x) implies x == t2 && 0 <= t2 < 64 by {
            lemma_ops_all(bit(t2) & self.check_mask(), self.pin_mask(s));
            lemma_ops_all(bit(t2), self.check_mask());
            if 0 <= t2 < 64 {
                lemma_single_all(0, t2);
            }
        }
        assert forall|x: int| has_bit(ct, x) implies has_bit(att, x) && has_bit(
            self.enemies(),
            x,
        ) by {
            lemma_ops_all(att & self.enemies() & !self.enemy_king() & self.check_mask(), self.pin_mask(s));
            lemma_ops_all(att & self.enemies() & !self.enemy_king(), self.check_mask());
            lemma_ops_all(att & self.enemies(), !self.enemy_king());
            lemma_ops_all(att, self.enemies());
        }
        assert(disjoint(pt, dt));
        lemma_join_by_end(a, b, pt, dt);
        lemma_ops_all(pt, dt);
        assert(disjoint(pt | dt, ct));
        lemma_join_by_end(a + b, c, pt | dt, ct);
        lemma_ops_all(pt | dt, ct);
        let abc = a + b + c;
        let abc_end = pt | dt | ct;
        assert forall|i: int| 0 <= i < abc.len() implies has_bit(
            bit(s),
            (#[trigger] abc[i]).spec_source(),
        ) by {
            if i < a.len() {
                assert(has_bit(bit(s), a[i].spec_source()));
            } else if i < a.len() + b.len() {
                assert(has_bit(bit(s), b[i - a.len()].spec_source()));
            } else {
                assert(has_bit(bit(s), c[i - a.len() - b.len()].spec_source()));
            }
        }
        if self.ep_legal(s) {
            let e = lsb(self.enpassant_bb.data);
            lemma_lsb(self.enpassant_bb.data);
            let m = ChessMove::spec_new(s, e, None, MoveType::EnPassant);
            lemma_new_fields(s, e, None, MoveType::EnPassant);
            lemma_single_all(0, e);
            let d = seq![m];
            assert(all_read_apart(d));
            assert(end_in(d, bit(e)));
            assert(disjoint(abc_end, bit(e)));
            lemma_join_by_end(abc, d, abc_end, bit(e));
            let all = abc + d;
            assert(all =~= self.piece_moves(5, s));
            assert forall|i: int| 0 <= i < all.len() implies has_bit(
                bit(s),
                (#[trigger] all[i]).spec_source(),
            ) by {
                if i < abc.len() {
                    assert(has_bit(bit(s), abc[i].spec_source()));
                }
            }
        } else {
            assert(abc + Seq::<ChessMove>::empty() =~= abc);
        }
    }

    /// The moves of one piece read apart and start on its square.
    proof fn lemma_piece_apart(&self, k: int, s: int)
        requires
            self.structural(),
            0 <= k < 6,
            has_bit(self.piece_bbs[side_base(self.side_to_move) + k].data, s),
        ensures
            all_read_apart(self.piece_moves(k, s)),
            start_in(self.piece_moves(k, s), bit(s)),
    {
        if k == 0 {
            lemma_king_square(self.piece_bbs@, self.mailbox@, self.side_to_move);
            lemma_single_all(0, self.ksq());
            assert(s == self.ksq());
            self.lemma_king_apart();
        } else if k == 5 {
            self.lemma_pawn_apart(s);
        } else {
            lemma_moves_to_apart(s, self.officer_targets(k, s), false);
        }
    }

    /// The moves of the pieces of one kind read apart and start on their
    /// squares.
    proof fn lemma_sources_apart(&self, k: int, sources: u64)
        requires
            self.structural(),
            0 <= k < 6,
            forall|x: int|
                has_bit(sources, x) ==> has_bit(
                    self.piece_bbs[side_base(self.side_to_move) + k].data,
                    x,
                ),
        ensures
            all_read_apart(self.sources_moves(k, sources)),
            start_in(self.sources_moves(k, sources), sources),
        decreases sources,
    {
        if sources != 0 {
            lemma_lsb(sources);
            let s = lsb(sources);
            let rest = without_bit(sources, s);
            lemma_single_all(sources, s);
            self.lemma_sources_apart(k, rest);
            self.lemma_piece_apart(k, s);
            let head = self.piece_moves(k, s);
            let tail = self.sources_moves(k, rest);
            assert(disjoint(bit(s), rest));
            lemma_join_by_start(head, tail, bit(s), rest);
            lemma_ops_all(bit(s), rest);
            let all = head + tail;
            assert forall|i: int| 0 <= i < all.len() implies has_bit(
                sources,
                (#[trigger] all[i]).spec_source(),
            ) by {
                assert(has_bit(bit(s) | rest, all[i].spec_source()));
            }
        }
    }

    /// The moves of the pieces of the kinds `k` to 5 read apart and start
    /// on squares of those pieces.
    proof fn lemma_kinds_apart(&self, k: int)
        requires
            self.structural(),
            0 <= k <= 6,
        ensures
            all_read_apart(self.kinds_moves(k)),
            start_in(
                self.kinds_moves(k),
                union_range(
                    self.piece_bbs@,
                    side_base(self.side_to_move) + k,
                    side_base(self.side_to_move) + 6,
                ),
            ),
        decreases 6 - k,
    {
        let base = side_base(self.side_to_move);
        if k < 6 {
            let own = self.piece_bbs[base + k].data;
            let others = union_range(self.piece_bbs@, base + k + 1, base + 6);
            let both = union_range(self.piece_bbs@, base + k, base + 6);
            self.lemma_sources_apart(k, own);
            self.lemma_kinds_apart(k + 1);
            lemma_union_range(self.piece_bbs@, base + k + 1, base + 6);
            lemma_union_range(self.piece_bbs@, base + k, base + 6);
            assert(disjoint(own, others)) by {
                assert forall|x: int| !(has_bit(own, x) && has_bit(others, x)) by {
                    if has_bit(own, x) && has_bit(others, x) {
                        let j = choose|j: int|
                            base + k + 1 <= j < base + 6 && has_bit(
                                #[trigger] self.piece_bbs@[j].data,
                                x,
                            );
                        assert(self.mailbox@[x] == Some(piece_of_index(j)));
                        assert(has_bit(self.piece_bbs@[base + k].data, x));
                        assert(self.mailbox@[x] == Some(piece_of_index(base + k)));
                    }
                }
            }
            let head = self.sources_moves(k, own);
            let tail = self.kinds_moves(k + 1);
            lemma_join_by_start(head, tail, own, others);
            lemma_ops_all(own, others);
            let all = head + tail;
            assert forall|i: int| 0 <= i < all.len() implies has_bit(
                both,
                (#[trigger] all[i]).spec_source(),
            ) by {
                assert(has_bit(own | others, all[i].spec_source()));
                let x = all[i].spec_source();
                if has_bit(own, x) {
                    assert(has_bit(self.piece_bbs@[base + k].data, x));
                } else {
                    let j = choose|j: int|
                        base + k + 1 <= j < base + 6 && has_bit(
                            #[trigger] self.piece_bbs@[j].data,
                            x,
                        );
                    assert(base + k <= j < base + 6 && has_bit(self.piece_bbs@[j].data, x));
                }
            }
        }
    }

    /// No two legal moves read alike: they differ in source, in target or
    /// in promotion piece.
    pub proof fn law_legal_moves_read_apart(&self)
        requires
            self.structural(),
        ensures
            all_read_apart(self.legal_moves()),
            all_read_apart(capped(self.legal_moves())),
    {
        self.lemma_kinds_apart(0);
    }

    /// No legal move is generated twice.
    pub proof fn law_no_duplicates(&self, i: int, j: int)
        requires
            self.structural(),
            0 <= i < j < self.legal_moves().len(),
        ensures
            self.legal_moves()[i] != self.legal_moves()[j],
    {
        self.law_legal_moves_read_apart();
        assert(!read_alike(self.legal_moves()[i], self.legal_moves()[j]));
    }
}

} // verus!
