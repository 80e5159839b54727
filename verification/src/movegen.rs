//! The legal-move generator.
//!
//! Moves are filtered while they are generated: a set of squares that
//! resolves a check, a set of squares that a pinned piece may go to, and a
//! direct test of the squares a king may step or castle over.
use vstd::prelude::*;
use crate::bits::{
    bit, has_bit, lemma_ext, lemma_lsb, lemma_mask_of, lemma_ops_all, lemma_single_all,
    lemma_zero_iff, lsb, mask_of, without_bit,
};
use crate::bitboard::{rank_of, BitBoard, PieceType, Side};
use crate::chessboard::{
    attacked_spec, consistent, is_single, king_square, lemma_king_square, lemma_piece_index,
    lemma_union_range, occupancy, piece_of_index, side_base, side_occupancy, square_attacked,
    ChessBoard,
};
use crate::chessmove::{promotions, ChessMove, MoveType, MovesArray, MAX_MOVES};
use crate::leapers::{king_attack_spec, knight_attack_spec, pawn_attack_spec};
use crate::sliders::{bishop_attack_spec, queen_attack_spec, rook_attack_spec};
use crate::tables::{
    get_bishop_attack, get_queen_attack, get_rook_attack, ray_between_spec, AttackTables,
};
use crate::transition::ep_victim;

verus! {

/// The union of `f(p)` over the squares `p` of `set`.
pub open spec fn union_over(set: u64, f: spec_fn(int) -> u64) -> u64
    decreases set,
{
    if set == 0 {
        0
    } else {
        proof {
            lemma_lsb(set);
        }
        f(lsb(set)) | union_over(without_bit(set, lsb(set)), f)
    }
}

/// A square is in the union exactly when it is in `f(p)` for a square `p`
/// of the set.
pub proof fn lemma_union_over(set: u64, f: spec_fn(int) -> u64)
    ensures
        forall|x: int| #[trigger]
            has_bit(union_over(set, f), x) <==> exists|p: int|
                has_bit(set, p) && has_bit(#[trigger] f(p), x),
    decreases set,
{
    if set == 0 {
        lemma_single_all(0, 0);
    } else {
        lemma_lsb(set);
        let l = lsb(set);
        let rest = without_bit(set, l);
        lemma_union_over(rest, f);
        lemma_single_all(set, l);
        lemma_ops_all(f(l), union_over(rest, f));
        assert forall|x: int| #[trigger]
            has_bit(union_over(set, f), x) <==> exists|p: int|
                has_bit(set, p) && has_bit(#[trigger] f(p), x) by {
            if has_bit(union_over(set, f), x) {
                if has_bit(f(l), x) {
                    assert(has_bit(set, l) && has_bit(f(l), x));
                } else {
                    let p = choose|p: int| has_bit(rest, p) && has_bit(#[trigger] f(p), x);
                    assert(has_bit(set, p) && has_bit(f(p), x));
                }
            }
            if exists|p: int| has_bit(set, p) && has_bit(#[trigger] f(p), x) {
                let p = choose|p: int| has_bit(set, p) && has_bit(#[trigger] f(p), x);
                if p != l {
                    assert(has_bit(rest, p) && has_bit(f(p), x));
                }
            }
        }
    }
}

/// The squares of `cand` that no piece of side `by` attacks when the piece
/// sets are `bbs`.
pub open spec fn safe_squares(bbs: Seq<BitBoard>, cand: u64, by: Side) -> u64 {
    mask_of(|t: int| has_bit(cand, t) && !attacked_spec(bbs, t, by))
}

/// A word with one set bit is the bit of its lowest set bit, and clearing
/// that bit leaves nothing.
pub proof fn lemma_single_iff(c: u64)
    requires
        c != 0,
    ensures
        is_single(c) <==> without_bit(c, lsb(c)) == 0,
{
    lemma_lsb(c);
    let l = lsb(c);
    lemma_single_all(c, l);
    lemma_zero_iff(without_bit(c, l));
    if without_bit(c, l) == 0 {
        assert forall|j: int| 0 <= j < 64 implies has_bit(c, j) == has_bit(bit(l), j) by {
            assert(!has_bit(without_bit(c, l), j));
        }
        lemma_ext(c, bit(l));
    }
}

/// The line that a pinner on `p` holds a piece on `s` to: the squares
/// between the king and `p`, and `p` itself; empty when `s` is not between
/// the king and `p`.
pub open spec fn pin_line(ksq: int, s: int, p: int) -> u64 {
    if has_bit(ray_between_spec(ksq, p), s) {
        ray_between_spec(ksq, p) | bit(p)
    } else {
        0
    }
}

impl ChessBoard {
    /// The set of all occupied squares.
    pub open spec fn occ(&self) -> u64 {
        occupancy(self.piece_bbs@)
    }

    /// The squares of the pieces of the side to move.
    pub open spec fn friends(&self) -> u64 {
        side_occupancy(self.piece_bbs@, self.side_to_move)
    }

    /// The squares of the pieces of the other side.
    pub open spec fn enemies(&self) -> u64 {
        side_occupancy(self.piece_bbs@, self.side_to_move.flip())
    }

    /// The square of the king of the side to move.
    pub open spec fn ksq(&self) -> int {
        king_square(self.piece_bbs@, self.side_to_move)
    }

    /// The set that holds the king of the other side.
    pub open spec fn enemy_king(&self) -> u64 {
        self.piece_bbs[side_base(self.side_to_move.flip())].data
    }

    /// The squares a move of a piece other than the king may land on, as
    /// far as check goes: every square when the king is not in check; the
    /// checking piece and the squares between it and the king in a single
    /// check; no square in a double check.
    pub open spec fn check_mask(&self) -> u64 {
        let c = self.check_bb.data;
        if c == 0 {
            u64::MAX
        } else if is_single(c) {
            c | ray_between_spec(self.ksq(), lsb(c))
        } else {
            0
        }
    }

    /// The enemy sliders that would see the king if the piece on `s` were
    /// lifted: bishops and queens along diagonals, rooks and queens along
    /// ranks and files.
    pub open spec fn xray_sliders(&self, s: int) -> u64 {
        let occ2 = without_bit(self.occ(), s);
        let e = side_base(self.side_to_move.flip());
        let diagonal = self.piece_bbs[e + 1].data | self.piece_bbs[e + 3].data;
        let straight = self.piece_bbs[e + 1].data | self.piece_bbs[e + 4].data;
        (bishop_attack_spec(self.ksq(), occ2) & diagonal) | (rook_attack_spec(self.ksq(), occ2)
            & straight)
    }

    /// The lines that the piece on `s` is pinned to: for each enemy slider
    /// that sees the king once `s` is lifted and has `s` between the king
    /// and itself, the squares between the king and the slider, and the
    /// slider's square. Empty when the piece is not pinned.
    pub open spec fn pin_lines(&self, s: int) -> u64 {
        union_over(self.xray_sliders(s), |p: int| pin_line(self.ksq(), s, p))
    }

    /// The piece on `s` is pinned to the king of the side to move.
    pub open spec fn pinned(&self, s: int) -> bool {
        self.pin_lines(s) != 0
    }

    /// The squares the piece on `s` may land on, as far as pins go: every
    /// square when it is not pinned, else the lines it is pinned to.
    pub open spec fn pin_mask(&self, s: int) -> u64 {
        if self.pinned(s) {
            self.pin_lines(s)
        } else {
            u64::MAX
        }
    }

    /// The piece sets without the king of the side to move.
    pub open spec fn bbs_without_king(&self) -> Seq<BitBoard> {
        self.piece_bbs@.update(side_base(self.side_to_move), BitBoard { data: 0 })
    }

    /// A square is a friend's exactly when the map names a piece of the
    /// side to move there; likewise for the other side and for all.
    pub proof fn lemma_occupancies(&self)
        requires
            consistent(self.piece_bbs@, self.mailbox@),
        ensures
            forall|x: int|
                0 <= x < 64 ==> (#[trigger] has_bit(self.occ(), x) <==> self.mailbox[x] is Some),
            forall|x: int|
                0 <= x < 64 ==> (#[trigger] has_bit(self.friends(), x) <==> (
                self.mailbox[x] matches Some(p) && p.0 == self.side_to_move)),
            forall|x: int|
                0 <= x < 64 ==> (#[trigger] has_bit(self.enemies(), x) <==> (
                self.mailbox[x] matches Some(p) && p.0 == self.side_to_move.flip())),
            forall|x: int| has_bit(self.occ(), x) ==> 0 <= x < 64,
            forall|x: int| has_bit(self.friends(), x) ==> 0 <= x < 64,
            forall|x: int| has_bit(self.enemies(), x) ==> 0 <= x < 64,
    {
        let bbs = self.piece_bbs@;
        let mb = self.mailbox@;
        lemma_union_range(bbs, 0, 12);
        lemma_union_range(bbs, 0, 6);
        lemma_union_range(bbs, 6, 12);
        assert forall|x: int| 0 <= x < 64 implies (#[trigger] has_bit(self.occ(), x)
            <==> self.mailbox[x] is Some) by {
            if mb[x] is Some {
                let p = mb[x].unwrap();
                lemma_piece_index(p, 0);
                let k = crate::chessboard::piece_index(p);
                assert(has_bit(bbs[k].data, x));
            }
            if has_bit(self.occ(), x) {
                let k = choose|k: int| 0 <= k < 12 && has_bit(#[trigger] bbs[k].data, x);
                assert(mb[x] == Some(piece_of_index(k)));
            }
        }
        assert forall|x: int| 0 <= x < 64 implies (#[trigger] has_bit(
            side_occupancy(bbs, Side::White),
            x,
        ) <==> (mb[x] matches Some(p) && p.0 == Side::White)) by {
            if mb[x] matches Some(p) && p.0 == Side::White {
                let p = mb[x].unwrap();
                lemma_piece_index(p, 0);
                let k = crate::chessboard::piece_index(p);
                assert(has_bit(bbs[k].data, x));
            }
            if has_bit(side_occupancy(bbs, Side::White), x) {
                let k = choose|k: int| 0 <= k < 6 && has_bit(#[trigger] bbs[k].data, x);
                assert(mb[x] == Some(piece_of_index(k)));
            }
        }
        assert forall|x: int| 0 <= x < 64 implies (#[trigger] has_bit(
            side_occupancy(bbs, Side::Black),
            x,
        ) <==> (mb[x] matches Some(p) && p.0 == Side::Black)) by {
            if mb[x] matches Some(p) && p.0 == Side::Black {
                let p = mb[x].unwrap();
                lemma_piece_index(p, 0);
                let k = crate::chessboard::piece_index(p);
                assert(has_bit(bbs[k].data, x));
            }
            if has_bit(side_occupancy(bbs, Side::Black), x) {
                let k = choose|k: int| 6 <= k < 12 && has_bit(#[trigger] bbs[k].data, x);
                assert(mb[x] == Some(piece_of_index(k)));
            }
        }
    }

    /// The squares of `cand` that the other side does not attack once the
    /// king of the side to move is lifted from the board.
    pub fn squares_safe_for_king(&self, tables: &AttackTables, cand: BitBoard) -> (r: BitBoard)
        requires
            tables.wf(),
        ensures
            r.data == safe_squares(self.bbs_without_king(), cand.data, self.side_to_move.flip()),
    {
        let by = self.side_to_move.update();
        let mut bbs = self.piece_bbs;
        let king_index: usize = match self.side_to_move {
            Side::White => 0,
            Side::Black => 6,
        };
        bbs[king_index] = BitBoard { data: 0 };
        assert(bbs@ =~= self.bbs_without_king());
        let mut rest = cand;
        let mut acc: u64 = 0;
        proof {
            lemma_single_all(0, 0);
        }
        while rest.data != 0
            invariant
                tables.wf(),
                bbs@ == self.bbs_without_king(),
                by == self.side_to_move.flip(),
                forall|x: int| has_bit(rest.data, x) ==> has_bit(cand.data, x),
                forall|x: int|
                    has_bit(acc, x) <==> has_bit(cand.data, x) && !has_bit(rest.data, x)
                        && !attacked_spec(bbs@, x, by),
            decreases rest.data,
        {
            let target = match rest.lsb_index() {
                Some(x) => x,
                None => 0,
            };
            if !square_attacked(tables, &bbs, target, by) {
                proof {
                    lemma_single_all(acc, target as int);
                }
                let b: u64 = 1u64 << target;
                assert(b == bit(target as int));
                acc = acc | b;
            }
            rest = rest.pop_bit(target);
        }
        proof {
            lemma_zero_iff(rest.data);
            lemma_mask_of(|t: int| has_bit(cand.data, t) && !attacked_spec(bbs@, t, by));
            lemma_ext(acc, safe_squares(bbs@, cand.data, by));
        }
        BitBoard { data: acc }
    }

    /// The lines that the piece on `square` is pinned to; empty when it is
    /// not pinned.
    pub fn pin_lines_of(&self, tables: &AttackTables, square: usize) -> (r: BitBoard)
        requires
            tables.wf(),
            square < 64,
            self.piece_bbs[side_base(self.side_to_move)].data != 0,
        ensures
            r.data == self.pin_lines(square as int),
    {
        let side = self.side_to_move;
        let king_pos = self.king_pos(side);
        let e: usize = match side {
            Side::White => 6,
            Side::Black => 0,
        };
        let diagonal = self.piece_bbs[e + 1].data | self.piece_bbs[e + 3].data;
        let straight = self.piece_bbs[e + 1].data | self.piece_bbs[e + 4].data;
        let removed = self.blockers().pop_bit(square);
        let data = (get_bishop_attack(tables, king_pos, removed).data & diagonal) | (
        get_rook_attack(tables, king_pos, removed).data & straight);
        assert(data == self.xray_sliders(square as int));
        let mut rest = BitBoard { data };
        let mut acc: u64 = 0;
        let ghost f = |p: int| pin_line(self.ksq(), square as int, p);
        let ghost total = union_over(data, f);
        proof {
            lemma_ops_all(0, total);
            lemma_single_all(0, 0);
            lemma_ext(0 | total, total);
        }
        while rest.data != 0
            invariant
                tables.wf(),
                square < 64,
                king_pos == self.ksq(),
                king_pos < 64,
                f == (|p: int| pin_line(self.ksq(), square as int, p)),
                total == acc | union_over(rest.data, f),
            decreases rest.data,
        {
            let pinner = match rest.lsb_index() {
                Some(x) => x,
                None => 0,
            };
            let ray = tables.ray_between(king_pos, pinner);
            let ghost tail = union_over(without_bit(rest.data, pinner as int), f);
            let ghost head = f(pinner as int);
            assert(union_over(rest.data, f) == head | tail);
            proof {
                lemma_ops_all(acc, head);
                lemma_ops_all(head, tail);
                lemma_ops_all(acc, head | tail);
                lemma_ops_all(acc | head, tail);
                lemma_ext(acc | (head | tail), (acc | head) | tail);
                lemma_ops_all(acc, 0);
                lemma_single_all(0, 0);
                lemma_ext(acc | 0, acc);
            }
            if ray.test_bit(square) {
                let b: u64 = 1u64 << pinner;
                assert(b == bit(pinner as int));
                proof {
                    lemma_ops_all(acc, ray.data | b);
                    lemma_ops_all(ray.data, b);
                    lemma_ops_all(acc, ray.data);
                    lemma_ops_all(acc | ray.data, b);
                    lemma_ext(acc | (ray.data | b), (acc | ray.data) | b);
                }
                acc = acc | ray.data | b;
            }
            rest = rest.pop_bit(pinner);
        }
        proof {
            lemma_ops_all(acc, 0);
            lemma_single_all(0, 0);
            lemma_ext(acc | 0, acc);
        }
        BitBoard { data: acc }
    }

    /// Whether the piece on `square` is pinned to the king of the side to
    /// move: whether an enemy slider would see the king along a line
    /// through `square` if the piece were lifted.
    pub fn piece_is_pinned(&self, tables: &AttackTables, square: usize) -> (r: bool)
        requires
            tables.wf(),
            square < 64,
            self.piece_bbs[side_base(self.side_to_move)].data != 0,
        ensures
            r == self.pinned(square as int),
    {
        self.pin_lines_of(tables, square).data != 0
    }

    /// The squares the piece on `square` may land on, as far as pins go.
    pub fn pin_mask_of(&self, tables: &AttackTables, square: usize) -> (r: BitBoard)
        requires
            tables.wf(),
            square < 64,
            self.piece_bbs[side_base(self.side_to_move)].data != 0,
        ensures
            r.data == self.pin_mask(square as int),
    {
        let lines = self.pin_lines_of(tables, square);
        if lines.data != 0 {
            lines
        } else {
            BitBoard { data: u64::MAX }
        }
    }

    /// The squares a move of a piece other than the king may land on, as
    /// far as check goes.
    pub fn check_mask_of(&self, tables: &AttackTables) -> (r: BitBoard)
        requires
            tables.wf(),
            self.piece_bbs[side_base(self.side_to_move)].data != 0,
        ensures
            r.data == self.check_mask(),
    {
        match self.check_bb.lsb_index() {
            None => BitBoard { data: u64::MAX },
            Some(giver) => {
                proof {
                    lemma_single_iff(self.check_bb.data);
                }
                if self.check_bb.pop_bit(giver).data == 0 {
                    let king_pos = self.king_pos(self.side_to_move);
                    BitBoard {
                        data: self.check_bb.data | tables.ray_between(king_pos, giver).data,
                    }
                } else {
                    BitBoard { data: 0 }
                }
            },
        }
    }
}

/// The first [`MAX_MOVES`] moves of a sequence: what a move list can hold
/// of it.
pub open spec fn capped(s: Seq<ChessMove>) -> Seq<ChessMove> {
    if s.len() <= MAX_MOVES {
        s
    } else {
        s.subrange(0, MAX_MOVES as int)
    }
}

/// The normal move from `s` to `t`.
pub open spec fn normal_move(s: int, t: int) -> ChessMove {
    ChessMove::spec_new(s, t, None, MoveType::Normal)
}

/// The moves from `source` to each square of `targets`, the lowest square
/// first: one normal move for each, or, where the move promotes, the four
/// promotions.
pub open spec fn moves_to(source: int, targets: u64, promote: bool) -> Seq<ChessMove>
    decreases targets,
{
    if targets == 0 {
        Seq::empty()
    } else {
        proof {
            lemma_lsb(targets);
        }
        (if promote {
            promotions(source, lsb(targets))
        } else {
            seq![normal_move(source, lsb(targets))]
        }) + moves_to(source, without_bit(targets, lsb(targets)), promote)
    }
}

/// The square `n` ranks ahead of `s`, as `side` sees it.
pub open spec fn forward(side: Side, s: int, n: int) -> int {
    match side {
        Side::White => s + 8 * n,
        Side::Black => s - 8 * n,
    }
}

/// A pawn of `side` on `s` promotes with its next move.
pub open spec fn promoting(side: Side, s: int) -> bool {
    match side {
        Side::White => s >= 48,
        Side::Black => s <= 15,
    }
}

/// A pawn of `side` on `s` stands on its home rank.
pub open spec fn on_home_rank(side: Side, s: int) -> bool {
    match side {
        Side::White => rank_of(s) == 1,
        Side::Black => rank_of(s) == 6,
    }
}

/// The home square of the king of `side`.
pub open spec fn king_home(side: Side) -> int {
    match side {
        Side::White => 3,
        Side::Black => 59,
    }
}

impl ChessBoard {
    /// The squares a piece may land on: all but those of its own side and
    /// that of the other king.
    pub open spec fn landing(&self) -> u64 {
        !self.friends() & !self.enemy_king()
    }

    /// The squares the king may step to: neighbours that are free to land
    /// on and that the other side does not attack once the king is lifted.
    pub open spec fn king_targets(&self) -> u64 {
        safe_squares(
            self.bbs_without_king(),
            king_attack_spec(self.ksq()) & self.landing(),
            self.side_to_move.flip(),
        )
    }

    /// Castling short is legal: no check, the right is held, the two
    /// squares between king and rook are empty and not attacked.
    pub open spec fn castle_short_ok(&self) -> bool {
        let home = king_home(self.side_to_move);
        let by = self.side_to_move.flip();
        let right = match self.side_to_move {
            Side::White => self.castle_bools[0],
            Side::Black => self.castle_bools[2],
        };
        &&& self.check_bb.data == 0
        &&& right
        &&& !has_bit(self.occ(), home - 1)
        &&& !has_bit(self.occ(), home - 2)
        &&& !attacked_spec(self.piece_bbs@, home - 1, by)
        &&& !attacked_spec(self.piece_bbs@, home - 2, by)
    }

    /// Castling long is legal: no check, the right is held, the three
    /// squares between king and rook are empty, and the two that the king
    /// crosses are not attacked.
    pub open spec fn castle_long_ok(&self) -> bool {
        let home = king_home(self.side_to_move);
        let by = self.side_to_move.flip();
        let right = match self.side_to_move {
            Side::White => self.castle_bools[1],
            Side::Black => self.castle_bools[3],
        };
        &&& self.check_bb.data == 0
        &&& right
        &&& !has_bit(self.occ(), home + 1)
        &&& !has_bit(self.occ(), home + 2)
        &&& !has_bit(self.occ(), home + 3)
        &&& !attacked_spec(self.piece_bbs@, home + 1, by)
        &&& !attacked_spec(self.piece_bbs@, home + 2, by)
    }

    /// The castling moves, the short one first.
    pub open spec fn castle_moves(&self) -> Seq<ChessMove> {
        let home = king_home(self.side_to_move);
        (if self.castle_short_ok() {
            seq![ChessMove::spec_new(home, home - 2, None, MoveType::Castle)]
        } else {
            Seq::empty()
        }) + (if self.castle_long_ok() {
            seq![ChessMove::spec_new(home, home + 2, None, MoveType::Castle)]
        } else {
            Seq::empty()
        })
    }

    /// The squares that the queen, knight, bishop or rook (`k` = 1, 2, 3,
    /// 4) on `s` may move to: what it attacks, where it may land, within
    /// the check mask and the pin mask. A pinned knight has no move.
    pub open spec fn officer_targets(&self, k: int, s: int) -> u64 {
        let raw = if k == 1 {
            queen_attack_spec(s, self.occ())
        } else if k == 2 {
            knight_attack_spec(s)
        } else if k == 3 {
            bishop_attack_spec(s, self.occ())
        } else {
            rook_attack_spec(s, self.occ())
        };
        if k == 2 && self.pinned(s) {
            0
        } else {
            raw & self.landing() & self.check_mask() & self.pin_mask(s)
        }
    }

    /// The square one step ahead of the pawn on `s`, if it is empty and
    /// within the check mask and the pin mask.
    pub open spec fn push_target(&self, s: int) -> u64 {
        let t = forward(self.side_to_move, s, 1);
        if has_bit(self.occ(), t) {
            0
        } else {
            bit(t) & self.check_mask() & self.pin_mask(s)
        }
    }

    /// The square two steps ahead of the pawn on `s`, if the pawn is on
    /// its home rank, both squares ahead are empty, and the square is
    /// within the check mask and the pin mask.
    pub open spec fn double_push_target(&self, s: int) -> u64 {
        let t1 = forward(self.side_to_move, s, 1);
        let t2 = forward(self.side_to_move, s, 2);
        if on_home_rank(self.side_to_move, s) && !has_bit(self.occ(), t1) && !has_bit(
            self.occ(),
            t2,
        ) {
            bit(t2) & self.check_mask() & self.pin_mask(s)
        } else {
            0
        }
    }

    /// The squares the pawn on `s` may capture on.
    pub open spec fn capture_targets(&self, s: int) -> u64 {
        pawn_attack_spec(self.side_to_move, s) & self.enemies() & !self.enemy_king()
            & self.check_mask() & self.pin_mask(s)
    }

    /// The piece sets after the pawn on `s` has captured en passant.
    pub open spec fn bbs_after_ep(&self, s: int) -> Seq<BitBoard> {
        let e = lsb(self.enpassant_bb.data);
        let own = side_base(self.side_to_move) + 5;
        let other = side_base(self.side_to_move.flip()) + 5;
        let victim = ep_victim(self.side_to_move, e);
        self.piece_bbs@.update(
            own,
            BitBoard { data: without_bit(self.piece_bbs[own].data, s) | bit(e) },
        ).update(other, BitBoard { data: without_bit(self.piece_bbs[other].data, victim) })
    }

    /// The pawn on `s` may capture en passant: it attacks the en-passant
    /// square; the king is not in check, or in check by the very pawn that
    /// is taken; and with both pawns off their squares and the capturing
    /// pawn on the en-passant square, the king is not attacked.
    pub open spec fn ep_legal(&self, s: int) -> bool {
        let ep = self.enpassant_bb.data;
        let e = lsb(ep);
        let c = self.check_bb.data;
        &&& ep != 0
        &&& has_bit(pawn_attack_spec(self.side_to_move, s), e)
        &&& (c == 0 || (is_single(c) && lsb(c) == ep_victim(self.side_to_move, e)))
        &&& !attacked_spec(self.bbs_after_ep(s), self.ksq(), self.side_to_move.flip())
    }

    /// The moves of the pawn on `s`: the single step, the double step, the
    /// captures, the en-passant capture.
    pub open spec fn pawn_moves(&self, s: int) -> Seq<ChessMove> {
        let promote = promoting(self.side_to_move, s);
        moves_to(s, self.push_target(s), promote) + moves_to(s, self.double_push_target(s), false)
            + moves_to(s, self.capture_targets(s), promote) + (if self.ep_legal(s) {
            seq![ChessMove::spec_new(s, lsb(self.enpassant_bb.data), None, MoveType::EnPassant)]
        } else {
            Seq::empty()
        })
    }

    /// The moves of the piece of kind `k` (king 0, queen 1, knight 2,
    /// bishop 3, rook 4, pawn 5) on `s`.
    pub open spec fn piece_moves(&self, k: int, s: int) -> Seq<ChessMove> {
        if k == 0 {
            self.castle_moves() + moves_to(s, self.king_targets(), false)
        } else if k == 5 {
            self.pawn_moves(s)
        } else {
            moves_to(s, self.officer_targets(k, s), false)
        }
    }

    /// The moves of the pieces of kind `k` on the squares of `sources`,
    /// the lowest square first.
    pub open spec fn sources_moves(&self, k: int, sources: u64) -> Seq<ChessMove>
        decreases sources,
    {
        if sources == 0 {
            Seq::empty()
        } else {
            proof {
                lemma_lsb(sources);
            }
            self.piece_moves(k, lsb(sources)) + self.sources_moves(
                k,
                without_bit(sources, lsb(sources)),
            )
        }
    }

    /// The moves of all pieces of the kinds `k` to 5 of the side to move.
    pub open spec fn kinds_moves(&self, k: int) -> Seq<ChessMove>
        decreases 6 - k,
    {
        if k < 0 || k >= 6 {
            Seq::empty()
        } else {
            self.sources_moves(k, self.piece_bbs[side_base(self.side_to_move) + k].data)
                + self.kinds_moves(k + 1)
        }
    }

    /// All legal moves of the side to move: king, queens, knights,
    /// bishops, rooks, pawns, each kind by ascending square.
    pub open spec fn legal_moves(&self) -> Seq<ChessMove> {
        self.kinds_moves(0)
    }
}

/// Appends `chess_move` if the list has room.
fn emit(arr: &mut MovesArray, Ghost(intended): Ghost<Seq<ChessMove>>, chess_move: ChessMove)
    requires
        old(arr).wf(),
        old(arr)@ == capped(intended),
    ensures
        final(arr).wf(),
        final(arr)@ == capped(intended.push(chess_move)),
{
    if arr.len() < MAX_MOVES {
        arr.push(chess_move);
    }
    assert(arr@ =~= capped(intended.push(chess_move)));
}

/// Appends the moves from `source` to the squares of `targets`.
fn emit_moves(
    arr: &mut MovesArray,
    Ghost(intended): Ghost<Seq<ChessMove>>,
    source: usize,
    targets: BitBoard,
    promote: bool,
)
    requires
        old(arr).wf(),
        old(arr)@ == capped(intended),
        source < 64,
    ensures
        final(arr).wf(),
        final(arr)@ == capped(intended + moves_to(source as int, targets.data, promote)),
{
    let mut rest = targets;
    let ghost mut done: Seq<ChessMove> = Seq::empty();
    let ghost total = moves_to(source as int, targets.data, promote);
    assert(intended + done =~= intended);
    assert(done + total =~= total);
    while rest.data != 0
        invariant
            source < 64,
            arr.wf(),
            arr@ == capped(intended + done),
            done + moves_to(source as int, rest.data, promote) == total,
        decreases rest.data,
    {
        let target = match rest.lsb_index() {
            Some(x) => x,
            None => 0,
        };
        let ghost tail = moves_to(source as int, without_bit(rest.data, target as int), promote);
        if promote {
            let ghost p = promotions(source as int, target as int);
            assert(moves_to(source as int, rest.data, promote) == p + tail);
            let ghost base = intended + done;
            emit(
                arr,
                Ghost(base),
                ChessMove::new(source, target, Some(PieceType::Queen), MoveType::Promotion),
            );
            emit(
                arr,
                Ghost(base.push(p[0])),
                ChessMove::new(source, target, Some(PieceType::Rook), MoveType::Promotion),
            );
            emit(
                arr,
                Ghost(base.push(p[0]).push(p[1])),
                ChessMove::new(source, target, Some(PieceType::Bishop), MoveType::Promotion),
            );
            emit(
                arr,
                Ghost(base.push(p[0]).push(p[1]).push(p[2])),
                ChessMove::new(source, target, Some(PieceType::Knight), MoveType::Promotion),
            );
            proof {
                assert(base.push(p[0]).push(p[1]).push(p[2]).push(p[3]) =~= intended + (done + p));
                assert((done + p) + tail =~= done + (p + tail));
                done = done + p;
            }
        } else {
            let ghost m = normal_move(source as int, target as int);
            assert(moves_to(source as int, rest.data, promote) == seq![m] + tail);
            emit(arr, Ghost(intended + done), ChessMove::new(source, target, None, MoveType::Normal));
            proof {
                assert((intended + done).push(m) =~= intended + done.push(m));
                assert(done.push(m) + tail =~= done + (seq![m] + tail));
                done = done.push(m);
            }
        }
        rest = rest.pop_bit(target);
    }
    assert(done + Seq::<ChessMove>::empty() =~= done);
}


/// What the generator computes once for a position.
struct GenContext {
    occ: BitBoard,
    enemies: BitBoard,
    landing: BitBoard,
    enemy_king: BitBoard,
    check_mask: BitBoard,
    king_pos: usize,
}

impl GenContext {
    spec fn fits(&self, board: &ChessBoard) -> bool {
        &&& self.occ.data == board.occ()
        &&& self.enemies.data == board.enemies()
        &&& self.landing.data == board.landing()
        &&& self.enemy_king.data == board.enemy_king()
        &&& self.check_mask.data == board.check_mask()
        &&& self.king_pos == board.ksq()
        &&& self.king_pos < 64
        &&& board.piece_bbs[side_base(board.side_to_move)].data != 0
    }
}

impl ChessBoard {
    fn gen_context(&self, tables: &AttackTables) -> (ctx: GenContext)
        requires
            tables.wf(),
            self.piece_bbs[side_base(self.side_to_move)].data != 0,
        ensures
            ctx.fits(self),
    {
        let side = self.side_to_move;
        let (friends, enemies) = match side {
            Side::White => (self.white_blockers(), self.black_blockers()),
            Side::Black => (self.black_blockers(), self.white_blockers()),
        };
        let enemy_king = match side {
            Side::White => self.piece_bbs[6],
            Side::Black => self.piece_bbs[0],
        };
        GenContext {
            occ: self.blockers(),
            enemies,
            landing: BitBoard { data: !friends.data & !enemy_king.data },
            enemy_king,
            check_mask: self.check_mask_of(tables),
            king_pos: self.king_pos(side),
        }
    }

    /// Appends the moves of the king: castling, then its steps.
    fn emit_king(
        &self,
        tables: &AttackTables,
        ctx: &GenContext,
        arr: &mut MovesArray,
        Ghost(intended): Ghost<Seq<ChessMove>>,
    )
        requires
            tables.wf(),
            ctx.fits(self),
            old(arr).wf(),
            old(arr)@ == capped(intended),
        ensures
            final(arr).wf(),
            final(arr)@ == capped(intended + self.piece_moves(0, self.ksq())),
    {
        let side = self.side_to_move;
        let by = side.update();
        let home: usize = match side {
            Side::White => 3,
            Side::Black => 59,
        };
        let (short_right, long_right) = match side {
            Side::White => (self.castle_bools[0], self.castle_bools[1]),
            Side::Black => (self.castle_bools[2], self.castle_bools[3]),
        };
        let ghost mut so_far = intended;
        let no_check = self.check_bb.data == 0;
        if no_check && short_right && !ctx.occ.test_bit(home - 1) && !ctx.occ.test_bit(home - 2)
            && !self.is_square_attacked(tables, home - 1, by) && !self.is_square_attacked(
            tables,
            home - 2,
            by,
        ) {
            let m = ChessMove::new(home, home - 2, None, MoveType::Castle);
            emit(arr, Ghost(so_far), m);
            proof {
                so_far = so_far.push(m);
            }
        }
        if no_check && long_right && !ctx.occ.test_bit(home + 1) && !ctx.occ.test_bit(home + 2)
            && !ctx.occ.test_bit(home + 3) && !self.is_square_attacked(tables, home + 1, by)
            && !self.is_square_attacked(tables, home + 2, by) {
            let m = ChessMove::new(home, home + 2, None, MoveType::Castle);
            emit(arr, Ghost(so_far), m);
            proof {
                so_far = so_far.push(m);
            }
        }
        assert(so_far =~= intended + self.castle_moves());
        let cand = BitBoard { data: tables.king_attacks(ctx.king_pos).data & ctx.landing.data };
        let targets = self.squares_safe_for_king(tables, cand);
        emit_moves(arr, Ghost(so_far), ctx.king_pos, targets, false);
        assert((intended + self.castle_moves()) + moves_to(self.ksq(), targets.data, false)
            =~= intended + self.piece_moves(0, self.ksq()));
    }

    /// Appends the moves of the queen, knight, bishop or rook on `source`.
    fn emit_officer(
        &self,
        tables: &AttackTables,
        ctx: &GenContext,
        arr: &mut MovesArray,
        Ghost(intended): Ghost<Seq<ChessMove>>,
        k: usize,
        source: usize,
    )
        requires
            tables.wf(),
            ctx.fits(self),
            old(arr).wf(),
            old(arr)@ == capped(intended),
            1 <= k <= 4,
            source < 64,
        ensures
            final(arr).wf(),
            final(arr)@ == capped(intended + self.piece_moves(k as int, source as int)),
    {
        let raw = if k == 1 {
            get_queen_attack(tables, source, ctx.occ)
        } else if k == 2 {
            tables.knight_attacks(source)
        } else if k == 3 {
            get_bishop_attack(tables, source, ctx.occ)
        } else {
            get_rook_attack(tables, source, ctx.occ)
        };
        let lines = self.pin_lines_of(tables, source);
        let pinned = lines.data != 0;
        let targets = if k == 2 && pinned {
            BitBoard { data: 0 }
        } else {
            let pin_mask: u64 = if pinned {
                lines.data
            } else {
                u64::MAX
            };
            BitBoard { data: raw.data & ctx.landing.data & ctx.check_mask.data & pin_mask }
        };
        emit_moves(arr, Ghost(intended), source, targets, false);
    }

    /// The en-passant square, if there is one, is not on the two outer
    /// ranks of either side.
    spec fn ep_in_range(&self) -> bool {
        self.enpassant_bb.data != 0 ==> 8 <= lsb(self.enpassant_bb.data) < 56
    }

    /// Whether the pawn on `source` may capture en passant.
    fn ep_allowed(&self, tables: &AttackTables, ctx: &GenContext, source: usize) -> (r: bool)
        requires
            tables.wf(),
            ctx.fits(self),
            self.ep_in_range(),
            source < 64,
        ensures
            r == self.ep_legal(source as int),
    {
        let side = self.side_to_move;
        match self.enpassant_bb.lsb_index() {
            None => false,
            Some(target) => {
                let victim: usize = match side {
                    Side::White => target - 8,
                    Side::Black => target + 8,
                };
                if !tables.pawn_attacks(side, source).test_bit(target) {
                    return false;
                }
                let check_fits = match self.check_bb.lsb_index() {
                    None => true,
                    Some(giver) => {
                        proof {
                            lemma_single_iff(self.check_bb.data);
                        }
                        self.check_bb.pop_bit(giver).data == 0 && giver == victim
                    },
                };
                if !check_fits {
                    return false;
                }
                let (own, other): (usize, usize) = match side {
                    Side::White => (5, 11),
                    Side::Black => (11, 5),
                };
                let mut bbs = self.piece_bbs;
                let mut mover = bbs[own].pop_bit(source);
                mover.set_bit(target);
                bbs[own] = mover;
                bbs[other] = bbs[other].pop_bit(victim);
                assert(bbs@ =~= self.bbs_after_ep(source as int));
                !square_attacked(tables, &bbs, ctx.king_pos, side.update())
            },
        }
    }

    /// The targets of the single step, of the double step and of the
    /// captures of the pawn on `source`.
    fn pawn_targets(&self, tables: &AttackTables, ctx: &GenContext, source: usize) -> (r: (
        BitBoard,
        BitBoard,
        BitBoard,
    ))
        requires
            tables.wf(),
            ctx.fits(self),
            8 <= source < 56,
        ensures
            r.0.data == self.push_target(source as int),
            r.1.data == self.double_push_target(source as int),
            r.2.data == self.capture_targets(source as int),
    {
        let side = self.side_to_move;
        let pin_mask = self.pin_mask_of(tables, source).data;
        let home = match side {
            Side::White => source < 16,
            Side::Black => source >= 48,
        };
        let t1: usize = match side {
            Side::White => source + 8,
            Side::Black => source - 8,
        };
        let b1: u64 = 1u64 << t1;
        assert(b1 == bit(t1 as int));
        let push: u64 = if ctx.occ.test_bit(t1) {
            0
        } else {
            b1 & ctx.check_mask.data & pin_mask
        };
        let mut double: u64 = 0;
        if home {
            let t2: usize = match side {
                Side::White => source + 16,
                Side::Black => source - 16,
            };
            if !ctx.occ.test_bit(t1) && !ctx.occ.test_bit(t2) {
                let b2: u64 = 1u64 << t2;
                assert(b2 == bit(t2 as int));
                double = b2 & ctx.check_mask.data & pin_mask;
            }
        }
        let captures: u64 = tables.pawn_attacks(side, source).data & ctx.enemies.data
            & !ctx.enemy_king.data & ctx.check_mask.data & pin_mask;
        (BitBoard { data: push }, BitBoard { data: double }, BitBoard { data: captures })
    }

    /// Appends the moves of the pawn on `source`.
    fn emit_pawn(
        &self,
        tables: &AttackTables,
        ctx: &GenContext,
        arr: &mut MovesArray,
        Ghost(intended): Ghost<Seq<ChessMove>>,
        source: usize,
    )
        requires
            tables.wf(),
            ctx.fits(self),
            self.ep_in_range(),
            old(arr).wf(),
            old(arr)@ == capped(intended),
            8 <= source < 56,
        ensures
            final(arr).wf(),
            final(arr)@ == capped(intended + self.piece_moves(5, source as int)),
    {
        let promote = match self.side_to_move {
            Side::White => source >= 48,
            Side::Black => source <= 15,
        };
        let (push, double, captures) = self.pawn_targets(tables, ctx, source);
        let ghost s = source as int;
        let ghost a = moves_to(s, self.push_target(s), promote);
        let ghost b = moves_to(s, self.double_push_target(s), false);
        let ghost c = moves_to(s, self.capture_targets(s), promote);
        emit_moves(arr, Ghost(intended), source, push, promote);
        emit_moves(arr, Ghost(intended + a), source, double, false);
        emit_moves(arr, Ghost(intended + a + b), source, captures, promote);
        if self.ep_allowed(tables, ctx, source) {
            let target = match self.enpassant_bb.lsb_index() {
                Some(x) => x,
                None => 0,
            };
            let m = ChessMove::new(source, target, None, MoveType::EnPassant);
            emit(arr, Ghost(intended + a + b + c), m);
            assert((intended + a + b + c).push(m) =~= intended + self.pawn_moves(s));
        } else {
            assert(intended + a + b + c =~= intended + self.pawn_moves(s));
        }
    }

    /// All legal moves of the side to move, as far as the list can hold
    /// them: those of the king first, castling before its steps; then
    /// those of the queens, knights, bishops, rooks and pawns, each kind
    /// by ascending source square.
    pub fn generate_moves(&self, tables: &AttackTables) -> (arr: MovesArray)
        requires
            tables.wf(),
            self.structural(),
        ensures
            arr.wf(),
            arr@ == capped(self.legal_moves()),
    {
        proof {
            self.lemma_sources();
        }
        let ctx = self.gen_context(tables);
        let mut arr = MovesArray::new();
        let base: usize = match self.side_to_move {
            Side::White => 0,
            Side::Black => 6,
        };
        let ghost mut intended: Seq<ChessMove> = Seq::empty();
        let mut k: usize = 0;
        assert(intended + self.kinds_moves(0) =~= self.legal_moves());
        while k < 6
            invariant
                k <= 6,
                tables.wf(),
                self.sources_ok(),
                ctx.fits(self),
                base == side_base(self.side_to_move),
                arr.wf(),
                arr@ == capped(intended),
                intended + self.kinds_moves(k as int) == self.legal_moves(),
            decreases 6 - k,
        {
            let ghost before = intended;
            let ghost these = self.sources_moves(k as int, self.piece_bbs[base + k].data);
            let ghost after = self.kinds_moves(k + 1);
            assert(self.kinds_moves(k as int) == these + after);
            self.emit_kind(tables, &ctx, &mut arr, Ghost(intended), k);
            proof {
                intended = before + these;
                assert((before + these) + after =~= before + (these + after));
            }
            k += 1;
        }
        assert(intended + Seq::<ChessMove>::empty() =~= intended);
        arr
    }

    /// What the generator needs to know of the sources: the king's set is
    /// the king's square, pawns stand on the six inner ranks, and so does
    /// the en-passant square.
    spec fn sources_ok(&self) -> bool {
        let base = side_base(self.side_to_move);
        &&& self.piece_bbs[base].data == bit(self.ksq())
        &&& 0 <= self.ksq() < 64
        &&& forall|x: int| #[trigger] has_bit(self.piece_bbs[base + 5].data, x) ==> 8 <= x < 56
        &&& self.ep_in_range()
    }

    proof fn lemma_sources(&self)
        requires
            self.structural(),
        ensures
            self.sources_ok(),
            self.piece_bbs[side_base(self.side_to_move)].data != 0,
    {
        let base = side_base(self.side_to_move);
        lemma_king_square(self.piece_bbs@, self.mailbox@, self.side_to_move);
        assert forall|x: int| #[trigger]
            has_bit(self.piece_bbs[base + 5].data, x) implies 8 <= x < 56 by {
            assert(piece_of_index(base + 5) == (self.side_to_move, PieceType::Pawn));
            assert(self.mailbox[x] == Some(piece_of_index(base + 5)));
        }
        if self.enpassant_bb.data != 0 {
            lemma_lsb(self.enpassant_bb.data);
        }
    }

    /// Appends the moves of all pieces of kind `k` of the side to move.
    fn emit_kind(
        &self,
        tables: &AttackTables,
        ctx: &GenContext,
        arr: &mut MovesArray,
        Ghost(intended): Ghost<Seq<ChessMove>>,
        k: usize,
    )
        requires
            tables.wf(),
            ctx.fits(self),
            self.sources_ok(),
            old(arr).wf(),
            old(arr)@ == capped(intended),
            k < 6,
        ensures
            final(arr).wf(),
            final(arr)@ == capped(
                intended + self.sources_moves(
                    k as int,
                    self.piece_bbs[side_base(self.side_to_move) + k].data,
                ),
            ),
    {
        let base: usize = match self.side_to_move {
            Side::White => 0,
            Side::Black => 6,
        };
        let mut sources = self.piece_bbs[base + k];
        let ghost all_sources = sources.data;
        let ghost mut done: Seq<ChessMove> = Seq::empty();
        assert(intended + done =~= intended);
        assert(done + self.sources_moves(k as int, sources.data) =~= self.sources_moves(
            k as int,
            sources.data,
        ));
        while sources.data != 0
            invariant
                k < 6,
                tables.wf(),
                self.sources_ok(),
                ctx.fits(self),
                base == side_base(self.side_to_move),
                arr.wf(),
                arr@ == capped(intended + done),
                all_sources == self.piece_bbs[base + k].data,
                forall|x: int| has_bit(sources.data, x) ==> has_bit(all_sources, x),
                done + self.sources_moves(k as int, sources.data) == self.sources_moves(
                    k as int,
                    all_sources,
                ),
            decreases sources.data,
        {
            let source = match sources.lsb_index() {
                Some(x) => x,
                None => 0,
            };
            let ghost these = self.piece_moves(k as int, source as int);
            let ghost tail = self.sources_moves(k as int, without_bit(sources.data, source as int));
            assert(self.sources_moves(k as int, sources.data) == these + tail);
            assert(has_bit(all_sources, source as int));
            if k == 0 {
                proof {
                    lemma_single_all(0, self.ksq());
                    assert(source as int == self.ksq());
                }
                self.emit_king(tables, ctx, arr, Ghost(intended + done));
            } else if k == 5 {
                self.emit_pawn(tables, ctx, arr, Ghost(intended + done), source);
            } else {
                self.emit_officer(tables, ctx, arr, Ghost(intended + done), k, source);
            }
            proof {
                assert((intended + done) + these =~= intended + (done + these));
                assert((done + these) + tail =~= done + (these + tail));
                done = done + these;
            }
            sources = sources.pop_bit(source);
        }
        assert(done + Seq::<ChessMove>::empty() =~= done);
    }
}

impl ChessBoard {
    /// The move answers a check, if there is one: it is a move of the
    /// king; or, in a single check, it lands on the checking piece or
    /// between that piece and the king, or takes the checking pawn en
    /// passant.
    pub open spec fn evades(&self, m: ChessMove) -> bool {
        let c = self.check_bb.data;
        c != 0 ==> {
            ||| m.spec_source() == self.ksq()
            ||| (is_single(c) && {
                ||| m.spec_target() == lsb(c)
                ||| has_bit(ray_between_spec(self.ksq(), lsb(c)), m.spec_target())
                ||| (m.spec_move_type() == MoveType::EnPassant && ep_victim(
                    self.side_to_move,
                    m.spec_target(),
                ) == lsb(c))
            })
        }
    }

    /// The move can be played and answers a check, if there is one.
    pub open spec fn fine(&self, m: ChessMove) -> bool {
        self.admits(m) && self.evades(m)
    }

    /// Every move of the sequence is [`Self::fine`].
    pub open spec fn all_fine(&self, moves: Seq<ChessMove>) -> bool {
        forall|i: int| 0 <= i < moves.len() ==> self.fine(#[trigger] moves[i])
    }

    /// The moves to a set of targets are fine when the move to each target is.
    proof fn lemma_moves_to_fine(&self, source: int, targets: u64, promote: bool)
        requires
            0 <= source < 64,
            forall|t: int| #[trigger]
                has_bit(targets, t) ==> (if promote {
                    self.all_fine(promotions(source, t))
                } else {
                    self.fine(normal_move(source, t))
                }),
        ensures
            self.all_fine(moves_to(source, targets, promote)),
        decreases targets,
    {
        if targets != 0 {
            lemma_lsb(targets);
            let t = lsb(targets);
            lemma_single_all(targets, t);
            self.lemma_moves_to_fine(source, without_bit(targets, t), promote);
            assert(has_bit(targets, t));
        }
    }

    /// What the masks say of a square, read off the square map.
    pub proof fn lemma_landing(&self)
        requires
            self.structural(),
        ensures
            forall|t: int|
                0 <= t < 64 ==> (#[trigger] has_bit(self.landing(), t) <==> !(
                self.mailbox[t] matches Some(p) && (p.0 == self.side_to_move || p.1
                    == PieceType::King))),
            forall|t: int|
                0 <= t < 64 ==> (#[trigger] has_bit(self.enemy_king(), t) <==> self.mailbox[t]
                    == Some((self.side_to_move.flip(), PieceType::King))),
    {
        self.lemma_occupancies();
        let ek = side_base(self.side_to_move.flip());
        let ok = side_base(self.side_to_move);
        lemma_ops_all(!self.friends(), !self.enemy_king());
        lemma_ops_all(self.friends(), 0);
        lemma_ops_all(self.enemy_king(), 0);
        assert(piece_of_index(ek) == (self.side_to_move.flip(), PieceType::King));
        assert(piece_of_index(ok) == (self.side_to_move, PieceType::King));
        assert forall|t: int| 0 <= t < 64 implies (#[trigger] has_bit(self.enemy_king(), t)
            <==> self.mailbox[t] == Some((self.side_to_move.flip(), PieceType::King))) by {
            assert(has_bit(self.piece_bbs@[ek].data, t) <==> self.mailbox@[t] == Some(
                piece_of_index(ek),
            ));
        }
    }

    /// In a check, a square of the check mask is the checking piece's or
    /// lies between it and the king; and there is a check mask only in a
    /// single check.
    pub proof fn lemma_check_mask(&self, t: int)
        requires
            has_bit(self.check_mask(), t),
            self.check_bb.data != 0,
        ensures
            is_single(self.check_bb.data),
            t == lsb(self.check_bb.data) || has_bit(
                ray_between_spec(self.ksq(), lsb(self.check_bb.data)),
                t,
            ),
    {
        let c = self.check_bb.data;
        lemma_single_all(0, 0);
        if is_single(c) {
            lemma_lsb(c);
            lemma_ops_all(c, ray_between_spec(self.ksq(), lsb(c)));
            lemma_single_all(0, lsb(c));
        }
    }

    /// The moves of a queen, knight, bishop or rook are fine.
    proof fn lemma_officer_fine(&self, k: int, s: int)
        requires
            self.structural(),
            1 <= k <= 4,
            has_bit(self.piece_bbs[side_base(self.side_to_move) + k].data, s),
        ensures
            self.all_fine(self.piece_moves(k, s)),
    {
        let targets = self.officer_targets(k, s);
        let base = side_base(self.side_to_move);
        self.lemma_landing();
        self.lemma_occupancies();
        assert(piece_of_index(base + k).0 == self.side_to_move);
        assert(piece_of_index(base + k).1 != PieceType::Pawn);
        assert(piece_of_index(base + k).1 != PieceType::King);
        assert(self.mailbox[s] == Some(piece_of_index(base + k)));
        assert forall|t: int| #[trigger] has_bit(targets, t) implies self.fine(
            normal_move(s, t),
        ) by {
            lemma_single_all(0, 0);
            let raw = if k == 1 {
                queen_attack_spec(s, self.occ())
            } else if k == 2 {
                knight_attack_spec(s)
            } else if k == 3 {
                bishop_attack_spec(s, self.occ())
            } else {
                rook_attack_spec(s, self.occ())
            };
            lemma_ops_all(raw & self.landing() & self.check_mask(), self.pin_mask(s));
            lemma_ops_all(raw & self.landing(), self.check_mask());
            lemma_ops_all(raw, self.landing());
            crate::chessmove::lemma_new_fields(s, t, None, MoveType::Normal);
            if self.check_bb.data != 0 {
                self.lemma_check_mask(t);
            }
        }
        self.lemma_moves_to_fine(s, targets, false);
    }
}


impl ChessBoard {
    /// A square that the other side does not attack is not next to the
    /// other king.
    proof fn lemma_off_enemy_king(&self, bbs: Seq<BitBoard>, t: int)
        requires
            self.structural(),
            0 <= t < 64,
            bbs.len() == 12,
            bbs[side_base(self.side_to_move.flip())] == self.piece_bbs[side_base(
                self.side_to_move.flip(),
            )],
            !attacked_spec(bbs, t, self.side_to_move.flip()),
        ensures
            forall|b: int|
                0 <= b < 64 && #[trigger] self.mailbox[b] == Some(
                    (self.side_to_move.flip(), PieceType::King),
                ) ==> !crate::leapers::king_reach(t, b),
    {
        let by = self.side_to_move.flip();
        let ek = self.piece_bbs[side_base(by)].data;
        assert(piece_of_index(side_base(by)) == (by, PieceType::King));
        lemma_zero_iff(king_attack_spec(t) & ek);
        lemma_ops_all(king_attack_spec(t), ek);
        lemma_mask_of(|x: int| crate::leapers::king_reach(t, x));
        assert forall|b: int|
            0 <= b < 64 && #[trigger] self.mailbox[b] == Some(
                (by, PieceType::King),
            ) implies !crate::leapers::king_reach(t, b) by {
            assert(has_bit(self.piece_bbs@[side_base(by)].data, b));
            assert(!has_bit(king_attack_spec(t) & ek, b));
        }
    }

    /// The moves of the king are fine.
    proof fn lemma_king_fine(&self)
        requires
            self.structural(),
        ensures
            self.all_fine(self.piece_moves(0, self.ksq())),
    {
        let s = self.ksq();
        let stm = self.side_to_move;
        let home = king_home(stm);
        self.lemma_landing();
        self.lemma_occupancies();
        lemma_king_square(self.piece_bbs@, self.mailbox@, stm);
        assert(self.mailbox[s] == Some((stm, PieceType::King)));
        let cand = king_attack_spec(s) & self.landing();
        let targets = self.king_targets();
        lemma_mask_of(
            |t: int| has_bit(cand, t) && !attacked_spec(self.bbs_without_king(), t, stm.flip()),
        );
        lemma_ops_all(king_attack_spec(s), self.landing());
        let by = stm.flip();
        assert(self.bbs_without_king()[side_base(by)] == self.piece_bbs[side_base(by)]);
        assert forall|t: int| #[trigger] has_bit(targets, t) implies self.fine(
            normal_move(s, t),
        ) by {
            crate::chessmove::lemma_new_fields(s, t, None, MoveType::Normal);
            self.lemma_off_enemy_king(self.bbs_without_king(), t);
        }
        self.lemma_moves_to_fine(s, targets, false);
        if self.castle_short_ok() {
            crate::chessmove::lemma_new_fields(home, home - 2, None, MoveType::Castle);
            self.lemma_off_enemy_king(self.piece_bbs@, home - 2);
            assert(self.fine(ChessMove::spec_new(home, home - 2, None, MoveType::Castle)));
        }
        if self.castle_long_ok() {
            crate::chessmove::lemma_new_fields(home, home + 2, None, MoveType::Castle);
            self.lemma_off_enemy_king(self.piece_bbs@, home + 2);
            assert(self.fine(ChessMove::spec_new(home, home + 2, None, MoveType::Castle)));
        }
    }

    /// A pawn's attack squares are one rank ahead of it.
    pub proof fn lemma_pawn_attack_rank(side: Side, s: int, t: int)
        requires
            has_bit(pawn_attack_spec(side, s), t),
        ensures
            0 <= t < 64,
            0 <= s < 64,
            rank_of(t) == rank_of(forward(side, s, 1)),
            t != forward(side, s, 1),
            t != forward(side, s, 2),
    {
        lemma_mask_of(|x: int| crate::leapers::pawn_reach(side, s, x));
    }

    /// The four promotions of one step are fine when the step ends on the
    /// last rank and takes no king.
    proof fn lemma_promotions_fine(&self, s: int, t: int)
        requires
            self.structural(),
            0 <= s < 64,
            0 <= t < 64,
            s != t,
            self.mailbox[s] == Some((self.side_to_move, PieceType::Pawn)),
            !(self.mailbox[t] matches Some(q) && q.1 == PieceType::King),
            match self.side_to_move {
                Side::White => rank_of(t) == 7,
                Side::Black => rank_of(t) == 0,
            },
            self.check_bb.data != 0 ==> is_single(self.check_bb.data) && (t == lsb(
                self.check_bb.data,
            ) || has_bit(ray_between_spec(self.ksq(), lsb(self.check_bb.data)), t)),
        ensures
            self.all_fine(promotions(s, t)),
    {
        crate::chessmove::lemma_new_fields(s, t, Some(PieceType::Queen), MoveType::Promotion);
        crate::chessmove::lemma_new_fields(s, t, Some(PieceType::Rook), MoveType::Promotion);
        crate::chessmove::lemma_new_fields(s, t, Some(PieceType::Bishop), MoveType::Promotion);
        crate::chessmove::lemma_new_fields(s, t, Some(PieceType::Knight), MoveType::Promotion);
    }

    /// The moves of a pawn are fine.
    proof fn lemma_pawn_fine(&self, s: int)
        requires
            self.structural(),
            has_bit(self.piece_bbs[side_base(self.side_to_move) + 5].data, s),
        ensures
            self.all_fine(self.piece_moves(5, s)),
    {
        let stm = self.side_to_move;
        let base = side_base(stm);
        let promote = promoting(stm, s);
        self.lemma_landing();
        self.lemma_occupancies();
        assert(piece_of_index(base + 5) == (stm, PieceType::Pawn));
        assert(self.mailbox[s] == Some(piece_of_index(base + 5)));
        assert(8 <= s < 56);
        let t1 = forward(stm, s, 1);
        let t2 = forward(stm, s, 2);
        lemma_single_all(0, 0);

        // the single step
        let push = self.push_target(s);
        assert forall|t: int| #[trigger] has_bit(push, t) implies (if promote {
            self.all_fine(promotions(s, t))
        } else {
            self.fine(normal_move(s, t))
        }) by {
            lemma_ops_all(bit(t1) & self.check_mask(), self.pin_mask(s));
            lemma_ops_all(bit(t1), self.check_mask());
            lemma_single_all(0, t1);
            assert(t == t1);
            if self.check_bb.data != 0 {
                self.lemma_check_mask(t);
            }
            if promote {
                self.lemma_promotions_fine(s, t);
            } else {
                crate::chessmove::lemma_new_fields(s, t, None, MoveType::Normal);
            }
        }
        self.lemma_moves_to_fine(s, push, promote);

        // the double step
        let double = self.double_push_target(s);
        assert forall|t: int| #[trigger] has_bit(double, t) implies self.fine(
            normal_move(s, t),
        ) by {
            lemma_ops_all(bit(t2) & self.check_mask(), self.pin_mask(s));
            lemma_ops_all(bit(t2), self.check_mask());
            lemma_single_all(0, t2);
            assert(t == t2);
            if self.check_bb.data != 0 {
                self.lemma_check_mask(t);
            }
            crate::chessmove::lemma_new_fields(s, t, None, MoveType::Normal);
        }
        self.lemma_moves_to_fine(s, double, false);

        // the captures
        let captures = self.capture_targets(s);
        assert forall|t: int| #[trigger] has_bit(captures, t) implies (if promote {
            self.all_fine(promotions(s, t))
        } else {
            self.fine(normal_move(s, t))
        }) by {
            let a = pawn_attack_spec(stm, s);
            lemma_ops_all(a & self.enemies() & !self.enemy_king() & self.check_mask(), self.pin_mask(s));
            lemma_ops_all(a & self.enemies() & !self.enemy_king(), self.check_mask());
            lemma_ops_all(a & self.enemies(), !self.enemy_king());
            lemma_ops_all(a, self.enemies());
            lemma_ops_all(self.enemy_king(), 0);
            Self::lemma_pawn_attack_rank(stm, s, t);
            if self.check_bb.data != 0 {
                self.lemma_check_mask(t);
            }
            if promote {
                self.lemma_promotions_fine(s, t);
            } else {
                crate::chessmove::lemma_new_fields(s, t, None, MoveType::Normal);
            }
        }
        self.lemma_moves_to_fine(s, captures, promote);

        // the en-passant capture
        if self.ep_legal(s) {
            let e = lsb(self.enpassant_bb.data);
            lemma_lsb(self.enpassant_bb.data);
            crate::chessmove::lemma_new_fields(s, e, None, MoveType::EnPassant);
            assert(self.fine(ChessMove::spec_new(s, e, None, MoveType::EnPassant)));
        }
    }

    /// The moves of the pieces of one kind are fine.
    proof fn lemma_sources_fine(&self, k: int, sources: u64)
        requires
            self.structural(),
            0 <= k < 6,
            forall|x: int|
                has_bit(sources, x) ==> has_bit(
                    self.piece_bbs[side_base(self.side_to_move) + k].data,
                    x,
                ),
        ensures
            self.all_fine(self.sources_moves(k, sources)),
        decreases sources,
    {
        if sources != 0 {
            lemma_lsb(sources);
            let s = lsb(sources);
            lemma_single_all(sources, s);
            self.lemma_sources_fine(k, without_bit(sources, s));
            if k == 0 {
                lemma_king_square(self.piece_bbs@, self.mailbox@, self.side_to_move);
                lemma_single_all(0, self.ksq());
                assert(s == self.ksq());
                self.lemma_king_fine();
            } else if k == 5 {
                self.lemma_pawn_fine(s);
            } else {
                self.lemma_officer_fine(k, s);
            }
        }
    }

    proof fn lemma_kinds_fine(&self, k: int)
        requires
            self.structural(),
            0 <= k <= 6,
        ensures
            self.all_fine(self.kinds_moves(k)),
        decreases 6 - k,
    {
        if k < 6 {
            self.lemma_sources_fine(k, self.piece_bbs[side_base(self.side_to_move) + k].data);
            self.lemma_kinds_fine(k + 1);
        }
    }

    /// Every legal move can be played, and answers a check if there is
    /// one: it moves the king, or, in a single check, it blocks the check
    /// or takes the checking piece; in a double check it moves the king.
    pub proof fn lemma_legal_moves_fine(&self)
        requires
            self.structural(),
        ensures
            self.all_fine(self.legal_moves()),
            self.all_fine(capped(self.legal_moves())),
    {
        self.lemma_kinds_fine(0);
    }
}


/// Every move of the sequence satisfies `pred`.
pub open spec fn all_moves(pred: spec_fn(ChessMove) -> bool, moves: Seq<ChessMove>) -> bool {
    forall|i: int| 0 <= i < moves.len() ==> pred(#[trigger] moves[i])
}

/// The moves to a set of targets satisfy `pred` when the moves to each
/// target do.
pub proof fn lemma_moves_to_all(
    pred: spec_fn(ChessMove) -> bool,
    source: int,
    targets: u64,
    promote: bool,
)
    requires
        forall|t: int| #[trigger]
            has_bit(targets, t) ==> (if promote {
                all_moves(pred, promotions(source, t))
            } else {
                pred(normal_move(source, t))
            }),
    ensures
        all_moves(pred, moves_to(source, targets, promote)),
    decreases targets,
{
    if targets != 0 {
        lemma_lsb(targets);
        let t = lsb(targets);
        lemma_single_all(targets, t);
        lemma_moves_to_all(pred, source, without_bit(targets, t), promote);
        assert(has_bit(targets, t));
    }
}

impl ChessBoard {
    /// The moves of the pieces of one kind satisfy `pred` when the moves
    /// of each of those pieces do.
    pub proof fn lemma_sources_all(&self, pred: spec_fn(ChessMove) -> bool, k: int, sources: u64)
        requires
            forall|s: int| #[trigger]
                has_bit(sources, s) ==> all_moves(pred, self.piece_moves(k, s)),
        ensures
            all_moves(pred, self.sources_moves(k, sources)),
        decreases sources,
    {
        if sources != 0 {
            lemma_lsb(sources);
            let s = lsb(sources);
            lemma_single_all(sources, s);
            self.lemma_sources_all(pred, k, without_bit(sources, s));
            assert(has_bit(sources, s));
        }
    }

    /// The moves of the pieces of the kinds `k` to 5 satisfy `pred` when
    /// the moves of each of those pieces do.
    pub proof fn lemma_kinds_all(&self, pred: spec_fn(ChessMove) -> bool, k: int)
        requires
            0 <= k <= 6,
            forall|j: int, s: int|
                k <= j < 6 && #[trigger] has_bit(
                    self.piece_bbs[side_base(self.side_to_move) + j].data,
                    s,
                ) ==> all_moves(pred, self.piece_moves(j, s)),
        ensures
            all_moves(pred, self.kinds_moves(k)),
        decreases 6 - k,
    {
        if k < 6 {
            let base = side_base(self.side_to_move);
            assert forall|s: int| #[trigger]
                has_bit(self.piece_bbs[base + k].data, s) implies all_moves(
                pred,
                self.piece_moves(k, s),
            ) by {}
            self.lemma_sources_all(pred, k, self.piece_bbs[base + k].data);
            self.lemma_kinds_all(pred, k + 1);
        }
    }
}


} // verus!
