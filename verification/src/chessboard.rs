//! The position: twelve piece sets, the square map that mirrors them, the
//! castling rights, the en-passant square, the pieces that give check, the
//! side to move, the move counters and the hash.
//!
//! The twelve pieces are numbered: white king, queen, knight, bishop,
//! rook, pawn (0 to 5), then the same for Black (6 to 11).
use vstd::prelude::*;
use crate::bits::{
    bit, has_bit, lemma_ext, lemma_has_bit_basics, lemma_lsb, lemma_ops_all, lemma_single_all, lsb,
};
use crate::bitboard::{rank_of, BitBoard, PieceType, Side};
use crate::leapers::{king_attack_spec, king_reach, knight_attack_spec, pawn_attack_spec};
use crate::sliders::{bishop_attack_spec, queen_attack_spec, rook_attack_spec};
use crate::tables::{get_bishop_attack, get_queen_attack, get_rook_attack, AttackTables};
use crate::zobrist::hash_spec;

verus! {

/// Number of a piece in the piece sets.
pub open spec fn piece_index(p: (Side, PieceType)) -> int {
    (match p.0 {
        Side::White => 0int,
        Side::Black => 6int,
    }) + (match p.1 {
        PieceType::King => 0int,
        PieceType::Queen => 1int,
        PieceType::Knight => 2int,
        PieceType::Bishop => 3int,
        PieceType::Rook => 4int,
        PieceType::Pawn => 5int,
    })
}

/// The piece with the given number.
pub open spec fn piece_of_index(i: int) -> (Side, PieceType) {
    let side = if i < 6 {
        Side::White
    } else {
        Side::Black
    };
    let k = if i < 6 {
        i
    } else {
        i - 6
    };
    let kind = if k == 0 {
        PieceType::King
    } else if k == 1 {
        PieceType::Queen
    } else if k == 2 {
        PieceType::Knight
    } else if k == 3 {
        PieceType::Bishop
    } else if k == 4 {
        PieceType::Rook
    } else {
        PieceType::Pawn
    };
    (side, kind)
}

/// Numbering the pieces and naming the numbers undo each other.
pub proof fn lemma_piece_index(p: (Side, PieceType), i: int)
    ensures
        0 <= piece_index(p) < 12,
        piece_of_index(piece_index(p)) == p,
        0 <= i < 12 ==> piece_index(piece_of_index(i)) == i,
{
}

/// Number of the first piece of a side: 0 for White, 6 for Black.
pub open spec fn side_base(side: Side) -> int {
    match side {
        Side::White => 0,
        Side::Black => 6,
    }
}

/// Number of a piece in the piece sets.
pub fn cpt_index(data: (Side, PieceType)) -> (r: usize)
    ensures
        r == piece_index(data),
        r < 12,
{
    let base: usize = match data.0 {
        Side::White => 0,
        Side::Black => 6,
    };
    let kind: usize = match data.1 {
        PieceType::King => 0,
        PieceType::Queen => 1,
        PieceType::Knight => 2,
        PieceType::Bishop => 3,
        PieceType::Rook => 4,
        PieceType::Pawn => 5,
    };
    base + kind
}

/// The piece with the given number.
pub fn cpt_of_index(i: usize) -> (r: (Side, PieceType))
    requires
        i < 12,
    ensures
        r == piece_of_index(i as int),
        piece_index(r) == i,
{
    let side = if i < 6 {
        Side::White
    } else {
        Side::Black
    };
    let k: usize = if i < 6 {
        i
    } else {
        i - 6
    };
    let kind = if k == 0 {
        PieceType::King
    } else if k == 1 {
        PieceType::Queen
    } else if k == 2 {
        PieceType::Knight
    } else if k == 3 {
        PieceType::Bishop
    } else if k == 4 {
        PieceType::Rook
    } else {
        PieceType::Pawn
    };
    (side, kind)
}

/// Union of the piece sets numbered `lo` up to `hi - 1`.
pub open spec fn union_range(bbs: Seq<BitBoard>, lo: int, hi: int) -> u64
    decreases hi - lo,
{
    if hi <= lo {
        0
    } else {
        union_range(bbs, lo, hi - 1) | bbs[hi - 1].data
    }
}

/// A square is in the union exactly when it is in one of the sets.
pub proof fn lemma_union_range(bbs: Seq<BitBoard>, lo: int, hi: int)
    requires
        0 <= lo <= hi <= bbs.len(),
    ensures
        forall|s: int| #[trigger]
            has_bit(union_range(bbs, lo, hi), s) <==> exists|k: int|
                lo <= k < hi && has_bit(#[trigger] bbs[k].data, s),
    decreases hi - lo,
{
    if hi <= lo {
        lemma_single_all(0, 0);
    } else {
        lemma_union_range(bbs, lo, hi - 1);
        lemma_ops_all(union_range(bbs, lo, hi - 1), bbs[hi - 1].data);
        assert forall|s: int| #[trigger]
            has_bit(union_range(bbs, lo, hi), s) <==> exists|k: int|
                lo <= k < hi && has_bit(#[trigger] bbs[k].data, s) by {
            if has_bit(union_range(bbs, lo, hi), s) {
                if has_bit(bbs[hi - 1].data, s) {
                } else {
                    let k = choose|k: int| lo <= k < hi - 1 && has_bit(#[trigger] bbs[k].data, s);
                    assert(lo <= k < hi && has_bit(bbs[k].data, s));
                }
            }
        }
    }
}

/// The set of all occupied squares.
pub open spec fn occupancy(bbs: Seq<BitBoard>) -> u64 {
    union_range(bbs, 0, 12)
}

/// The squares that the pieces of one side stand on.
pub open spec fn side_occupancy(bbs: Seq<BitBoard>, side: Side) -> u64 {
    union_range(bbs, side_base(side), side_base(side) + 6)
}

/// The pieces of side `by`, kings aside, that attack `square`: every piece
/// that a piece of its own kind standing on `square` would reach, a pawn
/// being taken as one of the other side.
pub open spec fn attackers_spec(bbs: Seq<BitBoard>, square: int, by: Side) -> u64 {
    let base = side_base(by);
    let occ = occupancy(bbs);
    (pawn_attack_spec(by.flip(), square) & bbs[base + 5].data) | (rook_attack_spec(square, occ)
        & bbs[base + 4].data) | (bishop_attack_spec(square, occ) & bbs[base + 3].data) | (
    knight_attack_spec(square) & bbs[base + 2].data) | (queen_attack_spec(square, occ) & bbs[base
        + 1].data)
}

/// A piece of side `by`, the king included, attacks `square`.
pub open spec fn attacked_spec(bbs: Seq<BitBoard>, square: int, by: Side) -> bool {
    attackers_spec(bbs, square, by) != 0 || (king_attack_spec(square) & bbs[side_base(by)].data)
        != 0
}

/// The square of the king of `side`.
pub open spec fn king_square(bbs: Seq<BitBoard>, side: Side) -> int {
    lsb(bbs[side_base(side)].data)
}

/// The pieces that give check to the king of `side`.
pub open spec fn checkers_spec(bbs: Seq<BitBoard>, side: Side) -> u64 {
    attackers_spec(bbs, king_square(bbs, side), side.flip())
}

/// A word with exactly one set bit.
pub open spec fn is_single(x: u64) -> bool {
    x != 0 && x == bit(lsb(x))
}

/// The king of `side` stands on `s` and nowhere else.
pub open spec fn king_at(mailbox: Seq<Option<(Side, PieceType)>>, side: Side, s: int) -> bool {
    &&& 0 <= s < 64
    &&& forall|j: int|
        0 <= j < 64 ==> ((#[trigger] mailbox[j] == Some((side, PieceType::King))) <==> j == s)
}

/// `side` has exactly one king.
pub open spec fn has_one_king(mailbox: Seq<Option<(Side, PieceType)>>, side: Side) -> bool {
    exists|s: int| king_at(mailbox, side, s)
}

/// The two kings do not stand next to each other.
pub open spec fn kings_apart(mailbox: Seq<Option<(Side, PieceType)>>) -> bool {
    forall|a: int, b: int|
        0 <= a < 64 && 0 <= b < 64 && #[trigger] mailbox[a] == Some((Side::White, PieceType::King))
            && #[trigger] mailbox[b] == Some((Side::Black, PieceType::King)) ==> !king_reach(a, b)
}

/// The only set bit of `bit(i)` is bit `i`.
pub proof fn lemma_single_bit(i: int)
    requires
        0 <= i < 64,
    ensures
        is_single(bit(i)),
        lsb(bit(i)) == i,
{
    lemma_single_all(0, i);
    lemma_has_bit_basics(i, i);
    lemma_lsb(bit(i));
}

/// In a consistent position with one king of `side`, the king's set is
/// the single bit of the king's square.
pub proof fn lemma_king_square(
    bbs: Seq<BitBoard>,
    mailbox: Seq<Option<(Side, PieceType)>>,
    side: Side,
)
    requires
        consistent(bbs, mailbox),
        has_one_king(mailbox, side),
    ensures
        is_single(bbs[side_base(side)].data),
        0 <= king_square(bbs, side) < 64,
        king_at(mailbox, side, king_square(bbs, side)),
{
    let s = choose|s: int| king_at(mailbox, side, s);
    let k = side_base(side);
    let x = bbs[k].data;
    assert(piece_of_index(k) == (side, PieceType::King));
    assert(mailbox[s] == Some((side, PieceType::King)));
    assert(has_bit(x, s));
    lemma_single_all(0, s);
    assert forall|j: int| 0 <= j < 64 implies has_bit(x, j) == has_bit(bit(s), j) by {
        assert(has_bit(bbs[k].data, j) <==> mailbox[j] == Some(piece_of_index(k)));
    }
    lemma_ext(x, bit(s));
    lemma_single_bit(s);
}

/// The piece that the sets hold on square `s`, looking at the sets below
/// `upto` only and taking the highest-numbered one.
pub open spec fn piece_at(bbs: Seq<BitBoard>, s: int, upto: int) -> Option<(Side, PieceType)>
    decreases upto,
{
    if upto <= 0 {
        None
    } else if has_bit(bbs[upto - 1].data, s) {
        Some(piece_of_index(upto - 1))
    } else {
        piece_at(bbs, s, upto - 1)
    }
}

/// The square map agrees with the piece sets: a square is in a set exactly
/// when the map names that set's piece there.
pub open spec fn consistent(bbs: Seq<BitBoard>, mailbox: Seq<Option<(Side, PieceType)>>) -> bool {
    &&& bbs.len() == 12
    &&& mailbox.len() == 64
    &&& forall|s: int, k: int|
        0 <= s < 64 && 0 <= k < 12 ==> (has_bit(#[trigger] bbs[k].data, s) <==> #[trigger] mailbox[s]
            == Some(piece_of_index(k)))
}

/// A position. What must hold of its fields is [`ChessBoard::wf`].
#[derive(Debug, Copy, Clone, PartialEq, Eq)]
pub struct ChessBoard {
    /// The squares of each of the twelve pieces.
    pub piece_bbs: [BitBoard; 12],
    /// What stands on each square.
    pub mailbox: [Option<(Side, PieceType)>; 64],
    /// The castling rights: white short, white long, black short, black long.
    pub castle_bools: [bool; 4],
    /// The square that a pawn has just passed over in a double step, if any.
    pub enpassant_bb: BitBoard,
    /// The pieces that give check to the king of the side to move.
    pub check_bb: BitBoard,
    /// The side to move.
    pub side_to_move: Side,
    /// Half moves since the last pawn move or capture.
    pub half_move_clock: usize,
    /// Number of the move, counted up after each move of Black.
    pub full_move_counter: usize,
    /// The hash of the position.
    pub current_hash: u64,
}

/// The square map that a family of piece sets stands for.
pub fn generate_mailbox(bbs: [BitBoard; 12]) -> (r: [Option<(Side, PieceType)>; 64])
    ensures
        forall|s: int| 0 <= s < 64 ==> #[trigger] r[s] == piece_at(bbs@, s, 12),
{
    let mut mailbox: [Option<(Side, PieceType)>; 64] = [None;64];
    let mut i: usize = 0;
    while i < 12
        invariant
            i <= 12,
            forall|s: int| 0 <= s < 64 ==> #[trigger] mailbox[s] == piece_at(bbs@, s, i as int),
        decreases 12 - i,
    {
        let mut j: usize = 0;
        while j < 64
            invariant
                i < 12,
                j <= 64,
                forall|s: int| 0 <= s < j ==> #[trigger] mailbox[s] == piece_at(bbs@, s, i + 1),
                forall|s: int| j <= s < 64 ==> #[trigger] mailbox[s] == piece_at(bbs@, s, i as int),
            decreases 64 - j,
        {
            if bbs[i].test_bit(j) {
                mailbox[j] = Some(cpt_of_index(i));
            }
            j += 1;
        }
        i += 1;
    }
    mailbox
}

impl ChessBoard {
    /// The hash that the position's parts call for.
    pub open spec fn recomputed_hash(&self) -> u64 {
        hash_spec(self.mailbox@, self.castle_bools@, self.enpassant_bb.data, self.side_to_move)
    }

    /// The white king's home is square 3 and the black king's is 59; the
    /// rooks' homes are the corners 0 and 7, 56 and 63. A castling right
    /// that is held finds king and rook at home.
    pub open spec fn castle_ok(&self) -> bool {
        let m = self.mailbox@;
        let wk = Some((Side::White, PieceType::King));
        let wr = Some((Side::White, PieceType::Rook));
        let bk = Some((Side::Black, PieceType::King));
        let br = Some((Side::Black, PieceType::Rook));
        &&& self.castle_bools[0] ==> m[3] == wk && m[0] == wr
        &&& self.castle_bools[1] ==> m[3] == wk && m[7] == wr
        &&& self.castle_bools[2] ==> m[59] == bk && m[56] == br
        &&& self.castle_bools[3] ==> m[59] == bk && m[63] == br
    }

    /// No pawn stands on the first or on the last rank.
    pub open spec fn pawns_ok(&self) -> bool {
        forall|s: int|
            0 <= s < 64 && (#[trigger] self.mailbox[s] matches Some(p) && p.1 == PieceType::Pawn)
                ==> 8 <= s < 56
    }

    /// The en-passant set is empty or holds one square: the empty square
    /// that a pawn of the side that has just moved passed over, that pawn
    /// standing right beyond it.
    pub open spec fn ep_ok(&self) -> bool {
        let ep = self.enpassant_bb.data;
        let e = lsb(ep);
        ep != 0 ==> {
            &&& is_single(ep)
            &&& self.mailbox[e] is None
            &&& match self.side_to_move {
                Side::White => rank_of(e) == 5 && self.mailbox[e - 8] == Some(
                    (Side::Black, PieceType::Pawn),
                ),
                Side::Black => rank_of(e) == 2 && self.mailbox[e + 8] == Some(
                    (Side::White, PieceType::Pawn),
                ),
            }
        }
    }

    /// Everything that must hold of a position but for the set of
    /// checking pieces: map and sets agree, each side has one king and the
    /// kings stand apart, pawns,
    /// castling rights and en-passant square are possible, and the hash is
    /// the hash of the parts.
    pub open spec fn structural(&self) -> bool {
        &&& consistent(self.piece_bbs@, self.mailbox@)
        &&& has_one_king(self.mailbox@, Side::White)
        &&& has_one_king(self.mailbox@, Side::Black)
        &&& kings_apart(self.mailbox@)
        &&& self.pawns_ok()
        &&& self.castle_ok()
        &&& self.ep_ok()
        &&& self.current_hash == self.recomputed_hash()
    }

    /// The set of checking pieces is the set of pieces that attack the
    /// king of the side to move.
    pub open spec fn checkers_ok(&self) -> bool {
        self.check_bb.data == checkers_spec(self.piece_bbs@, self.side_to_move)
    }

    /// All the invariants of a position.
    pub open spec fn wf(&self) -> bool {
        self.structural() && self.checkers_ok()
    }

    /// The set of all occupied squares.
    pub fn blockers(&self) -> (r: BitBoard)
        ensures
            r.data == occupancy(self.piece_bbs@),
    {
        let mut i: usize = 0;
        let mut data: u64 = 0;
        while i < 12
            invariant
                i <= 12,
                data == union_range(self.piece_bbs@, 0, i as int),
            decreases 12 - i,
        {
            data = data | self.piece_bbs[i].data;
            i += 1;
        }
        BitBoard { data }
    }

    /// The squares that White's pieces stand on.
    pub fn white_blockers(&self) -> (r: BitBoard)
        ensures
            r.data == side_occupancy(self.piece_bbs@, Side::White),
    {
        let mut i: usize = 0;
        let mut data: u64 = 0;
        while i < 6
            invariant
                i <= 6,
                data == union_range(self.piece_bbs@, 0, i as int),
            decreases 6 - i,
        {
            data = data | self.piece_bbs[i].data;
            i += 1;
        }
        BitBoard { data }
    }

    /// The squares that Black's pieces stand on.
    pub fn black_blockers(&self) -> (r: BitBoard)
        ensures
            r.data == side_occupancy(self.piece_bbs@, Side::Black),
    {
        let mut i: usize = 6;
        let mut data: u64 = 0;
        while i < 12
            invariant
                6 <= i <= 12,
                data == union_range(self.piece_bbs@, 6, i as int),
            decreases 12 - i,
        {
            data = data | self.piece_bbs[i].data;
            i += 1;
        }
        BitBoard { data }
    }

    /// A copy of the position.
    pub fn const_clone(&self) -> (r: ChessBoard)
        ensures
            r == *self,
    {
        ChessBoard {
            piece_bbs: self.piece_bbs,
            mailbox: self.mailbox,
            castle_bools: self.castle_bools,
            enpassant_bb: self.enpassant_bb,
            side_to_move: self.side_to_move,
            half_move_clock: self.half_move_clock,
            full_move_counter: self.full_move_counter,
            check_bb: self.check_bb,
            current_hash: self.current_hash,
        }
    }
}

/// The pieces of side `by`, kings aside, that attack `square` when the
/// piece sets are `bbs`.
pub fn attackers(tables: &AttackTables, bbs: &[BitBoard; 12], square: usize, by: Side) -> (r:
    BitBoard)
    requires
        tables.wf(),
        square < 64,
    ensures
        r.data == attackers_spec(bbs@, square as int, by),
{
    let mut i: usize = 0;
    let mut occ: u64 = 0;
    while i < 12
        invariant
            i <= 12,
            occ == union_range(bbs@, 0, i as int),
        decreases 12 - i,
    {
        occ = occ | bbs[i].data;
        i += 1;
    }
    let blockers = BitBoard { data: occ };
    let base: usize = match by {
        Side::White => 0,
        Side::Black => 6,
    };
    let pawns = tables.pawn_attacks(by.update(), square).data & bbs[base + 5].data;
    let rooks = get_rook_attack(tables, square, blockers).data & bbs[base + 4].data;
    let bishops = get_bishop_attack(tables, square, blockers).data & bbs[base + 3].data;
    let knights = tables.knight_attacks(square).data & bbs[base + 2].data;
    let queens = get_queen_attack(tables, square, blockers).data & bbs[base + 1].data;
    BitBoard { data: pawns | rooks | bishops | knights | queens }
}

/// Whether a piece of side `by` attacks `square` when the piece sets are `bbs`.
pub fn square_attacked(tables: &AttackTables, bbs: &[BitBoard; 12], square: usize, by: Side) -> (r:
    bool)
    requires
        tables.wf(),
        square < 64,
    ensures
        r == attacked_spec(bbs@, square as int, by),
{
    let base: usize = match by {
        Side::White => 0,
        Side::Black => 6,
    };
    attackers(tables, bbs, square, by).data != 0 || (tables.king_attacks(square).data
        & bbs[base].data) != 0
}

impl ChessBoard {
    /// Whether a piece of `attacker_side` attacks `square`: whether the
    /// attack set that a piece of some kind has from `square` holds a piece
    /// of that kind. Where the square map agrees with the piece sets, this
    /// is to say that a piece of `attacker_side` stands where a piece of
    /// its kind reaches `square`.
    pub fn is_square_attacked(&self, tables: &AttackTables, square: usize, attacker_side: Side) -> (r:
        bool)
        requires
            tables.wf(),
            square < 64,
        ensures
            r == attacked_spec(self.piece_bbs@, square as int, attacker_side),
            consistent(self.piece_bbs@, self.mailbox@) ==> r == crate::threat::attacked_on(
                self.mailbox@,
                square as int,
                attacker_side,
            ),
    {
        proof {
            if consistent(self.piece_bbs@, self.mailbox@) {
                crate::threat::lemma_attacked_on(
                    self.piece_bbs@,
                    self.mailbox@,
                    square as int,
                    attacker_side,
                );
            }
        }
        square_attacked(tables, &self.piece_bbs, square, attacker_side)
    }

    /// The square of the king of `side`.
    pub fn king_pos(&self, side: Side) -> (r: usize)
        requires
            self.piece_bbs[side_base(side)].data != 0,
        ensures
            r == king_square(self.piece_bbs@, side),
            r < 64,
            self.piece_bbs[side_base(side)].contains(r as int),
    {
        let i: usize = match side {
            Side::White => 0,
            Side::Black => 6,
        };
        match self.piece_bbs[i].lsb_index() {
            Some(x) => x,
            None => 0,
        }
    }

    /// Whether the king of `king_side` is attacked by the other side.
    pub fn king_is_in_check(&self, tables: &AttackTables, king_side: Side) -> (r: bool)
        requires
            tables.wf(),
            self.piece_bbs[side_base(king_side)].data != 0,
        ensures
            r == attacked_spec(
                self.piece_bbs@,
                king_square(self.piece_bbs@, king_side),
                king_side.flip(),
            ),
    {
        let square = self.king_pos(king_side);
        self.is_square_attacked(tables, square, king_side.update())
    }

    /// The pieces that give check to the king of the side to move.
    pub fn compute_checkers(&self, tables: &AttackTables) -> (r: BitBoard)
        requires
            tables.wf(),
            self.piece_bbs[side_base(self.side_to_move)].data != 0,
        ensures
            r.data == checkers_spec(self.piece_bbs@, self.side_to_move),
    {
        let square = self.king_pos(self.side_to_move);
        attackers(tables, &self.piece_bbs, square, self.side_to_move.update())
    }
}

} // verus!
