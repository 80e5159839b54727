//! What it means that a square is attacked, read off the square map: a
//! piece of the attacking side stands on a square from which a piece of its
//! kind reaches the attacked square.
use vstd::prelude::*;
use crate::bits::{has_bit, lemma_mask_of, lemma_ops_all, lemma_zero_iff};
use crate::bitboard::{BitBoard, PieceType, Side};
use crate::chessboard::{
    attacked_spec, attackers_spec, consistent, lemma_piece_index, lemma_union_range, occupancy,
    piece_index, piece_of_index, side_base,
};
use crate::leapers::{
    king_attack_spec, king_reach, knight_attack_spec, knight_reach, pawn_attack_spec, pawn_reach,
};
use crate::lines::{
    clear, diagonal, lemma_bishop_attack_iff, lemma_between_symmetric, lemma_queen_attack_iff,
    lemma_rook_attack_iff, straight,
};
use crate::sliders::{bishop_attack_spec, queen_attack_spec, rook_attack_spec};
use crate::tables::strictly_between;

verus! {

/// Every square strictly between `a` and `b` is empty.
pub open spec fn clear_on(mailbox: Seq<Option<(Side, PieceType)>>, a: int, b: int) -> bool {
    forall|x: int| #[trigger] strictly_between(a, b, x) ==> mailbox[x] is None
}

/// The piece `p`, standing on `x`, attacks the square `k`.
pub open spec fn piece_hits(
    p: (Side, PieceType),
    x: int,
    k: int,
    mailbox: Seq<Option<(Side, PieceType)>>,
) -> bool {
    match p.1 {
        PieceType::Pawn => pawn_reach(p.0, x, k),
        PieceType::Knight => knight_reach(x, k),
        PieceType::King => king_reach(x, k),
        PieceType::Bishop => diagonal(x, k) && clear_on(mailbox, x, k),
        PieceType::Rook => straight(x, k) && clear_on(mailbox, x, k),
        PieceType::Queen => (straight(x, k) || diagonal(x, k)) && clear_on(mailbox, x, k),
    }
}

/// The piece on `x`, of side `by`, attacks the square `k`.
pub open spec fn hits_from(
    mailbox: Seq<Option<(Side, PieceType)>>,
    x: int,
    k: int,
    by: Side,
) -> bool {
    &&& 0 <= x < 64
    &&& mailbox[x] matches Some(p) && p.0 == by && piece_hits(p, x, k, mailbox)
}

/// A piece of side `by` attacks the square `k`.
pub open spec fn attacked_on(mailbox: Seq<Option<(Side, PieceType)>>, k: int, by: Side) -> bool {
    exists|x: int| #[trigger] hits_from(mailbox, x, k, by)
}

/// A square is occupied exactly when the square map names a piece on it.
pub proof fn lemma_occupancy_of(bbs: Seq<BitBoard>, mailbox: Seq<Option<(Side, PieceType)>>)
    requires
        consistent(bbs, mailbox),
    ensures
        forall|x: int|
            0 <= x < 64 ==> (#[trigger] has_bit(occupancy(bbs), x) <==> mailbox[x] is Some),
        forall|x: int| has_bit(occupancy(bbs), x) ==> 0 <= x < 64,
{
    lemma_union_range(bbs, 0, 12);
    assert forall|x: int| 0 <= x < 64 implies (#[trigger] has_bit(occupancy(bbs), x)
        <==> mailbox[x] is Some) by {
        if mailbox[x] is Some {
            let p = mailbox[x].unwrap();
            lemma_piece_index(p, 0);
            let k = piece_index(p);
            assert(has_bit(bbs[k].data, x));
        }
        if has_bit(occupancy(bbs), x) {
            let k = choose|k: int| 0 <= k < 12 && has_bit(#[trigger] bbs[k].data, x);
            assert(mailbox[x] == Some(piece_of_index(k)));
        }
    }
}

/// A line is clear of occupied squares exactly when it is clear on the
/// square map.
pub proof fn lemma_clear_on(
    bbs: Seq<BitBoard>,
    mailbox: Seq<Option<(Side, PieceType)>>,
    a: int,
    b: int,
)
    requires
        consistent(bbs, mailbox),
    ensures
        clear(a, b, occupancy(bbs)) == clear_on(mailbox, a, b),
{
    lemma_occupancy_of(bbs, mailbox);
    if clear(a, b, occupancy(bbs)) {
        assert forall|x: int| #[trigger] strictly_between(a, b, x) implies mailbox[x] is None by {
            assert(!has_bit(occupancy(bbs), x));
        }
    }
    if clear_on(mailbox, a, b) {
        assert forall|x: int| #[trigger] strictly_between(a, b, x) implies !has_bit(
            occupancy(bbs),
            x,
        ) by {
            assert(mailbox[x] is None);
        }
    }
}

/// A line is clear on the square map from either end.
pub proof fn lemma_clear_on_symmetric(mailbox: Seq<Option<(Side, PieceType)>>, a: int, b: int)
    ensures
        clear_on(mailbox, a, b) == clear_on(mailbox, b, a),
{
    if clear_on(mailbox, a, b) {
        assert forall|x: int| #[trigger] strictly_between(b, a, x) implies mailbox[x] is None by {
            lemma_between_symmetric(a, b, x);
            assert(strictly_between(a, b, x));
        }
    }
    if clear_on(mailbox, b, a) {
        assert forall|x: int| #[trigger] strictly_between(a, b, x) implies mailbox[x] is None by {
            lemma_between_symmetric(a, b, x);
            assert(strictly_between(b, a, x));
        }
    }
}

/// The piece on `x` attacks `k` exactly when `x` is in the set of its
/// kind and in the attack set that a piece of its kind has from `k`.
pub proof fn lemma_hits_from(
    bbs: Seq<BitBoard>,
    mailbox: Seq<Option<(Side, PieceType)>>,
    x: int,
    k: int,
    by: Side,
)
    requires
        consistent(bbs, mailbox),
        0 <= k < 64,
        0 <= x < 64,
    ensures
        hits_from(mailbox, x, k, by) <==> {
            let base = side_base(by);
            let occ = occupancy(bbs);
            ||| (has_bit(pawn_attack_spec(by.flip(), k), x) && has_bit(bbs[base + 5].data, x))
            ||| (has_bit(rook_attack_spec(k, occ), x) && has_bit(bbs[base + 4].data, x))
            ||| (has_bit(bishop_attack_spec(k, occ), x) && has_bit(bbs[base + 3].data, x))
            ||| (has_bit(knight_attack_spec(k), x) && has_bit(bbs[base + 2].data, x))
            ||| (has_bit(queen_attack_spec(k, occ), x) && has_bit(bbs[base + 1].data, x))
            ||| (has_bit(king_attack_spec(k), x) && has_bit(bbs[base].data, x))
        },
{
    let base = side_base(by);
    let occ = occupancy(bbs);
    lemma_mask_of(|t: int| pawn_reach(by.flip(), k, t));
    lemma_mask_of(|t: int| knight_reach(k, t));
    lemma_mask_of(|t: int| king_reach(k, t));
    lemma_rook_attack_iff(k, occ, x);
    lemma_bishop_attack_iff(k, occ, x);
    lemma_queen_attack_iff(k, occ, x);
    lemma_clear_on(bbs, mailbox, k, x);
    lemma_clear_on_symmetric(mailbox, k, x);
    assert(piece_of_index(base) == (by, PieceType::King));
    assert(piece_of_index(base + 1) == (by, PieceType::Queen));
    assert(piece_of_index(base + 2) == (by, PieceType::Knight));
    assert(piece_of_index(base + 3) == (by, PieceType::Bishop));
    assert(piece_of_index(base + 4) == (by, PieceType::Rook));
    assert(piece_of_index(base + 5) == (by, PieceType::Pawn));
    assert(has_bit(bbs[base].data, x) <==> mailbox[x] == Some(piece_of_index(base)));
    assert(has_bit(bbs[base + 1].data, x) <==> mailbox[x] == Some(piece_of_index(base + 1)));
    assert(has_bit(bbs[base + 2].data, x) <==> mailbox[x] == Some(piece_of_index(base + 2)));
    assert(has_bit(bbs[base + 3].data, x) <==> mailbox[x] == Some(piece_of_index(base + 3)));
    assert(has_bit(bbs[base + 4].data, x) <==> mailbox[x] == Some(piece_of_index(base + 4)));
    assert(has_bit(bbs[base + 5].data, x) <==> mailbox[x] == Some(piece_of_index(base + 5)));
}

/// The pieces in the set of attackers are the pieces, kings aside, that
/// attack the square.
pub proof fn lemma_attackers(
    bbs: Seq<BitBoard>,
    mailbox: Seq<Option<(Side, PieceType)>>,
    x: int,
    k: int,
    by: Side,
)
    requires
        consistent(bbs, mailbox),
        0 <= k < 64,
    ensures
        has_bit(attackers_spec(bbs, k, by), x) <==> (hits_from(mailbox, x, k, by) && mailbox[x]
            != Some((by, PieceType::King))),
{
    let base = side_base(by);
    let occ = occupancy(bbs);
    let a = pawn_attack_spec(by.flip(), k) & bbs[base + 5].data;
    let b = rook_attack_spec(k, occ) & bbs[base + 4].data;
    let c = bishop_attack_spec(k, occ) & bbs[base + 3].data;
    let d = knight_attack_spec(k) & bbs[base + 2].data;
    let e = queen_attack_spec(k, occ) & bbs[base + 1].data;
    lemma_ops_all(pawn_attack_spec(by.flip(), k), bbs[base + 5].data);
    lemma_ops_all(rook_attack_spec(k, occ), bbs[base + 4].data);
    lemma_ops_all(bishop_attack_spec(k, occ), bbs[base + 3].data);
    lemma_ops_all(knight_attack_spec(k), bbs[base + 2].data);
    lemma_ops_all(queen_attack_spec(k, occ), bbs[base + 1].data);
    lemma_ops_all(a, b);
    lemma_ops_all(a | b, c);
    lemma_ops_all(a | b | c, d);
    lemma_ops_all(a | b | c | d, e);
    if 0 <= x < 64 {
        lemma_hits_from(bbs, mailbox, x, k, by);
        assert(piece_of_index(base) == (by, PieceType::King));
        assert(has_bit(bbs[base].data, x) <==> mailbox[x] == Some(piece_of_index(base)));
        assert(has_bit(bbs[base + 1].data, x) <==> mailbox[x] == Some(piece_of_index(base + 1)));
        assert(has_bit(bbs[base + 2].data, x) <==> mailbox[x] == Some(piece_of_index(base + 2)));
        assert(has_bit(bbs[base + 3].data, x) <==> mailbox[x] == Some(piece_of_index(base + 3)));
        assert(has_bit(bbs[base + 4].data, x) <==> mailbox[x] == Some(piece_of_index(base + 4)));
        assert(has_bit(bbs[base + 5].data, x) <==> mailbox[x] == Some(piece_of_index(base + 5)));
    }
}

/// A square is attacked, as the attack sets tell, exactly when a piece of
/// the attacking side stands where it attacks the square.
pub proof fn lemma_attacked_on(
    bbs: Seq<BitBoard>,
    mailbox: Seq<Option<(Side, PieceType)>>,
    k: int,
    by: Side,
)
    requires
        consistent(bbs, mailbox),
        0 <= k < 64,
    ensures
        attacked_spec(bbs, k, by) == attacked_on(mailbox, k, by),
{
    let base = side_base(by);
    let att = attackers_spec(bbs, k, by);
    let kings = king_attack_spec(k) & bbs[base].data;
    lemma_ops_all(king_attack_spec(k), bbs[base].data);
    lemma_zero_iff(att);
    lemma_zero_iff(kings);
    assert(piece_of_index(base) == (by, PieceType::King));
    if attacked_spec(bbs, k, by) {
        if att != 0 {
            let x = choose|x: int| 0 <= x < 64 && has_bit(att, x);
            lemma_attackers(bbs, mailbox, x, k, by);
            assert(hits_from(mailbox, x, k, by));
        } else {
            let x = choose|x: int| 0 <= x < 64 && has_bit(kings, x);
            lemma_hits_from(bbs, mailbox, x, k, by);
            assert(hits_from(mailbox, x, k, by));
        }
    }
    if attacked_on(mailbox, k, by) {
        let x = choose|x: int| #[trigger] hits_from(mailbox, x, k, by);
        lemma_attackers(bbs, mailbox, x, k, by);
        lemma_hits_from(bbs, mailbox, x, k, by);
        if mailbox[x] == Some((by, PieceType::King)) {
            assert(has_bit(bbs[base].data, x) <==> mailbox[x] == Some(piece_of_index(base)));
            assert(has_bit(kings, x));
        } else {
            assert(has_bit(att, x));
        }
    }
}

} // verus!
