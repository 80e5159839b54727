//! Attack sets of the pieces that do not slide: pawns, knights and kings.
//!
//! Each set is stated by the geometry of the move, on an empty board, and
//! the builders below fill one 64-entry table per piece.
use vstd::prelude::*;
use crate::bits::{bit, has_bit, lemma_ext, lemma_mask_of, lemma_single_all, mask_of};
use crate::bitboard::{file_of, rank_of, BitBoard, Side};

verus! {

/// A knight on `s` attacks `t`.
pub open spec fn knight_reach(s: int, t: int) -> bool {
    let dr = rank_of(t) - rank_of(s);
    let df = file_of(t) - file_of(s);
    &&& 0 <= s < 64
    &&& 0 <= t < 64
    &&& ((dr == 1 || dr == -1) && (df == 2 || df == -2)) || ((dr == 2 || dr == -2) && (df == 1
        || df == -1))
}

/// A king on `s` attacks `t`.
pub open spec fn king_reach(s: int, t: int) -> bool {
    let dr = rank_of(t) - rank_of(s);
    let df = file_of(t) - file_of(s);
    &&& 0 <= s < 64
    &&& 0 <= t < 64
    &&& s != t
    &&& -1 <= dr <= 1
    &&& -1 <= df <= 1
}

/// A pawn of `side` on `s` attacks `t`: one rank forward, one file aside.
pub open spec fn pawn_reach(side: Side, s: int, t: int) -> bool {
    let dr = rank_of(t) - rank_of(s);
    let df = file_of(t) - file_of(s);
    &&& 0 <= s < 64
    &&& 0 <= t < 64
    &&& (df == 1 || df == -1)
    &&& match side {
        Side::White => dr == 1,
        Side::Black => dr == -1,
    }
}

/// Kings reach each other, or neither reaches the other.
pub proof fn lemma_king_reach_symmetric(a: int, b: int)
    ensures
        king_reach(a, b) == king_reach(b, a),
{
}

/// The squares a knight on `s` attacks.
pub open spec fn knight_attack_spec(s: int) -> u64 {
    mask_of(|t: int| knight_reach(s, t))
}

/// The squares a king on `s` attacks.
pub open spec fn king_attack_spec(s: int) -> u64 {
    mask_of(|t: int| king_reach(s, t))
}

/// The squares a pawn of `side` on `s` attacks.
pub open spec fn pawn_attack_spec(side: Side, s: int) -> u64 {
    mask_of(|t: int| pawn_reach(side, s, t))
}

/// `data` with the square `up` above `i` added, when `cond` holds.
fn with_above(data: u64, i: usize, up: usize, cond: bool) -> (r: u64)
    requires
        i < 64,
        cond ==> i + up < 64,
    ensures
        forall|j: int| has_bit(r, j) <==> has_bit(data, j) || (cond && j == i + up),
{
    if cond {
        let t: usize = i + up;
        let r = data | (1u64 << t);
        proof {
            lemma_single_all(data, t as int);
            assert(r == data | bit(t as int));
        }
        r
    } else {
        data
    }
}

/// `data` with the square `down` below `i` added, when `cond` holds.
fn with_below(data: u64, i: usize, down: usize, cond: bool) -> (r: u64)
    requires
        i < 64,
        cond ==> down <= i,
    ensures
        forall|j: int| has_bit(r, j) <==> has_bit(data, j) || (cond && j == i - down),
{
    if cond {
        let t: usize = i - down;
        let r = data | (1u64 << t);
        proof {
            lemma_single_all(data, t as int);
            assert(r == data | bit(t as int));
        }
        r
    } else {
        data
    }
}

/// The pawn attack table of one side: entry `s` holds the (at most two)
/// squares a pawn on `s` attacks.
pub fn init_pawn_attack(side: Side) -> (r: [BitBoard; 64])
    ensures
        forall|s: int| 0 <= s < 64 ==> (#[trigger] r[s]).data == pawn_attack_spec(side, s),
{
    let mut attack_array: [BitBoard; 64] = [BitBoard { data: 0 };64];
    let mut i: usize = 0;
    while i < 64
        invariant
            i <= 64,
            forall|s: int| 0 <= s < i ==> (#[trigger] attack_array[s]).data == pawn_attack_spec(
                side,
                s,
            ),
        decreases 64 - i,
    {
        let mut data: u64 = 0;
        proof {
            lemma_single_all(0, 0);
        }
        match side {
            Side::White => {
                data = with_above(data, i, 7, i < 56 && i % 8 > 0);
                data = with_above(data, i, 9, i < 56 && i % 8 < 7);
            },
            Side::Black => {
                data = with_below(data, i, 9, i > 7 && i % 8 > 0);
                data = with_below(data, i, 7, i > 7 && i % 8 < 7);
            },
        }
        proof {
            lemma_mask_of(|t: int| pawn_reach(side, i as int, t));
            lemma_ext(data, pawn_attack_spec(side, i as int));
        }
        attack_array[i] = BitBoard { data };
        i += 1;
    }
    attack_array
}

/// The knight attack table.
pub fn init_knight_attack() -> (r: [BitBoard; 64])
    ensures
        forall|s: int| 0 <= s < 64 ==> (#[trigger] r[s]).data == knight_attack_spec(s),
{
    let mut attack_array: [BitBoard; 64] = [BitBoard { data: 0 };64];
    let mut i: usize = 0;
    while i < 64
        invariant
            i <= 64,
            forall|s: int| 0 <= s < i ==> (#[trigger] attack_array[s]).data == knight_attack_spec(s),
        decreases 64 - i,
    {
        let mut data: u64 = 0;
        proof {
            lemma_single_all(0, 0);
        }
        data = with_above(data, i, 17, i < 48 && i % 8 < 7);
        data = with_above(data, i, 15, i < 48 && i % 8 > 0);
        data = with_above(data, i, 10, i < 56 && i % 8 < 6);
        data = with_above(data, i, 6, i < 56 && i % 8 > 1);
        data = with_below(data, i, 6, i > 7 && i % 8 < 6);
        data = with_below(data, i, 10, i > 7 && i % 8 > 1);
        data = with_below(data, i, 15, i > 15 && i % 8 < 7);
        data = with_below(data, i, 17, i > 15 && i % 8 > 0);
        proof {
            lemma_mask_of(|t: int| knight_reach(i as int, t));
            lemma_ext(data, knight_attack_spec(i as int));
        }
        attack_array[i] = BitBoard { data };
        i += 1;
    }
    attack_array
}

/// The king attack table.
pub fn init_king_attack() -> (r: [BitBoard; 64])
    ensures
        forall|s: int| 0 <= s < 64 ==> (#[trigger] r[s]).data == king_attack_spec(s),
{
    let mut attack_array: [BitBoard; 64] = [BitBoard { data: 0 };64];
    let mut i: usize = 0;
    while i < 64
        invariant
            i <= 64,
            forall|s: int| 0 <= s < i ==> (#[trigger] attack_array[s]).data == king_attack_spec(s),
        decreases 64 - i,
    {
        let mut data: u64 = 0;
        proof {
            lemma_single_all(0, 0);
        }
        data = with_above(data, i, 8, i < 56);
        data = with_below(data, i, 8, i > 7);
        data = with_below(data, i, 1, i % 8 > 0);
        data = with_above(data, i, 1, i % 8 < 7);
        data = with_above(data, i, 7, i < 56 && i % 8 > 0);
        data = with_above(data, i, 9, i < 56 && i % 8 < 7);
        data = with_below(data, i, 9, i > 7 && i % 8 > 0);
        data = with_below(data, i, 7, i > 7 && i % 8 < 7);
        proof {
            lemma_mask_of(|t: int| king_reach(i as int, t));
            lemma_ext(data, king_attack_spec(i as int));
        }
        attack_array[i] = BitBoard { data };
        i += 1;
    }
    attack_array
}

} // verus!
