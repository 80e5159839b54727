//! Attack sets of the sliding pieces, computed by walking each ray.
//!
//! A ray leaves a square in one of eight directions and ends with the first
//! occupied square, which it includes, or with the edge of the board.
use vstd::prelude::*;
use crate::bits::{bit, has_bit, lemma_ext, lemma_ops_all, lemma_single_all};
use crate::bitboard::{file_of, on_board, rank_of, square_at, BitBoard};

verus! {

/// The squares seen from (`rank`, `file`) in the direction (`dr`, `df`),
/// within `fuel` steps: every square up to the first one that `occ` holds,
/// that one included.
pub open spec fn ray(rank: int, file: int, dr: int, df: int, occ: u64, fuel: nat) -> u64
    decreases fuel,
{
    let r2 = rank + dr;
    let f2 = file + df;
    if fuel == 0 || !on_board(r2, f2) {
        0
    } else {
        let sq = square_at(r2, f2);
        bit(sq) | (if has_bit(occ, sq) {
            0
        } else {
            ray(r2, f2, dr, df, occ, (fuel - 1) as nat)
        })
    }
}

/// The squares of the ray on an empty board, without the last one before
/// the edge: the only squares whose occupancy can shorten the ray.
pub open spec fn inner_ray(rank: int, file: int, dr: int, df: int, fuel: nat) -> u64
    decreases fuel,
{
    let r2 = rank + dr;
    let f2 = file + df;
    if fuel == 0 || !on_board(r2, f2) || !on_board(r2 + dr, f2 + df) {
        0
    } else {
        bit(square_at(r2, f2)) | inner_ray(r2, f2, dr, df, (fuel - 1) as nat)
    }
}

/// One of the eight directions a slider moves in.
pub open spec fn is_direction(dr: int, df: int) -> bool {
    -1 <= dr <= 1 && -1 <= df <= 1 && (dr != 0 || df != 0)
}

/// The squares a rook on `s` attacks when `occ` is the set of occupied squares.
pub open spec fn rook_attack_spec(s: int, occ: u64) -> u64 {
    let r = rank_of(s);
    let f = file_of(s);
    ray(r, f, 0, -1, occ, 7) | ray(r, f, 0, 1, occ, 7) | ray(r, f, 1, 0, occ, 7) | ray(
        r,
        f,
        -1,
        0,
        occ,
        7,
    )
}

/// The squares a bishop on `s` attacks when `occ` is the set of occupied squares.
pub open spec fn bishop_attack_spec(s: int, occ: u64) -> u64 {
    let r = rank_of(s);
    let f = file_of(s);
    ray(r, f, 1, 1, occ, 7) | ray(r, f, -1, 1, occ, 7) | ray(r, f, 1, -1, occ, 7) | ray(
        r,
        f,
        -1,
        -1,
        occ,
        7,
    )
}

/// The squares a queen on `s` attacks when `occ` is the set of occupied squares.
pub open spec fn queen_attack_spec(s: int, occ: u64) -> u64 {
    bishop_attack_spec(s, occ) | rook_attack_spec(s, occ)
}

/// The squares whose occupancy decides what a rook on `s` attacks.
pub open spec fn rook_mask_spec(s: int) -> u64 {
    let r = rank_of(s);
    let f = file_of(s);
    inner_ray(r, f, 0, -1, 7) | inner_ray(r, f, 0, 1, 7) | inner_ray(r, f, 1, 0, 7) | inner_ray(
        r,
        f,
        -1,
        0,
        7,
    )
}

/// The squares whose occupancy decides what a bishop on `s` attacks.
pub open spec fn bishop_mask_spec(s: int) -> u64 {
    let r = rank_of(s);
    let f = file_of(s);
    inner_ray(r, f, 1, 1, 7) | inner_ray(r, f, -1, 1, 7) | inner_ray(r, f, 1, -1, 7) | inner_ray(
        r,
        f,
        -1,
        -1,
        7,
    )
}

/// Occupancy outside a set that holds the inner ray does not change the ray.
pub proof fn lemma_ray_masked(rank: int, file: int, dr: int, df: int, occ: u64, m: u64, fuel: nat)
    requires
        forall|j: int| has_bit(inner_ray(rank, file, dr, df, fuel), j) ==> has_bit(m, j),
    ensures
        ray(rank, file, dr, df, occ & m, fuel) == ray(rank, file, dr, df, occ, fuel),
    decreases fuel,
{
    let r2 = rank + dr;
    let f2 = file + df;
    if fuel == 0 || !on_board(r2, f2) {
    } else {
        let sq = square_at(r2, f2);
        let rest = (fuel - 1) as nat;
        if !on_board(r2 + dr, f2 + df) || rest == 0 {
            assert(ray(r2, f2, dr, df, occ, rest) == 0);
            assert(ray(r2, f2, dr, df, occ & m, rest) == 0);
        } else {
            let tail = inner_ray(r2, f2, dr, df, rest);
            lemma_single_all(tail, sq);
            lemma_ops_all(bit(sq), tail);
            assert(has_bit(inner_ray(rank, file, dr, df, fuel), sq));
            lemma_ops_all(occ, m);
            assert forall|j: int| has_bit(tail, j) implies has_bit(m, j) by {
                assert(has_bit(inner_ray(rank, file, dr, df, fuel), j));
            }
            lemma_ray_masked(r2, f2, dr, df, occ, m, rest);
        }
    }
}

/// A rook's attack set depends on the occupancy of its mask alone.
pub proof fn lemma_rook_attack_masked(s: int, occ: u64)
    ensures
        rook_attack_spec(s, occ & rook_mask_spec(s)) == rook_attack_spec(s, occ),
{
    let r = rank_of(s);
    let f = file_of(s);
    let m = rook_mask_spec(s);
    let a = inner_ray(r, f, 0, -1, 7);
    let b = inner_ray(r, f, 0, 1, 7);
    let c = inner_ray(r, f, 1, 0, 7);
    let d = inner_ray(r, f, -1, 0, 7);
    lemma_ops_all(a, b);
    lemma_ops_all(a | b, c);
    lemma_ops_all(a | b | c, d);
    lemma_ray_masked(r, f, 0, -1, occ, m, 7);
    lemma_ray_masked(r, f, 0, 1, occ, m, 7);
    lemma_ray_masked(r, f, 1, 0, occ, m, 7);
    lemma_ray_masked(r, f, -1, 0, occ, m, 7);
}

/// A bishop's attack set depends on the occupancy of its mask alone.
pub proof fn lemma_bishop_attack_masked(s: int, occ: u64)
    ensures
        bishop_attack_spec(s, occ & bishop_mask_spec(s)) == bishop_attack_spec(s, occ),
{
    let r = rank_of(s);
    let f = file_of(s);
    let m = bishop_mask_spec(s);
    let a = inner_ray(r, f, 1, 1, 7);
    let b = inner_ray(r, f, -1, 1, 7);
    let c = inner_ray(r, f, 1, -1, 7);
    let d = inner_ray(r, f, -1, -1, 7);
    lemma_ops_all(a, b);
    lemma_ops_all(a | b, c);
    lemma_ops_all(a | b | c, d);
    lemma_ray_masked(r, f, 1, 1, occ, m, 7);
    lemma_ray_masked(r, f, -1, 1, occ, m, 7);
    lemma_ray_masked(r, f, 1, -1, occ, m, 7);
    lemma_ray_masked(r, f, -1, -1, occ, m, 7);
}

/// Walks one ray from `square` and returns the squares seen.
pub fn walk_ray(square: usize, dr: i8, df: i8, blockers: BitBoard) -> (r: BitBoard)
    requires
        square < 64,
        is_direction(dr as int, df as int),
    ensures
        r.data == ray(
            rank_of(square as int),
            file_of(square as int),
            dr as int,
            df as int,
            blockers.data,
            7,
        ),
{
    let mut rank: i8 = (square / 8) as i8;
    let mut file: i8 = (square % 8) as i8;
    let mut data: u64 = 0;
    let mut fuel: u8 = 7;
    let ghost total = ray(
        rank_of(square as int),
        file_of(square as int),
        dr as int,
        df as int,
        blockers.data,
        7,
    );
    let mut open: bool = true;
    proof {
        lemma_ops_all(0, total);
        lemma_single_all(0, 0);
        lemma_ext(0 | total, total);
    }
    while open && fuel > 0
        invariant
            is_direction(dr as int, df as int),
            on_board(rank as int, file as int),
            fuel <= 7,
            total == data | (if open {
                ray(rank as int, file as int, dr as int, df as int, blockers.data, fuel as nat)
            } else {
                0
            }),
        decreases fuel,
    {
        let r2: i8 = rank + dr;
        let f2: i8 = file + df;
        let ghost rest = ray(
            rank as int,
            file as int,
            dr as int,
            df as int,
            blockers.data,
            fuel as nat,
        );
        if r2 < 0 || r2 > 7 || f2 < 0 || f2 > 7 {
            open = false;
            fuel = 0;
            assert(rest == 0);
        } else {
            let sq: usize = (8 * r2 + f2) as usize;
            let b: u64 = 1u64 << sq;
            assert(b == bit(sq as int));
            let ghost tail: u64 = if has_bit(blockers.data, sq as int) {
                0
            } else {
                ray(r2 as int, f2 as int, dr as int, df as int, blockers.data, (fuel - 1) as nat)
            };
            assert(rest == b | tail);
            proof {
                lemma_ops_all(data, b);
                lemma_ops_all(b, tail);
                lemma_ops_all(data, b | tail);
                lemma_ops_all(data | b, tail);
                lemma_ext(data | (b | tail), (data | b) | tail);
            }
            data = data | b;
            if blockers.data & b != 0 {
                open = false;
            }
            rank = r2;
            file = f2;
            fuel = fuel - 1;
        }
    }
    proof {
        lemma_ops_all(data, 0);
        lemma_single_all(0, 0);
        lemma_ext(data | 0, data);
    }
    BitBoard { data }
}

/// Walks one ray from `square` on an empty board and returns its squares
/// without the one on the edge.
pub fn walk_inner_ray(square: usize, dr: i8, df: i8) -> (r: BitBoard)
    requires
        square < 64,
        is_direction(dr as int, df as int),
    ensures
        r.data == inner_ray(
            rank_of(square as int),
            file_of(square as int),
            dr as int,
            df as int,
            7,
        ),
{
    let mut rank: i8 = (square / 8) as i8;
    let mut file: i8 = (square % 8) as i8;
    let mut data: u64 = 0;
    let mut fuel: u8 = 7;
    let ghost total = inner_ray(
        rank_of(square as int),
        file_of(square as int),
        dr as int,
        df as int,
        7,
    );
    let mut open: bool = true;
    proof {
        lemma_ops_all(0, total);
        lemma_single_all(0, 0);
        lemma_ext(0 | total, total);
    }
    while open && fuel > 0
        invariant
            is_direction(dr as int, df as int),
            on_board(rank as int, file as int),
            fuel <= 7,
            total == data | (if open {
                inner_ray(rank as int, file as int, dr as int, df as int, fuel as nat)
            } else {
                0
            }),
        decreases fuel,
    {
        let r2: i8 = rank + dr;
        let f2: i8 = file + df;
        let r3: i8 = r2 + dr;
        let f3: i8 = f2 + df;
        let ghost rest = inner_ray(rank as int, file as int, dr as int, df as int, fuel as nat);
        if r2 < 0 || r2 > 7 || f2 < 0 || f2 > 7 || r3 < 0 || r3 > 7 || f3 < 0 || f3 > 7 {
            open = false;
            fuel = 0;
            assert(rest == 0);
        } else {
            let sq: usize = (8 * r2 + f2) as usize;
            let b: u64 = 1u64 << sq;
            assert(b == bit(sq as int));
            let ghost tail: u64 = inner_ray(
                r2 as int,
                f2 as int,
                dr as int,
                df as int,
                (fuel - 1) as nat,
            );
            assert(rest == b | tail);
            proof {
                lemma_ops_all(data, b);
                lemma_ops_all(b, tail);
                lemma_ops_all(data, b | tail);
                lemma_ops_all(data | b, tail);
                lemma_ext(data | (b | tail), (data | b) | tail);
            }
            data = data | b;
            rank = r2;
            file = f2;
            fuel = fuel - 1;
        }
    }
    proof {
        lemma_ops_all(data, 0);
        lemma_single_all(0, 0);
        lemma_ext(data | 0, data);
    }
    BitBoard { data }
}

/// The attack set of a bishop on square `i`, by walking its four rays.
pub fn naive_bishop_attack(i: usize, blockers: BitBoard) -> (r: BitBoard)
    requires
        i < 64,
    ensures
        r.data == bishop_attack_spec(i as int, blockers.data),
{
    let a = walk_ray(i, 1, 1, blockers);
    let b = walk_ray(i, -1, 1, blockers);
    let c = walk_ray(i, 1, -1, blockers);
    let d = walk_ray(i, -1, -1, blockers);
    BitBoard { data: a.data | b.data | c.data | d.data }
}

/// The attack set of a rook on square `i`, by walking its four rays.
pub fn naive_rook_attack(i: usize, blockers: BitBoard) -> (r: BitBoard)
    requires
        i < 64,
    ensures
        r.data == rook_attack_spec(i as int, blockers.data),
{
    let a = walk_ray(i, 0, -1, blockers);
    let b = walk_ray(i, 0, 1, blockers);
    let c = walk_ray(i, 1, 0, blockers);
    let d = walk_ray(i, -1, 0, blockers);
    BitBoard { data: a.data | b.data | c.data | d.data }
}

/// The table of bishop masks: entry `s` holds the squares whose occupancy
/// decides what a bishop on `s` attacks.
pub fn init_bishop_mbb_mask() -> (r: [BitBoard; 64])
    ensures
        forall|s: int| 0 <= s < 64 ==> (#[trigger] r[s]).data == bishop_mask_spec(s),
{
    let mut attack_array: [BitBoard; 64] = [BitBoard { data: 0 };64];
    let mut i: usize = 0;
    while i < 64
        invariant
            i <= 64,
            forall|s: int| 0 <= s < i ==> (#[trigger] attack_array[s]).data == bishop_mask_spec(s),
        decreases 64 - i,
    {
        let a = walk_inner_ray(i, 1, 1);
        let b = walk_inner_ray(i, -1, 1);
        let c = walk_inner_ray(i, 1, -1);
        let d = walk_inner_ray(i, -1, -1);
        attack_array[i] = BitBoard { data: a.data | b.data | c.data | d.data };
        i += 1;
    }
    attack_array
}

/// The table of rook masks: entry `s` holds the squares whose occupancy
/// decides what a rook on `s` attacks.
pub fn init_rook_mbb_mask() -> (r: [BitBoard; 64])
    ensures
        forall|s: int| 0 <= s < 64 ==> (#[trigger] r[s]).data == rook_mask_spec(s),
{
    let mut attack_array: [BitBoard; 64] = [BitBoard { data: 0 };64];
    let mut i: usize = 0;
    while i < 64
        invariant
            i <= 64,
            forall|s: int| 0 <= s < i ==> (#[trigger] attack_array[s]).data == rook_mask_spec(s),
        decreases 64 - i,
    {
        let a = walk_inner_ray(i, 0, -1);
        let b = walk_inner_ray(i, 0, 1);
        let c = walk_inner_ray(i, 1, 0);
        let d = walk_inner_ray(i, -1, 0);
        attack_array[i] = BitBoard { data: a.data | b.data | c.data | d.data };
        i += 1;
    }
    attack_array
}

} // verus!
