//! The attack tables, built once and then only read: leaper tables, slider
//! masks, the magic-indexed slider tables, and the squares between any two
//! squares of one line.
use vstd::prelude::*;
use crate::bits::{
    bit, has_bit, lemma_ext, lemma_mask_of, lemma_ops_all, lemma_single_all, lemma_subset, mask_of,
    subset,
};
use crate::bitboard::{file_of, rank_of, BitBoard, Side};
use crate::leapers::{
    init_king_attack, init_knight_attack, init_pawn_attack, king_attack_spec, knight_attack_spec,
    pawn_attack_spec,
};
use crate::magic::{
    init_bishop_attack_mbb, init_rook_attack_mbb, lemma_bitcounts, shipped_fits, tables_serve,
    BISHOP_MAGICS, BISHOP_OCC_BITCOUNT, ROOK_MAGICS, ROOK_OCC_BITCOUNT,
};
use crate::occupancy::magic_index;
use crate::sliders::{
    bishop_attack_spec, bishop_mask_spec, init_bishop_mbb_mask, init_rook_mbb_mask,
    lemma_bishop_attack_masked, lemma_rook_attack_masked, queen_attack_spec, rook_attack_spec,
    rook_mask_spec,
};

verus! {

/// The point (`rx`, `fx`) lies strictly between (`ra`, `fa`) and
/// (`rb`, `fb`) on a rank, a file or a diagonal that holds both.
pub open spec fn between_coords(ra: int, fa: int, rb: int, fb: int, rx: int, fx: int) -> bool {
    ||| (ra == rb && rx == ra && (fa < fx < fb || fb < fx < fa))
    ||| (fa == fb && fx == fa && (ra < rx < rb || rb < rx < ra))
    ||| (rb - ra == fb - fa && rx - ra == fx - fa && (ra < rx < rb || rb < rx < ra))
    ||| (rb - ra == fa - fb && rx - ra == fa - fx && (ra < rx < rb || rb < rx < ra))
}

/// `x` lies strictly between `a` and `b` on a rank, a file or a diagonal
/// that holds both.
pub open spec fn strictly_between(a: int, b: int, x: int) -> bool {
    &&& 0 <= a < 64
    &&& 0 <= b < 64
    &&& 0 <= x < 64
    &&& between_coords(rank_of(a), file_of(a), rank_of(b), file_of(b), rank_of(x), file_of(x))
}

/// The squares strictly between `a` and `b`; empty when no line holds both.
pub open spec fn ray_between_spec(a: int, b: int) -> u64 {
    mask_of(|x: int| strictly_between(a, b, x))
}

fn sign(d: i8) -> (r: i8)
    ensures
        d > 0 ==> r == 1,
        d == 0 ==> r == 0,
        d < 0 ==> r == -1,
{
    if d > 0 {
        1
    } else if d < 0 {
        -1
    } else {
        0
    }
}

/// The point (`r`, `f`) is on the way from (`ra`, `fa`) in the direction
/// (`dr`, `df`), at least one step away.
pub open spec fn on_the_way(ra: int, fa: int, r: int, f: int, dr: int, df: int) -> bool {
    &&& -1 <= dr <= 1
    &&& -1 <= df <= 1
    &&& (dr != 0 || df != 0)
    &&& (dr == 0 ==> r == ra)
    &&& (df == 0 ==> f == fa)
    &&& (dr == 1 ==> ra < r)
    &&& (dr == -1 ==> r < ra)
    &&& (df == 1 ==> fa < f)
    &&& (df == -1 ==> f < fa)
    &&& (dr != 0 && dr == df ==> r - ra == f - fa)
    &&& (dr != 0 && dr == -df ==> r - ra == fa - f)
}

/// One more step along the way adds the point that was left.
proof fn lemma_between_step(ra: int, fa: int, r: int, f: int, dr: int, df: int, rx: int, fx: int)
    requires
        on_the_way(ra, fa, r, f, dr, df),
    ensures
        on_the_way(ra, fa, r + dr, f + df, dr, df),
        between_coords(ra, fa, r + dr, f + df, rx, fx) <==> between_coords(ra, fa, r, f, rx, fx)
            || (rx == r && fx == f),
{
}

/// The squares strictly between `a` and `b`, by walking from `a` towards `b`.
pub fn compute_ray_between(a: usize, b: usize) -> (r: BitBoard)
    requires
        a < 64,
        b < 64,
    ensures
        r.data == ray_between_spec(a as int, b as int),
{
    let ra: i8 = (a / 8) as i8;
    let fa: i8 = (a % 8) as i8;
    let rb: i8 = (b / 8) as i8;
    let fb: i8 = (b % 8) as i8;
    let dr: i8 = sign(rb - ra);
    let df: i8 = sign(fb - fa);
    let lined: bool = a != b && (ra == rb || fa == fb || rb - ra == fb - fa || rb - ra == fa - fb);
    let mut data: u64 = 0;
    proof {
        lemma_single_all(0, 0);
        lemma_mask_of(|x: int| strictly_between(a as int, b as int, x));
    }
    if lined {
        let mut r: i8 = ra + dr;
        let mut f: i8 = fa + df;
        while r != rb || f != fb
            invariant
                0 <= ra < 8,
                0 <= fa < 8,
                0 <= rb < 8,
                0 <= fb < 8,
                on_the_way(ra as int, fa as int, r as int, f as int, dr as int, df as int),
                on_the_way(ra as int, fa as int, rb as int, fb as int, dr as int, df as int),
                dr == 1 ==> r <= rb,
                dr == -1 ==> rb <= r,
                df == 1 ==> f <= fb,
                df == -1 ==> fb <= f,
                forall|x: int|
                    has_bit(data, x) <==> 0 <= x < 64 && between_coords(
                        ra as int,
                        fa as int,
                        r as int,
                        f as int,
                        rank_of(x),
                        file_of(x),
                    ),
            decreases (if rb > r {
                rb - r
            } else {
                r - rb
            }) + (if fb > f {
                fb - f
            } else {
                f - fb
            }),
        {
            let sq: usize = (8 * r + f) as usize;
            let bsq: u64 = 1u64 << sq;
            assert(bsq == bit(sq as int));
            let ghost old_data = data;
            data = data | bsq;
            proof {
                lemma_single_all(old_data, sq as int);
                assert forall|x: int|
                    has_bit(data, x) <==> 0 <= x < 64 && between_coords(
                        ra as int,
                        fa as int,
                        r + dr,
                        f + df,
                        rank_of(x),
                        file_of(x),
                    ) by {
                    lemma_between_step(
                        ra as int,
                        fa as int,
                        r as int,
                        f as int,
                        dr as int,
                        df as int,
                        rank_of(x),
                        file_of(x),
                    );
                    if 0 <= x < 64 {
                        assert(x == sq <==> rank_of(x) == r && file_of(x) == f);
                    }
                }
                lemma_between_step(ra as int, fa as int, r as int, f as int, dr as int, df as int, 0, 0);
            }
            r = r + dr;
            f = f + df;
        }
    }
    proof {
        assert forall|x: int| 0 <= x < 64 implies has_bit(data, x) == has_bit(
            ray_between_spec(a as int, b as int),
            x,
        ) by {
            if !lined {
                assert(!between_coords(
                    ra as int,
                    fa as int,
                    rb as int,
                    fb as int,
                    rank_of(x),
                    file_of(x),
                ));
            }
        }
        lemma_ext(data, ray_between_spec(a as int, b as int));
    }
    BitBoard { data }
}

/// Row (rank) of a square, from 0.
pub fn row_of(square: usize) -> (r: usize)
    ensures
        r == rank_of(square as int),
{
    square / 8
}

/// Column (file) of a square, from 0.
pub fn col_of(square: usize) -> (r: usize)
    ensures
        r == file_of(square as int),
{
    square % 8
}

/// Index of the diagonal of a square on which rank minus file is constant.
pub fn diag_of(square: usize) -> (r: usize)
    ensures
        r == rank_of(square as int) - file_of(square as int) + 7,
{
    square / 8 + 7 - square % 8
}

/// Index of the diagonal of a square on which rank plus file is constant.
pub fn anti_diag_of(square: usize) -> (r: usize)
    requires
        square < 64,
    ensures
        r == rank_of(square as int) + file_of(square as int),
{
    square / 8 + square % 8
}

/// All the tables the move generator reads.
pub struct AttackTables {
    w_pawn: [BitBoard; 64],
    b_pawn: [BitBoard; 64],
    knight: [BitBoard; 64],
    king: [BitBoard; 64],
    bishop_mask: [BitBoard; 64],
    rook_mask: [BitBoard; 64],
    bishop_attacks: Vec<Vec<BitBoard>>,
    rook_attacks: Vec<Vec<BitBoard>>,
    rays: Vec<Vec<BitBoard>>,
}

/// The 64 x 64 table of the squares between two squares.
pub fn init_rays() -> (r: Vec<Vec<BitBoard>>)
    ensures
        r@.len() == 64,
        forall|a: int| 0 <= a < 64 ==> (#[trigger] r@[a])@.len() == 64,
        forall|a: int, b: int|
            0 <= a < 64 && 0 <= b < 64 ==> (#[trigger] r@[a]@[b]).data == ray_between_spec(a, b),
{
    let mut rays: Vec<Vec<BitBoard>> = Vec::new();
    let mut a: usize = 0;
    while a < 64
        invariant
            a <= 64,
            rays@.len() == a,
            forall|p: int| 0 <= p < a ==> (#[trigger] rays@[p])@.len() == 64,
            forall|p: int, q: int|
                0 <= p < a && 0 <= q < 64 ==> (#[trigger] rays@[p]@[q]).data == ray_between_spec(
                    p,
                    q,
                ),
        decreases 64 - a,
    {
        let mut row: Vec<BitBoard> = Vec::new();
        let mut b: usize = 0;
        while b < 64
            invariant
                a < 64,
                b <= 64,
                row@.len() == b,
                forall|q: int|
                    0 <= q < b ==> (#[trigger] row@[q]).data == ray_between_spec(a as int, q),
            decreases 64 - b,
        {
            row.push(compute_ray_between(a, b));
            b += 1;
        }
        rays.push(row);
        a += 1;
    }
    rays
}

impl AttackTables {
    /// Every table holds what its definition says.
    pub closed spec fn wf(&self) -> bool {
        &&& forall|s: int|
            0 <= s < 64 ==> (#[trigger] self.w_pawn[s]).data == pawn_attack_spec(Side::White, s)
        &&& forall|s: int|
            0 <= s < 64 ==> (#[trigger] self.b_pawn[s]).data == pawn_attack_spec(Side::Black, s)
        &&& forall|s: int| 0 <= s < 64 ==> (#[trigger] self.knight[s]).data == knight_attack_spec(s)
        &&& forall|s: int| 0 <= s < 64 ==> (#[trigger] self.king[s]).data == king_attack_spec(s)
        &&& forall|s: int|
            0 <= s < 64 ==> (#[trigger] self.bishop_mask[s]).data == bishop_mask_spec(s)
        &&& forall|s: int| 0 <= s < 64 ==> (#[trigger] self.rook_mask[s]).data == rook_mask_spec(s)
        &&& tables_serve(self.bishop_attacks@, false)
        &&& tables_serve(self.rook_attacks@, true)
        &&& self.rays@.len() == 64
        &&& forall|a: int| 0 <= a < 64 ==> (#[trigger] self.rays@[a])@.len() == 64
        &&& forall|a: int, b: int|
            0 <= a < 64 && 0 <= b < 64 ==> (#[trigger] self.rays@[a]@[b]).data == ray_between_spec(
                a,
                b,
            )
    }

    /// Builds all tables. `None` when a shipped multiplier or bit count
    /// does not fit its square.
    pub fn new() -> (r: Option<AttackTables>)
        ensures
            r is Some <==> forall|s: int|
                0 <= s < 64 ==> shipped_fits(false, s) && shipped_fits(true, s),
            r matches Some(t) ==> t.wf(),
    {
        let bishop_attacks = match init_bishop_attack_mbb() {
            Some(t) => t,
            None => {
                return None;
            },
        };
        let rook_attacks = match init_rook_attack_mbb() {
            Some(t) => t,
            None => {
                return None;
            },
        };
        Some(
            AttackTables {
                w_pawn: init_pawn_attack(Side::White),
                b_pawn: init_pawn_attack(Side::Black),
                knight: init_knight_attack(),
                king: init_king_attack(),
                bishop_mask: init_bishop_mbb_mask(),
                rook_mask: init_rook_mbb_mask(),
                bishop_attacks,
                rook_attacks,
                rays: init_rays(),
            },
        )
    }

    /// The squares a pawn of `side` on `square` attacks.
    pub fn pawn_attacks(&self, side: Side, square: usize) -> (r: BitBoard)
        requires
            self.wf(),
            square < 64,
        ensures
            r.data == pawn_attack_spec(side, square as int),
    {
        match side {
            Side::White => self.w_pawn[square],
            Side::Black => self.b_pawn[square],
        }
    }

    /// The squares a knight on `square` attacks.
    pub fn knight_attacks(&self, square: usize) -> (r: BitBoard)
        requires
            self.wf(),
            square < 64,
        ensures
            r.data == knight_attack_spec(square as int),
    {
        self.knight[square]
    }

    /// The squares a king on `square` attacks.
    pub fn king_attacks(&self, square: usize) -> (r: BitBoard)
        requires
            self.wf(),
            square < 64,
        ensures
            r.data == king_attack_spec(square as int),
    {
        self.king[square]
    }

    /// The squares strictly between `a` and `b`.
    pub fn ray_between(&self, a: usize, b: usize) -> (r: BitBoard)
        requires
            self.wf(),
            a < 64,
            b < 64,
        ensures
            r.data == ray_between_spec(a as int, b as int),
    {
        self.rays[a][b]
    }
}

/// The squares a bishop on `square` attacks, by one table lookup.
pub fn get_bishop_attack(tables: &AttackTables, square: usize, blockers: BitBoard) -> (r: BitBoard)
    requires
        tables.wf(),
        square < 64,
    ensures
        r.data == bishop_attack_spec(square as int, blockers.data),
{
    let mask = tables.bishop_mask[square];
    let data = blockers.data & mask.data;
    let masked = BitBoard { data };
    proof {
        lemma_bitcounts(square as int);
        lemma_ops_all(blockers.data, mask.data);
        lemma_subset(data, mask.data);
        lemma_bishop_attack_masked(square as int, blockers.data);
        assert(subset(data, bishop_mask_spec(square as int)));
    }
    let m = magic_index(BISHOP_MAGICS[square], masked, BISHOP_OCC_BITCOUNT[square]);
    tables.bishop_attacks[square][m]
}

/// The squares a rook on `square` attacks, by one table lookup.
pub fn get_rook_attack(tables: &AttackTables, square: usize, blockers: BitBoard) -> (r: BitBoard)
    requires
        tables.wf(),
        square < 64,
    ensures
        r.data == rook_attack_spec(square as int, blockers.data),
{
    let mask = tables.rook_mask[square];
    let data = blockers.data & mask.data;
    let masked = BitBoard { data };
    proof {
        lemma_bitcounts(square as int);
        lemma_ops_all(blockers.data, mask.data);
        lemma_subset(data, mask.data);
        lemma_rook_attack_masked(square as int, blockers.data);
        assert(subset(data, rook_mask_spec(square as int)));
    }
    let m = magic_index(ROOK_MAGICS[square], masked, ROOK_OCC_BITCOUNT[square]);
    tables.rook_attacks[square][m]
}

/// The squares a queen on `square` attacks: those of a bishop and those of
/// a rook.
pub fn get_queen_attack(tables: &AttackTables, square: usize, blockers: BitBoard) -> (r: BitBoard)
    requires
        tables.wf(),
        square < 64,
    ensures
        r.data == queen_attack_spec(square as int, blockers.data),
{
    BitBoard {
        data: get_bishop_attack(tables, square, blockers).data | get_rook_attack(
            tables,
            square,
            blockers,
        ).data,
    }
}

/// For each square, the squares a queen or a knight reaches from it on an
/// empty board.
pub fn init_omni_attack(tables: &AttackTables) -> (r: [BitBoard; 64])
    requires
        tables.wf(),
    ensures
        forall|s: int|
            0 <= s < 64 ==> (#[trigger] r[s]).data == queen_attack_spec(s, 0) | knight_attack_spec(
                s,
            ),
{
    let mut attack_array: [BitBoard; 64] = [BitBoard { data: 0 };64];
    let mut i: usize = 0;
    while i < 64
        invariant
            tables.wf(),
            i <= 64,
            forall|s: int|
                0 <= s < i ==> (#[trigger] attack_array[s]).data == queen_attack_spec(s, 0)
                    | knight_attack_spec(s),
        decreases 64 - i,
    {
        let q = get_queen_attack(tables, i, BitBoard { data: 0 });
        let n = tables.knight_attacks(i);
        attack_array[i] = BitBoard { data: q.data | n.data };
        i += 1;
    }
    attack_array
}

} // verus!
