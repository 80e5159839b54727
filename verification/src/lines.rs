//! What a slider's attack set means: a square is in it exactly when it
//! shares a line with the slider and every square between them is empty.
use vstd::prelude::*;
use crate::bits::{bit, has_bit, lemma_ops_all, lemma_single_all};
use crate::bitboard::{file_of, on_board, rank_of, square_at};
use crate::sliders::{bishop_attack_spec, is_direction, queen_attack_spec, ray, rook_attack_spec};
use crate::tables::{between_coords, on_the_way, strictly_between};

verus! {

/// Two different squares on one rank or on one file.
pub open spec fn straight(a: int, b: int) -> bool {
    &&& 0 <= a < 64
    &&& 0 <= b < 64
    &&& a != b
    &&& (rank_of(a) == rank_of(b) || file_of(a) == file_of(b))
}

/// Two different squares on one diagonal.
pub open spec fn diagonal(a: int, b: int) -> bool {
    &&& 0 <= a < 64
    &&& 0 <= b < 64
    &&& a != b
    &&& (rank_of(b) - rank_of(a) == file_of(b) - file_of(a) || rank_of(b) - rank_of(a) == file_of(
        a,
    ) - file_of(b))
}

/// No square strictly between `a` and `b` is in `occ`.
pub open spec fn clear(a: int, b: int, occ: u64) -> bool {
    forall|x: int| #[trigger] strictly_between(a, b, x) ==> !has_bit(occ, x)
}

/// How many steps lead from coordinate `c` in direction `d` to the edge.
pub open spec fn axis_room(c: int, d: int) -> int {
    if d == 1 {
        7 - c
    } else if d == -1 {
        c
    } else {
        7
    }
}

/// A point is on the way exactly when it is the next point or on the way
/// from the next point.
pub proof fn lemma_way_step(r: int, f: int, dr: int, df: int, tr: int, tf: int)
    requires
        is_direction(dr, df),
    ensures
        on_the_way(r, f, tr, tf, dr, df) <==> ((tr == r + dr && tf == f + df) || on_the_way(
            r + dr,
            f + df,
            tr,
            tf,
            dr,
            df,
        )),
{
}

/// The points between a point and a point on its way are the next point
/// and the points between the next point and that point.
pub proof fn lemma_between_first(
    r: int,
    f: int,
    dr: int,
    df: int,
    tr: int,
    tf: int,
    xr: int,
    xf: int,
)
    requires
        is_direction(dr, df),
        on_the_way(r, f, tr, tf, dr, df),
    ensures
        between_coords(r, f, tr, tf, xr, xf) <==> (!(tr == r + dr && tf == f + df) && ((xr == r
            + dr && xf == f + df) || between_coords(r + dr, f + df, tr, tf, xr, xf))),
{
}

/// A square is on a ray exactly when it is on the way of the ray and no
/// square before it is occupied.
pub proof fn lemma_ray_iff(r: int, f: int, dr: int, df: int, occ: u64, fuel: nat, t: int)
    requires
        on_board(r, f),
        is_direction(dr, df),
        fuel >= axis_room(r, dr) || fuel >= axis_room(f, df),
        0 <= t < 64,
    ensures
        has_bit(ray(r, f, dr, df, occ, fuel), t) <==> (on_the_way(
            r,
            f,
            rank_of(t),
            file_of(t),
            dr,
            df,
        ) && forall|x: int|
            0 <= x < 64 && #[trigger] between_coords(
                r,
                f,
                rank_of(t),
                file_of(t),
                rank_of(x),
                file_of(x),
            ) ==> !has_bit(occ, x)),
    decreases fuel,
{
    let r2 = r + dr;
    let f2 = f + df;
    let tr = rank_of(t);
    let tf = file_of(t);
    lemma_way_step(r, f, dr, df, tr, tf);
    lemma_single_all(0, 0);
    if fuel == 0 || !on_board(r2, f2) {
        assert(!on_the_way(r, f, tr, tf, dr, df));
    } else {
        let sq = square_at(r2, f2);
        assert(rank_of(sq) == r2 && file_of(sq) == f2);
        let tail: u64 = if has_bit(occ, sq) {
            0
        } else {
            ray(r2, f2, dr, df, occ, (fuel - 1) as nat)
        };
        lemma_ops_all(bit(sq), tail);
        lemma_single_all(0, sq);
        lemma_ray_iff(r2, f2, dr, df, occ, (fuel - 1) as nat, t);
        assert(t == sq <==> (tr == r2 && tf == f2));
        if on_the_way(r, f, tr, tf, dr, df) {
            assert forall|x: int| 0 <= x < 64 implies (between_coords(
                r,
                f,
                tr,
                tf,
                rank_of(x),
                file_of(x),
            ) <==> (t != sq && (x == sq || between_coords(
                r2,
                f2,
                tr,
                tf,
                rank_of(x),
                file_of(x),
            )))) by {
                lemma_between_first(r, f, dr, df, tr, tf, rank_of(x), file_of(x));
                assert(x == sq <==> (rank_of(x) == r2 && file_of(x) == f2));
            }
            if t != sq {
                assert(between_coords(r, f, tr, tf, rank_of(sq), file_of(sq)));
            }
        }
    }
}

/// What [`lemma_ray_iff`] says of the ray from square `s`, in terms of the
/// squares between `s` and `t`.
proof fn lemma_ray_from(s: int, dr: int, df: int, occ: u64, t: int)
    requires
        0 <= s < 64,
        0 <= t < 64,
        is_direction(dr, df),
    ensures
        has_bit(ray(rank_of(s), file_of(s), dr, df, occ, 7), t) <==> (on_the_way(
            rank_of(s),
            file_of(s),
            rank_of(t),
            file_of(t),
            dr,
            df,
        ) && clear(s, t, occ)),
{
    let r = rank_of(s);
    let f = file_of(s);
    lemma_ray_iff(r, f, dr, df, occ, 7, t);
    if on_the_way(r, f, rank_of(t), file_of(t), dr, df) {
        if clear(s, t, occ) {
            assert forall|x: int|
                0 <= x < 64 && #[trigger] between_coords(
                    r,
                    f,
                    rank_of(t),
                    file_of(t),
                    rank_of(x),
                    file_of(x),
                ) implies !has_bit(occ, x) by {
                assert(strictly_between(s, t, x));
            }
        }
        if forall|x: int|
            0 <= x < 64 && #[trigger] between_coords(
                r,
                f,
                rank_of(t),
                file_of(t),
                rank_of(x),
                file_of(x),
            ) ==> !has_bit(occ, x) {
            assert forall|x: int| #[trigger] strictly_between(s, t, x) implies !has_bit(
                occ,
                x,
            ) by {
                assert(between_coords(r, f, rank_of(t), file_of(t), rank_of(x), file_of(x)));
            }
        }
    }
}

/// A rook on `s` attacks `t` exactly when the two share a rank or a file
/// and every square between them is empty.
pub proof fn lemma_rook_attack_iff(s: int, occ: u64, t: int)
    requires
        0 <= s < 64,
    ensures
        has_bit(rook_attack_spec(s, occ), t) <==> (straight(s, t) && clear(s, t, occ)),
{
    let r = rank_of(s);
    let f = file_of(s);
    let a = ray(r, f, 0, -1, occ, 7);
    let b = ray(r, f, 0, 1, occ, 7);
    let c = ray(r, f, 1, 0, occ, 7);
    let d = ray(r, f, -1, 0, occ, 7);
    lemma_ops_all(a, b);
    lemma_ops_all(a | b, c);
    lemma_ops_all(a | b | c, d);
    if 0 <= t < 64 {
        lemma_ray_from(s, 0, -1, occ, t);
        lemma_ray_from(s, 0, 1, occ, t);
        lemma_ray_from(s, 1, 0, occ, t);
        lemma_ray_from(s, -1, 0, occ, t);
    }
}

/// A bishop on `s` attacks `t` exactly when the two share a diagonal and
/// every square between them is empty.
pub proof fn lemma_bishop_attack_iff(s: int, occ: u64, t: int)
    requires
        0 <= s < 64,
    ensures
        has_bit(bishop_attack_spec(s, occ), t) <==> (diagonal(s, t) && clear(s, t, occ)),
{
    let r = rank_of(s);
    let f = file_of(s);
    let a = ray(r, f, 1, 1, occ, 7);
    let b = ray(r, f, -1, 1, occ, 7);
    let c = ray(r, f, 1, -1, occ, 7);
    let d = ray(r, f, -1, -1, occ, 7);
    lemma_ops_all(a, b);
    lemma_ops_all(a | b, c);
    lemma_ops_all(a | b | c, d);
    if 0 <= t < 64 {
        lemma_ray_from(s, 1, 1, occ, t);
        lemma_ray_from(s, -1, 1, occ, t);
        lemma_ray_from(s, 1, -1, occ, t);
        lemma_ray_from(s, -1, -1, occ, t);
    }
}

/// A queen on `s` attacks `t` exactly when the two share a line and every
/// square between them is empty.
pub proof fn lemma_queen_attack_iff(s: int, occ: u64, t: int)
    requires
        0 <= s < 64,
    ensures
        has_bit(queen_attack_spec(s, occ), t) <==> ((straight(s, t) || diagonal(s, t)) && clear(
            s,
            t,
            occ,
        )),
{
    lemma_rook_attack_iff(s, occ, t);
    lemma_bishop_attack_iff(s, occ, t);
    lemma_ops_all(bishop_attack_spec(s, occ), rook_attack_spec(s, occ));
}

/// The squares between two squares are the same from either end.
pub proof fn lemma_between_symmetric(a: int, b: int, x: int)
    ensures
        strictly_between(a, b, x) == strictly_between(b, a, x),
{
}

} // verus!
