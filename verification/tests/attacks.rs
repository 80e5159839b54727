use chess_core::bitboard::{BitBoard, PieceType, Side};
use chess_core::leapers::{init_king_attack, init_knight_attack, init_pawn_attack};
use chess_core::magic::{
    build_square_table, fill_magic_table, find_fresh_magic, find_magic_number,
    init_bishop_attack_mbb, init_magics, init_rook_attack_mbb, init_slider_attack_mbb, magic_fits,
    slider_lists, BISHOP_MAGICS, BISHOP_OCC_BITCOUNT, ROOK_MAGICS, ROOK_OCC_BITCOUNT,
};
use chess_core::occupancy::{compute_occ_bb, magic_index, pdep_occ_bb};
use chess_core::sliders::{
    init_bishop_mbb_mask, init_rook_mbb_mask, naive_bishop_attack, naive_rook_attack, walk_ray,
};
use chess_core::tables::{
    anti_diag_of, col_of, compute_ray_between, diag_of, get_bishop_attack, get_queen_attack,
    get_rook_attack, init_omni_attack, row_of, AttackTables,
};

#[test]
fn test_naive_bishop_attack() {
    let i: usize = 27;
    let blocker_data: u64 = 0b0000000000000001000000000001000000000000000000000010000000000000;
    let answer = BitBoard {
        data: 0b0000000000000001000000100001010000000000000101000010001000000001,
    };
    assert_eq!(answer, naive_bishop_attack(i, BitBoard { data: blocker_data }));
}

#[test]
fn test_naive_rook_attack() {
    let i: usize = 27;
    let blocker_data: u64 = 0b0000000000001000000000000000000001000001000010000000000000000000;
    let answer = BitBoard {
        data: 0b0000000000001000000010000000100001110111000010000000000000000000,
    };
    assert_eq!(answer, naive_rook_attack(i, BitBoard { data: blocker_data }));
}

#[test]
fn test_compute_occ_bb_bishop() {
    let masks = init_bishop_mbb_mask();
    for i in 0..64usize {
        let bitcount = BISHOP_OCC_BITCOUNT[i];
        let mut j = 0;
        while j < 1usize << bitcount {
            let x = pdep_occ_bb(j, masks[i]);
            let y = compute_occ_bb(j, bitcount, masks[i]);
            assert_eq!(x, y);
            j += 1
        }
    }
}

#[test]
fn test_compute_occ_bb_rook() {
    let masks = init_rook_mbb_mask();
    for i in [0usize, 7, 27, 36, 56, 63] {
        let bitcount = ROOK_OCC_BITCOUNT[i];
        let mut j = 0;
        while j < 1usize << bitcount {
            let x = pdep_occ_bb(j, masks[i]);
            let y = compute_occ_bb(j, bitcount, masks[i]);
            assert_eq!(x, y);
            j += 1
        }
    }
}

#[test]
fn bit_deposit_scatters_low_bits() {
    assert_eq!(pdep_occ_bb(0b1011, BitBoard { data: 0xf0f0 }).data, 0xb0);
    assert_eq!(compute_occ_bb(0b1011, 8, BitBoard { data: 0xf0f0 }).data, 0xb0);
    // only the low `mask_bitcount` bits of the index count
    assert_eq!(compute_occ_bb(0b1011, 2, BitBoard { data: 0xf0f0 }).data, 0x30);
    assert_eq!(compute_occ_bb(0b1011, 0, BitBoard { data: 0xf0f0 }).data, 0);
    assert_eq!(pdep_occ_bb(5, BitBoard { data: 0x8080876080800 }).data, 0x2000800);
    assert_eq!(pdep_occ_bb(usize::MAX, BitBoard { data: 0x8080876080800 }).data, 0x8080876080800);
    assert_eq!(pdep_occ_bb(7, BitBoard { data: 0 }).data, 0);
    assert_eq!(pdep_occ_bb(0x1234, BitBoard { data: u64::MAX }).data, 0x1234);
    assert_eq!(compute_occ_bb(0x1234, 64, BitBoard { data: u64::MAX }).data, 0x1234);
}

#[test]
fn knight_table() {
    let t = init_knight_attack();
    assert_eq!(t[6].data, 0xa01000); // b1: a3, c3, d2
    assert_eq!(t[27].data, 0x142200221400); // e4
    assert_eq!(t[0].data, (1 << 10) | (1 << 17)); // h1: f2, g3
}

#[test]
fn king_table_has_no_wraparound() {
    let t = init_king_attack();
    assert_eq!(t[7].data, 0xc040); // a1: b1, a2, b2
    assert_eq!(t[3].data, 0x1c14); // e1
    assert_eq!(t[56].data, 0x203000000000000); // h8
    for s in 0..64usize {
        let n = t[s].count();
        let edge_r = s / 8 == 0 || s / 8 == 7;
        let edge_f = s % 8 == 0 || s % 8 == 7;
        let expected = if edge_r && edge_f { 3 } else if edge_r || edge_f { 5 } else { 8 };
        assert_eq!(n, expected);
    }
}

#[test]
fn pawn_tables_hold_the_two_diagonal_captures() {
    let w = init_pawn_attack(Side::White);
    let b = init_pawn_attack(Side::Black);
    assert_eq!(w[11].data, 0x140000); // e2: d3, f3
    assert_eq!(w[15].data, 0x400000); // a2: b3 only
    assert_eq!(b[48].data, 0x20000000000); // h7: g6 only
    // nothing ahead of the last rank
    assert_eq!(w[60].data, 0);
    assert_eq!(b[3].data, 0);
}

#[test]
fn slider_masks_leave_out_the_edges() {
    let r = init_rook_mbb_mask();
    let b = init_bishop_mbb_mask();
    assert_eq!(r[7].data, 0x8080808080807e);
    assert_eq!(r[27].data, 0x8080876080800);
    assert_eq!(b[27].data, 0x40221400142200);
    for s in 0..64usize {
        assert_eq!(r[s].count() as usize, ROOK_OCC_BITCOUNT[s]);
        assert_eq!(b[s].count() as usize, BISHOP_OCC_BITCOUNT[s]);
    }
}

#[test]
fn a_ray_ends_with_the_first_blocker() {
    // from e4 upwards with a piece on e6
    let up = walk_ray(27, 1, 0, BitBoard { data: 1 << 43 });
    assert_eq!(up.data, (1 << 35) | (1 << 43));
    // from e4 upwards on an empty board
    let free = walk_ray(27, 1, 0, BitBoard { data: 0 });
    assert_eq!(free.data, (1 << 35) | (1 << 43) | (1 << 51) | (1 << 59));
    // from a corner outwards: nothing
    assert_eq!(walk_ray(0, -1, -1, BitBoard { data: 0 }).data, 0);
}

#[test]
fn magic_index_is_the_top_bits_of_the_product() {
    assert_eq!(magic_index(1, BitBoard { data: 0x8000_0000_0000_0000 }, 1), 1);
    assert_eq!(magic_index(3, BitBoard { data: 0x4000_0000_0000_0000 }, 2), 3);
    assert_eq!(magic_index(2, BitBoard { data: 0x8000_0000_0000_0001 }, 4), 0);
    assert_eq!(magic_index(0x1234, BitBoard { data: 0 }, 12), 0);
}

#[test]
fn table_lookups_agree_with_ray_walks() {
    let tables = AttackTables::new().unwrap();
    let occs: [u64; 6] = [
        0,
        u64::MAX,
        0xffff00000000ffff,
        0x0000_1008_0420_0000,
        0x8142_2418_1824_4281,
        0x00ff_0000_0081_ff00,
    ];
    for s in 0..64usize {
        for occ in occs {
            let b = BitBoard { data: occ };
            assert_eq!(get_rook_attack(&tables, s, b), naive_rook_attack(s, b));
            assert_eq!(get_bishop_attack(&tables, s, b), naive_bishop_attack(s, b));
            assert_eq!(
                get_queen_attack(&tables, s, b).data,
                naive_rook_attack(s, b).data | naive_bishop_attack(s, b).data
            );
        }
    }
    let occ = BitBoard { data: (1 << 43) | (1 << 30) };
    assert_eq!(get_rook_attack(&tables, 27, occ).data, 0x80877080808);
    assert_eq!(get_queen_attack(&tables, 4, BitBoard { data: 0xffff00000000ffff }).data, 0x3828);
}

#[test]
fn tables_serve_the_leapers() {
    let tables = AttackTables::new().unwrap();
    assert_eq!(tables.knight_attacks(6).data, 0xa01000);
    assert_eq!(tables.king_attacks(7).data, 0xc040);
    assert_eq!(tables.pawn_attacks(Side::White, 11).data, 0x140000);
    assert_eq!(tables.pawn_attacks(Side::Black, 48).data, 0x20000000000);
    let omni = init_omni_attack(&tables);
    assert_eq!(
        omni[27].data,
        naive_rook_attack(27, BitBoard { data: 0 }).data
            | naive_bishop_attack(27, BitBoard { data: 0 }).data
            | 0x142200221400
    );
}

#[test]
fn squares_between() {
    let tables = AttackTables::new().unwrap();
    assert_eq!(tables.ray_between(7, 56).data, 0x2040810204000); // a1 .. h8
    assert_eq!(tables.ray_between(56, 7).data, 0x2040810204000);
    assert_eq!(tables.ray_between(3, 59).data, 0x8080808080800); // e1 .. e8
    assert_eq!(tables.ray_between(7, 22).data, 0); // a1, b3: no line
    assert_eq!(tables.ray_between(3, 4).data, 0); // neighbours
    assert_eq!(tables.ray_between(3, 3).data, 0);
    assert_eq!(compute_ray_between(0, 7).data, 0x7e);
}

#[test]
fn rows_columns_and_diagonals() {
    assert_eq!(row_of(27), 3);
    assert_eq!(col_of(27), 3);
    assert_eq!(diag_of(27), 7);
    assert_eq!(anti_diag_of(27), 6);
    assert_eq!(diag_of(7), 0);
    assert_eq!(diag_of(56), 14);
    assert_eq!(anti_diag_of(0), 0);
    assert_eq!(anti_diag_of(63), 14);
}

#[test]
fn shipped_magics_build_every_table() {
    let b = init_bishop_attack_mbb().unwrap();
    let r = init_rook_attack_mbb().unwrap();
    assert_eq!(b.len(), 64);
    assert_eq!(r.len(), 64);
    for s in 0..64usize {
        assert_eq!(b[s].len(), 1 << BISHOP_OCC_BITCOUNT[s]);
        assert_eq!(r[s].len(), 1 << ROOK_OCC_BITCOUNT[s]);
    }
}

#[test]
fn a_wrong_multiplier_is_refused() {
    let masks = init_rook_mbb_mask();
    let (blockers, attacks) = slider_lists(true, 27, masks[27], ROOK_OCC_BITCOUNT[27]);
    assert_eq!(blockers.len(), 1 << ROOK_OCC_BITCOUNT[27]);
    assert!(magic_fits(ROOK_MAGICS[27], &blockers, &attacks, ROOK_OCC_BITCOUNT[27]));
    // multiplying by zero sends every occupancy to slot 0
    assert!(!magic_fits(0, &blockers, &attacks, ROOK_OCC_BITCOUNT[27]));
    assert!(fill_magic_table(0, &blockers, &attacks, ROOK_OCC_BITCOUNT[27]).is_none());
    let table = fill_magic_table(ROOK_MAGICS[27], &blockers, &attacks, ROOK_OCC_BITCOUNT[27]).unwrap();
    for j in 0..blockers.len() {
        assert_eq!(table[magic_index(ROOK_MAGICS[27], blockers[j], ROOK_OCC_BITCOUNT[27])], attacks[j]);
    }
    let bmasks = init_bishop_mbb_mask();
    let (bb, ba) = slider_lists(false, 27, bmasks[27], BISHOP_OCC_BITCOUNT[27]);
    assert!(magic_fits(BISHOP_MAGICS[27], &bb, &ba, BISHOP_OCC_BITCOUNT[27]));
}

#[test]
fn discovery_finds_a_multiplier_that_fits() {
    for square in [0usize, 27, 63] {
        let bits = BISHOP_OCC_BITCOUNT[square];
        let magic = find_magic_number(square, bits, PieceType::Bishop).unwrap();
        let masks = init_bishop_mbb_mask();
        let (blockers, attacks) = slider_lists(false, square, masks[square], bits);
        assert!(magic_fits(magic, &blockers, &attacks, bits));
    }
    let bits = ROOK_OCC_BITCOUNT[9];
    let magic = find_magic_number(9, bits, PieceType::Rook).unwrap();
    let masks = init_rook_mbb_mask();
    let (blockers, attacks) = slider_lists(true, 9, masks[9], bits);
    assert!(magic_fits(magic, &blockers, &attacks, bits));
}

#[test]
fn discovery_gives_each_square_a_multiplier_of_its_own() {
    let magics = init_magics(PieceType::Bishop).unwrap();
    let masks = init_bishop_mbb_mask();
    for s in 0..64usize {
        let (blockers, attacks) = slider_lists(false, s, masks[s], BISHOP_OCC_BITCOUNT[s]);
        assert!(magic_fits(magics[s], &blockers, &attacks, BISHOP_OCC_BITCOUNT[s]));
        assert!(build_square_table(false, s, masks[s], BISHOP_OCC_BITCOUNT[s], magics[s]).is_some());
        for t in 0..s {
            assert_ne!(magics[s], magics[t]);
        }
    }
    let mut taken = [0u64; 64];
    taken[0] = BISHOP_MAGICS[0];
    let fresh = find_fresh_magic(&taken, 1, 0, PieceType::Bishop).unwrap();
    assert_ne!(fresh, taken[0]);
    assert!(build_square_table(false, 0, masks[0], BISHOP_OCC_BITCOUNT[0], fresh).is_some());
    assert!(build_square_table(false, 0, masks[0], BISHOP_OCC_BITCOUNT[0], 1).is_none());
    assert_eq!(init_slider_attack_mbb(false), init_bishop_attack_mbb());
}
