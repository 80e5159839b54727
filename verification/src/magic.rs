//! Magic multipliers: a perfect hash from the occupancy of a slider's mask
//! to a dense table of attack sets.
//!
//! For a square with a mask of `n` bits, a multiplier is magic when the top
//! `n` bits of `occupancy * multiplier` never send two occupancies with
//! different attack sets to the same table slot.
use vstd::prelude::*;
use vstd::arithmetic::power2::pow2;
use rand::Rng;
use crate::bits::{lemma_subset, subset};
use crate::bitboard::{popcount, BitBoard, PieceType};
use crate::occupancy::{
    compute_occ_bb, deposit, extract, lemma_deposit_extract, lemma_deposit_subset, lemma_shl_pow2,
    magic_index, magic_index_spec,
};
use crate::sliders::{
    bishop_attack_spec, bishop_mask_spec, init_bishop_mbb_mask, init_rook_mbb_mask,
    naive_bishop_attack, naive_rook_attack, rook_attack_spec, rook_mask_spec,
};

verus! {

/// Number of mask bits of a bishop on each square.
pub const BISHOP_OCC_BITCOUNT: [usize; 64] = [
    6, 5, 5, 5, 5, 5, 5, 6,
    5, 5, 5, 5, 5, 5, 5, 5,
    5, 5, 7, 7, 7, 7, 5, 5,
    5, 5, 7, 9, 9, 7, 5, 5,
    5, 5, 7, 9, 9, 7, 5, 5,
    5, 5, 7, 7, 7, 7, 5, 5,
    5, 5, 5, 5, 5, 5, 5, 5,
    6, 5, 5, 5, 5, 5, 5, 6,
];

/// Number of mask bits of a rook on each square.
pub const ROOK_OCC_BITCOUNT: [usize; 64] = [
    12, 11, 11, 11, 11, 11, 11, 12,
    11, 10, 10, 10, 10, 10, 10, 11,
    11, 10, 10, 10, 10, 10, 10, 11,
    11, 10, 10, 10, 10, 10, 10, 11,
    11, 10, 10, 10, 10, 10, 10, 11,
    11, 10, 10, 10, 10, 10, 10, 11,
    11, 10, 10, 10, 10, 10, 10, 11,
    12, 11, 11, 11, 11, 11, 11, 12,
];

/// The multiplier of a bishop on each square.
pub const BISHOP_MAGICS: [u64; 64] = [
    0x140c80810488022, 0x20021c01142000, 0x308c2080200102, 0x4040880000a09,
    0x824042080000001, 0xc1010840807080, 0x810c010403200000, 0x49ce404044202081,
    0x4405048410020200, 0x42104440080, 0x801c12112008003, 0x100080a43014001,
    0x20210010000, 0x110020110080990, 0x800004804042000, 0x1000002434020800,
    0xc108e014890204, 0x4040210440100, 0x4808001000801012, 0x8004620801080,
    0x481000290400a01, 0x1000180a00921, 0x1204010900a80492, 0xa88400024041c00,
    0x1002100088501014, 0x5045040818008c, 0x2080081004408, 0x208280005820002,
    0x509010040104008, 0x8010004000241000, 0x8908108440540400, 0x142060800404240,
    0x231101010402410, 0x2011140241020, 0x100a002a00101180, 0x2001010800110041,
    0x8118022401224100, 0x4420092a40020800, 0x22d000c880031400, 0x102108002a420,
    0x4008044404102020, 0x8000842402002000, 0x200242400080e, 0x30004202208802,
    0x11214000601, 0x10c0008099011081, 0x10080104608a0c00, 0x2285d00202700,
    0x9a182414050000, 0x20100a210223022, 0x2c02080102, 0x20884010,
    0x280029002022040, 0x8250102490342010, 0x40020464048080, 0x4120040102042200,
    0x280a010401018800, 0x8010008084104200, 0x9009002484501a, 0x1a08830080420208,
    0x2000064022604100, 0x12400420044101, 0x40042818810c00, 0x1024211464008200,
];

/// The multiplier of a rook on each square.
pub const ROOK_MAGICS: [u64; 64] = [
    0x818001C000802018, 0xA240100020004000, 0x100081041002000, 0x1080048010000800,
    0x8600020020040810, 0x580018002004400, 0x1080020000800100, 0x20000204A088401,
    0x4000800080204000, 0x40804000200080, 0x801000200080, 0x222000C10204200,
    0x42000600081020, 0xA2001004080200, 0x1000800100800200, 0x82000092010044,
    0x800848000400420, 0x30044040002001, 0x8000110041002004, 0x4200200A0010,
    0x810808004000800, 0xC028808002000400, 0x280040090080201, 0x804020000508104,
    0x80400480088024, 0x400200440100241, 0x401001100200040, 0x100080800800,
    0x8010100041008, 0x8000020080800400, 0x1000012400024830, 0x4008200210054,
    0x8084A0082002100, 0x4080201000404000, 0xC000102001004100, 0x4082101001002,
    0x9820800800400, 0x900C800400800200, 0x9040080204008150, 0x80B0140446000493,
    0x6040244000828000, 0x210002000504000, 0x15002002110040, 0x41001000210008,
    0x1004800050010, 0x2000804010100, 0x5008081002040081, 0x220040A1020004,
    0x101400120800180, 0x2040002000C08180, 0x1120001000480040, 0x18001020400A0200,
    0x4050010080100, 0x1023020080040080, 0x1080102100400, 0x1000282004300,
    0x190401100800021, 0x805854001021021, 0x600010400C200101, 0x10210009100005,
    0x1001001002080005, 0x9801000C00080A29, 0x2006080A45029014, 0x8804581022C02,
];

/// The attack set of a rook (`rook`) or a bishop on `s`.
pub open spec fn slider_attack_spec(rook: bool, s: int, occ: u64) -> u64 {
    if rook {
        rook_attack_spec(s, occ)
    } else {
        bishop_attack_spec(s, occ)
    }
}

/// The mask of a rook (`rook`) or a bishop on `s`.
pub open spec fn slider_mask_spec(rook: bool, s: int) -> u64 {
    if rook {
        rook_mask_spec(s)
    } else {
        bishop_mask_spec(s)
    }
}

/// Among the listed occupancies, no two with different attack sets share a
/// table index under `magic`.
pub open spec fn magic_separates(
    magic: u64,
    blockers: Seq<BitBoard>,
    attacks: Seq<BitBoard>,
    bits: int,
) -> bool {
    forall|i: int, j: int|
        0 <= i < blockers.len() && 0 <= j < blockers.len() && magic_index_spec(
            magic,
            (#[trigger] blockers[i]).data,
            bits,
        ) == magic_index_spec(magic, (#[trigger] blockers[j]).data, bits) ==> attacks[i]
            == attacks[j]
}

/// `magic` is a magic multiplier for the slider on `square`: over all
/// subsets of the mask, the index decides the attack set.
pub open spec fn is_magic(magic: u64, rook: bool, square: int, bits: int) -> bool {
    forall|b1: u64, b2: u64|
        subset(b1, slider_mask_spec(rook, square)) && subset(b2, slider_mask_spec(rook, square))
            && #[trigger] magic_index_spec(magic, b1, bits) == #[trigger] magic_index_spec(
            magic,
            b2,
            bits,
        ) ==> slider_attack_spec(rook, square, b1) == slider_attack_spec(rook, square, b2)
}

/// The table answers every occupancy of the mask: the slot that `magic`
/// sends a subset of the mask to holds the attack set for that subset.
pub open spec fn table_serves(
    table: Seq<BitBoard>,
    rook: bool,
    square: int,
    bits: int,
    magic: u64,
) -> bool {
    &&& table.len() == pow2(bits as nat)
    &&& forall|b: u64|
        subset(b, slider_mask_spec(rook, square)) ==> {
            let m = #[trigger] magic_index_spec(magic, b, bits);
            0 <= m < table.len() && table[m].data == slider_attack_spec(rook, square, b)
        }
}

/// The lists enumerate the subsets of the mask of the slider on `square`,
/// each with its attack set.
pub open spec fn lists_enumerate(
    blockers: Seq<BitBoard>,
    attacks: Seq<BitBoard>,
    rook: bool,
    square: int,
    bits: int,
) -> bool {
    &&& blockers.len() == pow2(bits as nat)
    &&& attacks.len() == blockers.len()
    &&& forall|j: int|
        0 <= j < blockers.len() ==> (#[trigger] blockers[j]).data == deposit(
            j as u64,
            bits as nat,
            slider_mask_spec(rook, square),
        )
    &&& forall|j: int|
        0 <= j < blockers.len() ==> (#[trigger] attacks[j]).data == slider_attack_spec(
            rook,
            square,
            blockers[j].data,
        )
}

/// Over lists that enumerate the mask, separating the list is being magic.
pub proof fn lemma_separates_is_magic(
    magic: u64,
    blockers: Seq<BitBoard>,
    attacks: Seq<BitBoard>,
    rook: bool,
    square: int,
    bits: int,
)
    requires
        lists_enumerate(blockers, attacks, rook, square, bits),
        0 < bits < 32,
        popcount(slider_mask_spec(rook, square)) <= bits,
    ensures
        magic_separates(magic, blockers, attacks, bits) <==> is_magic(magic, rook, square, bits),
{
    let mask = slider_mask_spec(rook, square);
    lemma_shl_pow2(bits as nat);
    if magic_separates(magic, blockers, attacks, bits) {
        assert forall|b1: u64, b2: u64|
            subset(b1, mask) && subset(b2, mask) && #[trigger] magic_index_spec(magic, b1, bits)
                == #[trigger] magic_index_spec(magic, b2, bits) implies slider_attack_spec(
            rook,
            square,
            b1,
        ) == slider_attack_spec(rook, square, b2) by {
            lemma_subset(b1, mask);
            lemma_subset(b2, mask);
            lemma_deposit_extract(b1, bits as nat, mask);
            lemma_deposit_extract(b2, bits as nat, mask);
            let j1 = extract(b1, bits as nat, mask) as int;
            let j2 = extract(b2, bits as nat, mask) as int;
            assert(blockers[j1].data == b1);
            assert(blockers[j2].data == b2);
            assert(attacks[j1] == attacks[j2]);
        }
    }
    if is_magic(magic, rook, square, bits) {
        assert forall|i: int, j: int|
            0 <= i < blockers.len() && 0 <= j < blockers.len() && magic_index_spec(
                magic,
                (#[trigger] blockers[i]).data,
                bits,
            ) == magic_index_spec(magic, (#[trigger] blockers[j]).data, bits) implies attacks[i]
            == attacks[j] by {
            lemma_deposit_subset(i as u64, bits as nat, mask);
            lemma_deposit_subset(j as u64, bits as nat, mask);
            lemma_subset(blockers[i].data, mask);
            lemma_subset(blockers[j].data, mask);
            assert(attacks[i].data == attacks[j].data);
        }
    }
}

/// Fills the table of one square: slot `magic_index(blockers[i])` takes
/// `attacks[i]`. `None` when two entries with different attack sets meet
/// in one slot.
pub fn fill_magic_table(
    magic: u64,
    blockers: &Vec<BitBoard>,
    attacks: &Vec<BitBoard>,
    bitcount: usize,
) -> (r: Option<Vec<BitBoard>>)
    requires
        blockers.len() == attacks.len(),
        0 < bitcount < 32,
    ensures
        r is Some <==> magic_separates(magic, blockers@, attacks@, bitcount as int),
        r matches Some(t) ==> {
            &&& t@.len() == pow2(bitcount as nat)
            &&& forall|i: int|
                0 <= i < blockers.len() ==> {
                    let m = magic_index_spec(magic, (#[trigger] blockers@[i]).data, bitcount as int);
                    0 <= m < t@.len() && t@[m] == attacks@[i]
                }
        },
{
    proof {
        lemma_shl_pow2(bitcount as nat);
        assert(0 < bitcount < 32 ==> (1u64 << (bitcount as u64)) <= 0x8000_0000u64) by (bit_vector);
    }
    let size: usize = (1u64 << bitcount) as usize;
    let mut table: Vec<BitBoard> = Vec::new();
    let mut used: Vec<bool> = Vec::new();
    while table.len() < size
        invariant
            table.len() == used.len(),
            table.len() <= size,
            forall|m: int| 0 <= m < used.len() ==> !used@[m],
        decreases size - table.len(),
    {
        table.push(BitBoard { data: 0 });
        used.push(false);
    }
    let ghost mut owner: Seq<int> = Seq::new(size as nat, |m: int| 0int);
    let mut i: usize = 0;
    while i < blockers.len()
        invariant
            0 < bitcount < 32,
            blockers.len() == attacks.len(),
            i <= blockers.len(),
            size == pow2(bitcount as nat),
            table.len() == size,
            used.len() == size,
            owner.len() == size,
            forall|k: int|
                0 <= k < i ==> {
                    let m = magic_index_spec(magic, (#[trigger] blockers@[k]).data, bitcount as int);
                    0 <= m < size && used@[m] && table@[m] == attacks@[k]
                },
            forall|m: int|
                0 <= m < size && #[trigger] used@[m] ==> {
                    &&& 0 <= owner[m] < i
                    &&& magic_index_spec(magic, blockers@[owner[m]].data, bitcount as int) == m
                    &&& table@[m] == attacks@[owner[m]]
                },
        decreases blockers.len() - i,
    {
        let m = magic_index(magic, blockers[i], bitcount);
        if !used[m] {
            used.set(m, true);
            table.set(m, attacks[i]);
            proof {
                owner = owner.update(m as int, i as int);
            }
        } else if table[m].data != attacks[i].data {
            proof {
                let k = owner[m as int];
                assert(magic_index_spec(magic, blockers@[k].data, bitcount as int)
                    == magic_index_spec(magic, blockers@[i as int].data, bitcount as int));
                assert(attacks@[k] != attacks@[i as int]);
            }
            return None;
        }
        i += 1;
    }
    Some(table)
}

/// Whether `candidate` separates the listed occupancies.
pub fn magic_fits(
    candidate: u64,
    blockers: &Vec<BitBoard>,
    attacks: &Vec<BitBoard>,
    bitcount: usize,
) -> (r: bool)
    requires
        blockers.len() == attacks.len(),
        0 < bitcount < 32,
    ensures
        r == magic_separates(candidate, blockers@, attacks@, bitcount as int),
{
    fill_magic_table(candidate, blockers, attacks, bitcount).is_some()
}

/// The subsets of the mask of the slider on `square`, in the order of
/// their indices, each with its attack set.
pub fn slider_lists(rook: bool, square: usize, mask: BitBoard, bitcount: usize) -> (r: (
    Vec<BitBoard>,
    Vec<BitBoard>,
))
    requires
        square < 64,
        mask.data == slider_mask_spec(rook, square as int),
        0 < bitcount < 32,
    ensures
        lists_enumerate(r.0@, r.1@, rook, square as int, bitcount as int),
{
    proof {
        lemma_shl_pow2(bitcount as nat);
        assert(0 < bitcount < 32 ==> (1u64 << (bitcount as u64)) <= 0x8000_0000u64) by (bit_vector);
    }
    let size: usize = (1u64 << bitcount) as usize;
    let mut blockers: Vec<BitBoard> = Vec::new();
    let mut attacks: Vec<BitBoard> = Vec::new();
    let mut j: usize = 0;
    while j < size
        invariant
            square < 64,
            j <= size,
            blockers.len() == j,
            attacks.len() == j,
            mask.data == slider_mask_spec(rook, square as int),
            forall|k: int|
                0 <= k < j ==> (#[trigger] blockers@[k]).data == deposit(
                    k as u64,
                    bitcount as nat,
                    slider_mask_spec(rook, square as int),
                ),
            forall|k: int|
                0 <= k < j ==> (#[trigger] attacks@[k]).data == slider_attack_spec(
                    rook,
                    square as int,
                    blockers@[k].data,
                ),
        decreases size - j,
    {
        let b = compute_occ_bb(j, bitcount, mask);
        let a = if rook {
            naive_rook_attack(square, b)
        } else {
            naive_bishop_attack(square, b)
        };
        blockers.push(b);
        attacks.push(a);
        j += 1;
    }
    (blockers, attacks)
}

/// The table of one square under the multiplier `magic`; `None` when the
/// multiplier is not magic for the square.
pub fn build_square_table(rook: bool, square: usize, mask: BitBoard, bitcount: usize, magic: u64) -> (r:
    Option<Vec<BitBoard>>)
    requires
        square < 64,
        mask.data == slider_mask_spec(rook, square as int),
        0 < bitcount < 32,
        popcount(mask.data) <= bitcount,
    ensures
        r is Some <==> is_magic(magic, rook, square as int, bitcount as int),
        r matches Some(t) ==> table_serves(t@, rook, square as int, bitcount as int, magic),
{
    let (blockers, attacks) = slider_lists(rook, square, mask, bitcount);
    let r = fill_magic_table(magic, &blockers, &attacks, bitcount);
    proof {
        lemma_separates_is_magic(
            magic,
            blockers@,
            attacks@,
            rook,
            square as int,
            bitcount as int,
        );
        if r is Some {
            let t = r->Some_0;
            let m = slider_mask_spec(rook, square as int);
            assert forall|b: u64| subset(b, m) implies ({
                let idx = #[trigger] magic_index_spec(magic, b, bitcount as int);
                0 <= idx < t@.len() && t@[idx].data == slider_attack_spec(rook, square as int, b)
            }) by {
                lemma_subset(b, m);
                lemma_deposit_extract(b, bitcount as nat, m);
                lemma_shl_pow2(bitcount as nat);
                let j = extract(b, bitcount as nat, m) as int;
                assert(blockers@[j].data == b);
                assert(attacks@[j].data == slider_attack_spec(rook, square as int, b));
            }
        }
    }
    r
}

/// A 64-bit word from `rand`'s thread-local generator (`rand::thread_rng`
/// and `Rng::gen`). Nothing is claimed of the word.
#[verifier::external_body]
fn random_u64() -> u64 {
    rand::thread_rng().gen::<u64>()
}

/// Searches a magic multiplier for the slider of kind `piece_type` on
/// `square` by trial: each candidate is the bitwise AND of three random
/// words, and the first that separates all occupancies of the mask is
/// returned. `None` after `usize::MAX` candidates without success.
pub fn find_magic_number(square: usize, mask_bitcount: usize, piece_type: PieceType) -> (r: Option<
    u64,
>)
    requires
        square < 64,
        0 < mask_bitcount < 32,
        piece_type == PieceType::Bishop || piece_type == PieceType::Rook,
    ensures
        r matches Some(magic) ==> popcount(
            slider_mask_spec(piece_type == PieceType::Rook, square as int),
        ) <= mask_bitcount ==> is_magic(
            magic,
            piece_type == PieceType::Rook,
            square as int,
            mask_bitcount as int,
        ),
{
    let rook = match piece_type {
        PieceType::Rook => true,
        _ => false,
    };
    let mask = if rook {
        init_rook_mbb_mask()[square]
    } else {
        init_bishop_mbb_mask()[square]
    };
    let (blockers, attacks) = slider_lists(rook, square, mask, mask_bitcount);
    let mut attempts: usize = 0;
    while attempts < usize::MAX
        invariant
            square < 64,
            0 < mask_bitcount < 32,
            rook == (piece_type == PieceType::Rook),
            lists_enumerate(blockers@, attacks@, rook, square as int, mask_bitcount as int),
        decreases usize::MAX - attempts,
    {
        let magic_num: u64 = random_u64() & random_u64() & random_u64();
        let top = BitBoard { data: mask.data.wrapping_mul(magic_num) & 0xFF00_0000_0000_0000u64 };
        if top.count() >= 6 && magic_fits(magic_num, &blockers, &attacks, mask_bitcount) {
            proof {
                if popcount(slider_mask_spec(rook, square as int)) <= mask_bitcount {
                    lemma_separates_is_magic(
                        magic_num,
                        blockers@,
                        attacks@,
                        rook,
                        square as int,
                        mask_bitcount as int,
                    );
                }
            }
            return Some(magic_num);
        }
        attempts += 1;
    }
    None
}

/// Whether `magic` already stands in the first `n` entries.
fn seen_before(magics: &[u64; 64], n: usize, magic: u64) -> (r: bool)
    requires
        n <= 64,
    ensures
        r == exists|k: int| 0 <= k < n && magics[k] == magic,
{
    let mut k: usize = 0;
    while k < n
        invariant
            k <= n <= 64,
            forall|q: int| 0 <= q < k ==> magics[q] != magic,
        decreases n - k,
    {
        if magics[k] == magic {
            return true;
        }
        k += 1;
    }
    false
}

/// A multiplier for the slider of kind `piece_type` on `square` that is
/// not among the first `n` of `magics`: [`find_magic_number`] is asked
/// until it gives one that is new. `None` when a search gives up.
pub fn find_fresh_magic(magics: &[u64; 64], n: usize, square: usize, piece_type: PieceType) -> (r:
    Option<u64>)
    requires
        n <= 64,
        square < 64,
        piece_type == PieceType::Bishop || piece_type == PieceType::Rook,
    ensures
        r matches Some(magic) ==> {
            &&& popcount(slider_mask_spec(piece_type == PieceType::Rook, square as int))
                <= occ_bitcount(piece_type == PieceType::Rook, square as int) ==> is_magic(
                magic,
                piece_type == PieceType::Rook,
                square as int,
                occ_bitcount(piece_type == PieceType::Rook, square as int),
            )
            &&& forall|k: int| 0 <= k < n ==> magics[k] != magic
        },
{
    let bitcount = match piece_type {
        PieceType::Rook => ROOK_OCC_BITCOUNT[square],
        _ => BISHOP_OCC_BITCOUNT[square],
    };
    proof {
        lemma_bitcounts(square as int);
    }
    let mut tries: usize = 0;
    while tries < usize::MAX
        invariant
            n <= 64,
            square < 64,
            0 < bitcount < 32,
            bitcount == occ_bitcount(piece_type == PieceType::Rook, square as int),
            piece_type == PieceType::Bishop || piece_type == PieceType::Rook,
        decreases usize::MAX - tries,
    {
        match find_magic_number(square, bitcount, piece_type) {
            Some(magic) => {
                if !seen_before(magics, n, magic) {
                    return Some(magic);
                }
            },
            None => {
                return None;
            },
        }
        tries += 1;
    }
    None
}

/// One multiplier per square for the sliders of kind `piece_type`, found
/// by [`find_magic_number`], no two of them equal. `None` when a search
/// gives up.
pub fn init_magics(piece_type: PieceType) -> (r: Option<[u64; 64]>)
    requires
        piece_type == PieceType::Bishop || piece_type == PieceType::Rook,
    ensures
        r matches Some(magics) ==> {
            &&& forall|s: int|
                0 <= s < 64 && popcount(slider_mask_spec(piece_type == PieceType::Rook, s))
                    <= occ_bitcount(piece_type == PieceType::Rook, s) ==> is_magic(
                    #[trigger] magics[s],
                    piece_type == PieceType::Rook,
                    s,
                    occ_bitcount(piece_type == PieceType::Rook, s),
                )
            &&& forall|s: int, t: int| 0 <= s < t < 64 ==> magics[s] != magics[t]
        },
{
    let ghost rook = piece_type == PieceType::Rook;
    let mut magic_nums: [u64; 64] = [0u64;64];
    let mut i: usize = 0;
    while i < 64
        invariant
            i <= 64,
            rook == (piece_type == PieceType::Rook),
            piece_type == PieceType::Bishop || piece_type == PieceType::Rook,
            forall|s: int|
                0 <= s < i && popcount(slider_mask_spec(rook, s)) <= occ_bitcount(rook, s)
                    ==> is_magic(#[trigger] magic_nums[s], rook, s, occ_bitcount(rook, s)),
            forall|s: int, t: int| 0 <= s < t < i ==> magic_nums[s] != magic_nums[t],
        decreases 64 - i,
    {
        match find_fresh_magic(&magic_nums, i, i, piece_type) {
            Some(magic) => {
                magic_nums[i] = magic;
            },
            None => {
                return None;
            },
        }
        i += 1;
    }
    Some(magic_nums)
}

/// The shipped number of mask bits of the slider on `s`.
pub open spec fn occ_bitcount(rook: bool, s: int) -> int {
    if rook {
        ROOK_OCC_BITCOUNT[s] as int
    } else {
        BISHOP_OCC_BITCOUNT[s] as int
    }
}

/// The shipped multiplier of the slider on `s`.
pub open spec fn shipped_magic(rook: bool, s: int) -> u64 {
    if rook {
        ROOK_MAGICS[s]
    } else {
        BISHOP_MAGICS[s]
    }
}

/// Every shipped bit count lies between 5 and 12.
pub proof fn lemma_bitcounts(s: int)
    requires
        0 <= s < 64,
    ensures
        5 <= BISHOP_OCC_BITCOUNT[s] <= 9,
        10 <= ROOK_OCC_BITCOUNT[s] <= 12,
{
    assert(forall|k: int| 0 <= k < 64 ==> 5 <= #[trigger] BISHOP_OCC_BITCOUNT[k] <= 9);
    assert(forall|k: int| 0 <= k < 64 ==> 10 <= #[trigger] ROOK_OCC_BITCOUNT[k] <= 12);
}

/// The shipped constants fit the slider on `s`: the bit count is the size
/// of the mask, and the multiplier is magic.
pub open spec fn shipped_fits(rook: bool, s: int) -> bool {
    &&& popcount(slider_mask_spec(rook, s)) == occ_bitcount(rook, s)
    &&& is_magic(shipped_magic(rook, s), rook, s, occ_bitcount(rook, s))
}

/// The 64 tables of one kind of slider answer every query.
pub open spec fn tables_serve(tables: Seq<Vec<BitBoard>>, rook: bool) -> bool {
    &&& tables.len() == 64
    &&& forall|s: int|
        0 <= s < 64 ==> table_serves(
            (#[trigger] tables[s])@,
            rook,
            s,
            occ_bitcount(rook, s),
            shipped_magic(rook, s),
        )
}

/// The attack tables of one kind of slider, from the shipped multipliers.
/// `None` when a shipped constant does not fit its square.
pub fn init_slider_attack_mbb(rook: bool) -> (r: Option<Vec<Vec<BitBoard>>>)
    ensures
        r is Some <==> forall|s: int| 0 <= s < 64 ==> shipped_fits(rook, s),
        r matches Some(t) ==> tables_serve(t@, rook),
{
    let masks = if rook {
        init_rook_mbb_mask()
    } else {
        init_bishop_mbb_mask()
    };
    let mut attacks: Vec<Vec<BitBoard>> = Vec::new();
    let mut i: usize = 0;
    while i < 64
        invariant
            i <= 64,
            attacks.len() == i,
            forall|s: int| 0 <= s < 64 ==> (#[trigger] masks[s]).data == slider_mask_spec(rook, s),
            forall|s: int| 0 <= s < i ==> shipped_fits(rook, s),
            forall|s: int|
                0 <= s < i ==> table_serves(
                    (#[trigger] attacks@[s])@,
                    rook,
                    s,
                    occ_bitcount(rook, s),
                    shipped_magic(rook, s),
                ),
        decreases 64 - i,
    {
        let mask = masks[i];
        let bitcount = if rook {
            ROOK_OCC_BITCOUNT[i]
        } else {
            BISHOP_OCC_BITCOUNT[i]
        };
        let magic = if rook {
            ROOK_MAGICS[i]
        } else {
            BISHOP_MAGICS[i]
        };
        proof {
            lemma_bitcounts(i as int);
        }
        if mask.count() as usize != bitcount {
            assert(!shipped_fits(rook, i as int));
            return None;
        }
        match build_square_table(rook, i, mask, bitcount, magic) {
            Some(t) => {
                attacks.push(t);
            },
            None => {
                assert(!shipped_fits(rook, i as int));
                return None;
            },
        }
        i += 1;
    }
    Some(attacks)
}

/// The bishop attack tables: see [`init_slider_attack_mbb`].
pub fn init_bishop_attack_mbb() -> (r: Option<Vec<Vec<BitBoard>>>)
    ensures
        r is Some <==> forall|s: int| 0 <= s < 64 ==> shipped_fits(false, s),
        r matches Some(t) ==> tables_serve(t@, false),
{
    init_slider_attack_mbb(false)
}

/// The rook attack tables: see [`init_slider_attack_mbb`].
pub fn init_rook_attack_mbb() -> (r: Option<Vec<Vec<BitBoard>>>)
    ensures
        r is Some <==> forall|s: int| 0 <= s < 64 ==> shipped_fits(true, s),
        r matches Some(t) ==> tables_serve(t@, true),
{
    init_slider_attack_mbb(true)
}

} // verus!
