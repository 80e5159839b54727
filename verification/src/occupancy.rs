//! Enumerating the subsets of a mask: the bits of an index are dealt out
//! to the set bits of the mask, lowest first.
use vstd::prelude::*;
use vstd::arithmetic::power2::{
    lemma2_to64_rest, lemma_pow2_strictly_increases, lemma_pow2_unfold, pow2,
};
use bitintr::Pdep;
use crate::bits::{
    bit, has_bit, lemma_ext, lemma_lsb, lemma_ops_all, lemma_single_all, lemma_zero_iff, lsb,
    without_bit,
};
use crate::bitboard::{popcount, BitBoard};

verus! {

/// The subset of `mask` chosen by the low `n` bits of `index`: bit `k` of
/// `index` decides whether the `k`-th lowest square of `mask` is taken.
pub open spec fn deposit(index: u64, n: nat, mask: u64) -> u64
    decreases n,
{
    if n == 0 || mask == 0 {
        0
    } else {
        (if index & 1 != 0 {
            bit(lsb(mask))
        } else {
            0
        }) | deposit(index >> 1, (n - 1) as nat, without_bit(mask, lsb(mask)))
    }
}

/// Parallel bit deposit: the low bits of `value` dealt out to the set bits
/// of `mask`, all other bits zero.
pub open spec fn pdep_spec(value: u64, mask: u64) -> u64 {
    deposit(value, 64, mask)
}

/// The index whose low `n` bits choose the subset `b` of `mask`.
pub open spec fn extract(b: u64, n: nat, mask: u64) -> nat
    decreases n,
{
    if n == 0 || mask == 0 {
        0
    } else {
        (if has_bit(b, lsb(mask)) {
            1nat
        } else {
            0nat
        }) + 2 * extract(b, (n - 1) as nat, without_bit(mask, lsb(mask)))
    }
}

/// What is dealt out lies inside the mask.
pub proof fn lemma_deposit_subset(index: u64, n: nat, mask: u64)
    ensures
        forall|j: int| has_bit(deposit(index, n, mask), j) ==> has_bit(mask, j),
    decreases n,
{
    if n == 0 || mask == 0 {
        lemma_single_all(0, 0);
    } else {
        lemma_lsb(mask);
        let l = lsb(mask);
        let rest = without_bit(mask, l);
        lemma_deposit_subset(index >> 1, (n - 1) as nat, rest);
        let head: u64 = if index & 1 != 0 {
            bit(l)
        } else {
            0
        };
        let tail = deposit(index >> 1, (n - 1) as nat, rest);
        assert(deposit(index, n, mask) == head | tail);
        lemma_ops_all(head, tail);
        lemma_single_all(mask, l);
        assert forall|j: int| has_bit(deposit(index, n, mask), j) implies has_bit(mask, j) by {
            if has_bit(tail, j) {
                assert(has_bit(rest, j));
            }
        }
    }
}

/// `1 << n` is the `n`-th power of two.
pub proof fn lemma_shl_pow2(n: nat)
    requires
        n < 64,
    ensures
        (1u64 << (n as u64)) == pow2(n),
        0 < pow2(n) <= 0x8000_0000_0000_0000,
{
    vstd::bits::lemma_u64_pow2_no_overflow(n);
    vstd::bits::lemma_u64_shl_is_mul(1, n as u64);
    lemma2_to64_rest();
    if n < 63 {
        lemma_pow2_strictly_increases(n, 63);
    }
}

/// Every subset of a mask of at most `n` squares is dealt out by an index
/// below `2^n`, namely by [`extract`].
pub proof fn lemma_deposit_extract(b: u64, n: nat, mask: u64)
    requires
        forall|j: int| has_bit(b, j) ==> has_bit(mask, j),
        popcount(mask) <= n,
        n <= 63,
    ensures
        extract(b, n, mask) < pow2(n),
        pow2(n) <= 0x8000_0000_0000_0000,
        deposit(extract(b, n, mask) as u64, n, mask) == b,
    decreases n,
{
    lemma2_to64_rest();
    if n < 63 {
        lemma_pow2_strictly_increases(n, 63);
    }
    if mask == 0 {
        lemma_zero_iff(mask);
        lemma_zero_iff(b);
        assert(pow2(n) > 0) by {
            vstd::arithmetic::power2::lemma_pow2_pos(n);
        }
    } else {
        lemma_lsb(mask);
        let l = lsb(mask);
        let rest = without_bit(mask, l);
        let b2 = without_bit(b, l);
        lemma_single_all(mask, l);
        lemma_single_all(b, l);
        assert(n > 0);
        let n1 = (n - 1) as nat;
        lemma_deposit_extract(b2, n1, rest);
        lemma_pow2_unfold(n);
        let e = extract(b2, n1, rest);
        // the index of `b` over `rest` is that of `b2`
        lemma_extract_agrees(b, b2, n1, rest);
        let c: nat = if has_bit(b, l) {
            1
        } else {
            0
        };
        let idx = (c + 2 * e) as u64;
        let e64 = e as u64;
        let c64 = c as u64;
        assert(e64 < 0x8000_0000_0000_0000 && c64 <= 1 ==> ((((c64 + 2 * e64) as u64) & 1 != 0)
            <==> c64 == 1) && ((c64 + 2 * e64) as u64) >> 1 == e64) by (bit_vector);
        let head: u64 = if idx & 1 != 0 {
            bit(l)
        } else {
            0
        };
        assert(deposit(idx, n, mask) == head | deposit(e64, n1, rest));
        lemma_ops_all(head, b2);
        lemma_ext(head | b2, b);
    }
}

/// [`extract`] reads only the bits of `b` that lie in the mask.
pub proof fn lemma_extract_agrees(b1: u64, b2: u64, n: nat, mask: u64)
    requires
        forall|j: int| has_bit(mask, j) ==> has_bit(b1, j) == has_bit(b2, j),
    ensures
        extract(b1, n, mask) == extract(b2, n, mask),
    decreases n,
{
    if n == 0 || mask == 0 {
    } else {
        lemma_lsb(mask);
        lemma_single_all(mask, lsb(mask));
        lemma_extract_agrees(b1, b2, (n - 1) as nat, without_bit(mask, lsb(mask)));
    }
}

/// `bitintr`'s `pdep` for `u64` (`Pdep::pdep`): the contiguous low bits of
/// `value` are scattered to the positions of the set bits of `mask`, lowest
/// first, and every other bit of the result is zero. A mask of all ones is
/// left out, since the crate's portable code doubles a counter once per set
/// bit.
#[verifier::external_body]
fn pdep_u64(value: u64, mask: u64) -> (r: u64)
    requires
        mask != u64::MAX,
    ensures
        r == pdep_spec(value, mask),
{
    value.pdep(mask)
}

/// Dealing the bits of a word out to the top `64 - k` bits puts the word
/// `k` places higher.
pub proof fn lemma_deposit_shifted(x: u64, k: int)
    requires
        0 <= k < 64,
    ensures
        deposit(x, (64 - k) as nat, u64::MAX << (k as u64)) == x << (k as u64),
    decreases 64 - k,
{
    let k64 = k as u64;
    let m = u64::MAX << k64;
    assert(k64 < 64 ==> (0xffff_ffff_ffff_ffffu64 << k64) != 0 && ((0xffff_ffff_ffff_ffffu64
        << k64) & (1u64 << k64)) != 0) by (bit_vector);
    lemma_lsb(m);
    let l = lsb(m);
    assert(l == k) by {
        assert forall|j: int| 0 <= j < k implies !has_bit(m, j) by {
            let j64 = j as u64;
            assert(j64 < k64 && k64 < 64 ==> ((0xffff_ffff_ffff_ffffu64 << k64) & (1u64 << j64))
                == 0) by (bit_vector);
        }
        assert(has_bit(m, k));
    }
    let rest = without_bit(m, l);
    let head: u64 = if x & 1 != 0 {
        bit(l)
    } else {
        0
    };
    if k == 63 {
        assert(k64 == 63 ==> ((0xffff_ffff_ffff_ffffu64 << k64) & !(1u64 << k64)) == 0 && (if x
            & 1 != 0 {
            1u64 << k64
        } else {
            0u64
        }) | 0 == x << k64) by (bit_vector);
        assert(deposit(x >> 1, 0, rest) == 0);
    } else {
        lemma_deposit_shifted(x >> 1, k + 1);
        let k1 = (k + 1) as u64;
        assert(k64 < 63 && k1 == k64 + 1 ==> ((0xffff_ffff_ffff_ffffu64 << k64) & !(1u64 << k64))
            == (0xffff_ffff_ffff_ffffu64 << k1) && (if x & 1 != 0 {
            1u64 << k64
        } else {
            0u64
        }) | ((x >> 1) << k1) == x << k64) by (bit_vector);
    }
}

/// The subset of `attack_mask` that `index` chooses, by the processor's
/// bit-deposit operation.
pub fn pdep_occ_bb(index: usize, attack_mask: BitBoard) -> (r: BitBoard)
    ensures
        r.data == pdep_spec(index as u64, attack_mask.data),
{
    if attack_mask.data == u64::MAX {
        proof {
            lemma_deposit_shifted(index as u64, 0);
            let x = index as u64;
            assert(0xffff_ffff_ffff_ffffu64 << 0u64 == 0xffff_ffff_ffff_ffffu64 && x << 0u64 == x)
                by (bit_vector);
        }
        BitBoard { data: index as u64 }
    } else {
        BitBoard { data: pdep_u64(index as u64, attack_mask.data) }
    }
}

/// The subset of `attack_mask` that the low `mask_bitcount` bits of `index`
/// choose.
pub fn compute_occ_bb(index: usize, mask_bitcount: usize, attack_mask: BitBoard) -> (r: BitBoard)
    ensures
        r.data == deposit(index as u64, mask_bitcount as nat, attack_mask.data),
        forall|j: int| r.contains(j) ==> attack_mask.contains(j),
{
    let mut rest: BitBoard = attack_mask;
    let mut occ: u64 = 0;
    let mut idx: u64 = index as u64;
    let mut i: usize = 0;
    let ghost total = deposit(index as u64, mask_bitcount as nat, attack_mask.data);
    proof {
        lemma_ops_all(0, total);
        lemma_single_all(0, 0);
        lemma_ext(0 | total, total);
    }
    while i < mask_bitcount && rest.data != 0
        invariant
            i <= mask_bitcount,
            total == occ | deposit(idx, (mask_bitcount - i) as nat, rest.data),
        decreases mask_bitcount - i,
    {
        let ghost before = deposit(idx, (mask_bitcount - i) as nat, rest.data);
        match rest.lsb_index() {
            Some(square_index) => {
                let ghost tail = deposit(
                    idx >> 1,
                    (mask_bitcount - i - 1) as nat,
                    without_bit(rest.data, square_index as int),
                );
                let ghost head: u64 = if idx & 1 != 0 {
                    bit(square_index as int)
                } else {
                    0
                };
                assert(before == head | tail);
                proof {
                    lemma_ops_all(occ, head);
                    lemma_ops_all(head, tail);
                    lemma_ops_all(occ, head | tail);
                    lemma_ops_all(occ | head, tail);
                    lemma_ext(occ | (head | tail), (occ | head) | tail);
                    lemma_single_all(0, 0);
                    lemma_ops_all(occ, 0);
                    lemma_ext(occ | 0, occ);
                }
                rest = rest.pop_bit(square_index);
                if idx & 1 != 0 {
                    let b: u64 = 1u64 << square_index;
                    assert(b == bit(square_index as int));
                    occ = occ | b;
                }
                idx = idx >> 1;
            },
            None => {},
        }
        i += 1;
    }
    proof {
        lemma_ops_all(occ, 0);
        lemma_single_all(0, 0);
        lemma_ext(occ | 0, occ);
        lemma_deposit_subset(index as u64, mask_bitcount as nat, attack_mask.data);
    }
    BitBoard { data: occ }
}

/// Where a multiplier sends an occupancy: the top `bits` bits of the
/// wrapping product.
pub open spec fn magic_index_spec(magic: u64, occ: u64, bits: int) -> int {
    (occ.wrapping_mul(magic) >> ((64 - bits) as u64)) as int
}

/// The table index of `blockers` under the multiplier `magic_num`, for a
/// table of `2^bitcount` entries.
pub fn magic_index(magic_num: u64, blockers: BitBoard, bitcount: usize) -> (r: usize)
    requires
        0 < bitcount <= 32,
    ensures
        r == magic_index_spec(magic_num, blockers.data, bitcount as int),
        r < pow2(bitcount as nat),
{
    let product: u64 = blockers.data.wrapping_mul(magic_num);
    let shift: u64 = (64 - bitcount) as u64;
    let r: u64 = product >> shift;
    proof {
        assert(32 <= shift < 64 ==> (product >> shift) <= 0xffff_ffff && (product >> shift) < (1u64
            << ((64 - shift) as u64))) by (bit_vector);
        lemma_shl_pow2(bitcount as nat);
    }
    r as usize
}

} // verus!
