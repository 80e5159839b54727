//! Bit-level facts about 64-bit words, stated over [`has_bit`].
//!
//! Everything else in the crate reasons about a word as a set of the
//! indices `0..64`; the lemmas here are the only place where the solver is
//! asked to look inside a word.
use vstd::prelude::*;
use vstd::std_specs::bits::u64_trailing_zeros;
use vstd::std_specs::bits::axiom_u64_trailing_zeros;

verus! {

/// Bit `i` of `x` is set. False for every `i` outside `0..64`.
pub open spec fn has_bit(x: u64, i: int) -> bool {
    0 <= i < 64 && (x & (1u64 << (i as u64))) != 0
}

/// The word whose only set bit is bit `i`.
pub open spec fn bit(i: int) -> u64 {
    1u64 << (i as u64)
}

/// Index of the lowest set bit of `x`, or 64 when `x` is zero.
pub open spec fn lsb(x: u64) -> int {
    u64_trailing_zeros(x) as int
}

/// `x` with bit `i` cleared.
pub open spec fn without_bit(x: u64, i: int) -> u64 {
    x & !(1u64 << (i as u64))
}

/// `a` is a subset of `b`.
pub open spec fn subset(a: u64, b: u64) -> bool {
    a & !b == 0
}

/// The bits of a single-bit word, of zero and of the full word.
pub proof fn lemma_has_bit_basics(i: int, j: int)
    requires
        0 <= i < 64,
    ensures
        has_bit(bit(i), j) <==> i == j,
        bit(i) != 0,
        !has_bit(0, j),
        0 <= j < 64 ==> has_bit(u64::MAX, j),
{
    let a = i as u64;
    if 0 <= j < 64 {
        let b = j as u64;
        assert(a < 64 && b < 64 ==> (((1u64 << a) & (1u64 << b)) != 0 <==> a == b) && (0u64 & (1u64
            << b)) == 0 && (0xffff_ffff_ffff_ffffu64 & (1u64 << b)) != 0) by (bit_vector);
    }
    assert(a < 64 ==> (1u64 << a) != 0) by (bit_vector);
}

/// The pointwise meaning of `|`, `&`, `^` and `!` at one index.
pub proof fn lemma_has_bit_ops(x: u64, y: u64, j: int)
    ensures
        has_bit(x | y, j) <==> has_bit(x, j) || has_bit(y, j),
        has_bit(x & y, j) <==> has_bit(x, j) && has_bit(y, j),
        has_bit(x ^ y, j) <==> (has_bit(x, j) != has_bit(y, j)),
        0 <= j < 64 ==> (has_bit(!x, j) <==> !has_bit(x, j)),
        has_bit(x, j) ==> x != 0,
{
    if 0 <= j < 64 {
        let b = j as u64;
        assert(b < 64 ==> ({
            let m = 1u64 << b;
            &&& (((x | y) & m) != 0 <==> (x & m) != 0 || (y & m) != 0)
            &&& (((x & y) & m) != 0 <==> (x & m) != 0 && (y & m) != 0)
            &&& (((x ^ y) & m) != 0 <==> (((x & m) != 0) != ((y & m) != 0)))
            &&& (((!x) & m) != 0 <==> (x & m) == 0)
            &&& ((x & m) != 0 ==> x != 0)
        })) by (bit_vector);
    }
}

/// The pointwise meaning of `|`, `&`, `^` and `!`, for every index at once.
pub proof fn lemma_ops_all(x: u64, y: u64)
    ensures
        forall|j: int| #[trigger] has_bit(x | y, j) <==> has_bit(x, j) || has_bit(y, j),
        forall|j: int| #[trigger] has_bit(x & y, j) <==> has_bit(x, j) && has_bit(y, j),
        forall|j: int| #[trigger] has_bit(x ^ y, j) <==> (has_bit(x, j) != has_bit(y, j)),
        forall|j: int| 0 <= j < 64 ==> (#[trigger] has_bit(!x, j) <==> !has_bit(x, j)),
{
    assert forall|j: int|
        (#[trigger] has_bit(x | y, j) <==> has_bit(x, j) || has_bit(y, j)) by {
        lemma_has_bit_ops(x, y, j);
    }
    assert forall|j: int|
        (#[trigger] has_bit(x & y, j) <==> has_bit(x, j) && has_bit(y, j)) by {
        lemma_has_bit_ops(x, y, j);
    }
    assert forall|j: int|
        (#[trigger] has_bit(x ^ y, j) <==> (has_bit(x, j) != has_bit(y, j))) by {
        lemma_has_bit_ops(x, y, j);
    }
    assert forall|j: int| 0 <= j < 64 implies (#[trigger] has_bit(!x, j) <==> !has_bit(x, j)) by {
        lemma_has_bit_ops(x, y, j);
    }
}

/// Setting and clearing one bit, for every index at once.
pub proof fn lemma_single_all(x: u64, i: int)
    requires
        0 <= i < 64,
    ensures
        forall|j: int| #[trigger] has_bit(bit(i), j) <==> i == j,
        forall|j: int| #[trigger] has_bit(x | bit(i), j) <==> has_bit(x, j) || i == j,
        forall|j: int| #[trigger] has_bit(without_bit(x, i), j) <==> has_bit(x, j) && i != j,
        forall|j: int| !#[trigger] has_bit(0, j),
{
    assert forall|j: int| (#[trigger] has_bit(bit(i), j) <==> i == j) by {
        lemma_has_bit_basics(i, j);
    }
    assert forall|j: int| (#[trigger] has_bit(x | bit(i), j) <==> has_bit(x, j) || i == j) by {
        lemma_has_bit_basics(i, j);
        lemma_has_bit_ops(x, bit(i), j);
    }
    assert forall|j: int|
        (#[trigger] has_bit(without_bit(x, i), j) <==> has_bit(x, j) && i != j) by {
        lemma_has_bit_basics(i, j);
        lemma_has_bit_ops(x, !bit(i), j);
        lemma_has_bit_ops(bit(i), 0, j);
    }
    assert forall|j: int| !#[trigger] has_bit(0, j) by {
        lemma_has_bit_basics(i, j);
    }
}

/// A non-zero word has a lowest set bit, and nothing is set below it.
pub proof fn lemma_lsb(x: u64)
    requires
        x != 0,
    ensures
        0 <= lsb(x) < 64,
        has_bit(x, lsb(x)),
        forall|j: int| 0 <= j < lsb(x) ==> !has_bit(x, j),
        without_bit(x, lsb(x)) < x,
{
    axiom_u64_trailing_zeros(x);
    let t = u64_trailing_zeros(x) as u64;
    assert(t < 64 && (x >> t) & 1u64 == 1u64 ==> (x & (1u64 << t)) != 0 && (x & !(1u64 << t)) < x)
        by (bit_vector);
    assert forall|j: int| 0 <= j < lsb(x) implies !has_bit(x, j) by {
        let b = j as u64;
        assert((x >> b) & 1u64 == 0u64);
        assert(b < 64 && (x >> b) & 1u64 == 0u64 ==> (x & (1u64 << b)) == 0) by (bit_vector);
    }
}

/// Two words with the same bits are the same word.
pub proof fn lemma_ext(x: u64, y: u64)
    requires
        forall|j: int| 0 <= j < 64 ==> has_bit(x, j) == has_bit(y, j),
    ensures
        x == y,
{
    if x != y {
        let z = x ^ y;
        assert(x != y ==> (x ^ y) != 0) by (bit_vector);
        lemma_lsb(z);
        lemma_has_bit_ops(x, y, lsb(z));
    }
}

/// A word is zero exactly when no bit of it is set.
pub proof fn lemma_zero_iff(x: u64)
    ensures
        x == 0 <==> forall|j: int| 0 <= j < 64 ==> !has_bit(x, j),
{
    if x != 0 {
        lemma_lsb(x);
    } else {
        lemma_single_all(0, 0);
    }
}

/// `subset` read bit by bit.
pub proof fn lemma_subset(a: u64, b: u64)
    ensures
        subset(a, b) <==> forall|j: int| has_bit(a, j) ==> has_bit(b, j),
{
    lemma_ops_all(a, !b);
    lemma_ops_all(b, 0);
    lemma_zero_iff(a & !b);
    if subset(a, b) {
        assert forall|j: int| has_bit(a, j) implies has_bit(b, j) by {
            if !has_bit(b, j) {
                assert(has_bit(!b, j));
                assert(has_bit(a & !b, j));
            }
        }
    }
    if forall|j: int| has_bit(a, j) ==> has_bit(b, j) {
        assert forall|j: int| 0 <= j < 64 implies !has_bit(a & !b, j) by {
            if has_bit(a & !b, j) {
                assert(has_bit(a, j));
                assert(has_bit(!b, j));
            }
        }
    }
}

/// The word whose set bits are the indices from `from` up to 63 that satisfy `p`.
pub open spec fn mask_from(p: spec_fn(int) -> bool, from: int) -> u64
    decreases 64 - from,
{
    if from < 0 || from >= 64 {
        0
    } else {
        (if p(from) {
            bit(from)
        } else {
            0
        }) | mask_from(p, from + 1)
    }
}

/// The word whose set bits are the indices `0..64` that satisfy `p`.
pub open spec fn mask_of(p: spec_fn(int) -> bool) -> u64 {
    mask_from(p, 0)
}

/// Bit `j` of `mask_from(p, from)` is set exactly when `j` is an index from
/// `from` on that satisfies `p`.
pub proof fn lemma_mask_from(p: spec_fn(int) -> bool, from: int)
    requires
        0 <= from <= 64,
    ensures
        forall|j: int| #[trigger] has_bit(mask_from(p, from), j) <==> from <= j < 64 && p(j),
    decreases 64 - from,
{
    if from >= 64 {
        lemma_single_all(0, 0);
    } else {
        lemma_mask_from(p, from + 1);
        let head: u64 = if p(from) {
            bit(from)
        } else {
            0
        };
        lemma_ops_all(head, mask_from(p, from + 1));
        lemma_single_all(0, from);
    }
}

/// Bit `j` of `mask_of(p)` is set exactly when `j` is an index that satisfies `p`.
pub proof fn lemma_mask_of(p: spec_fn(int) -> bool)
    ensures
        forall|j: int| #[trigger] has_bit(mask_of(p), j) <==> 0 <= j < 64 && p(j),
{
    lemma_mask_from(p, 0);
}


} // verus!
