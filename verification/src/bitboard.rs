//! A set of squares packed into one 64-bit word, and the two small
//! enumerations every other module speaks of.
//!
//! Square 0 is h1. Within a rank the index grows from the h-file to the
//! a-file, and each rank adds eight: bit 7 is a1, bit 8 is h2, bit 63 is a8.
use vstd::prelude::*;
use crate::bits::{bit, has_bit, lemma_lsb, lemma_ops_all, lemma_single_all, lsb, without_bit};

verus! {

/// A set of squares: bit `i` of `data` is set when square `i` is in the set.
#[derive(Debug, Copy, Clone, PartialEq, Eq, Structural)]
pub struct BitBoard {
    /// The 64 bits, bit 0 for h1 up to bit 63 for a8.
    pub data: u64,
}

/// Rank of a square, counted from 0 (White's back rank).
pub open spec fn rank_of(square: int) -> int {
    square / 8
}

/// File of a square, counted from 0 (the h-file) to 7 (the a-file).
pub open spec fn file_of(square: int) -> int {
    square % 8
}

/// Whether the pair names a square of the board.
pub open spec fn on_board(rank: int, file: int) -> bool {
    0 <= rank < 8 && 0 <= file < 8
}

/// The square with the given rank and file.
pub open spec fn square_at(rank: int, file: int) -> int {
    8 * rank + file
}

/// Number of set bits of a word.
pub open spec fn popcount(x: u64) -> nat
    decreases x,
{
    if x == 0 {
        0
    } else {
        proof {
            lemma_lsb(x);
        }
        1 + popcount(without_bit(x, lsb(x)))
    }
}

impl BitBoard {
    /// Square `i` belongs to the set.
    pub open spec fn contains(self, i: int) -> bool {
        has_bit(self.data, i)
    }

    /// The empty set.
    pub fn zero() -> (r: BitBoard)
        ensures
            r.data == 0,
    {
        BitBoard { data: 0 }
    }

    /// The set of all 64 squares.
    pub fn ones() -> (r: BitBoard)
        ensures
            r.data == u64::MAX,
    {
        BitBoard { data: u64::MAX }
    }

    /// The set that holds square `n` alone.
    pub fn nth(n: usize) -> (r: BitBoard)
        requires
            n < 64,
        ensures
            r.data == bit(n as int),
            r.data != 0,
            forall|j: int| has_bit(r.data, j) <==> j == n,
    {
        proof {
            lemma_single_all(0, n as int);
            crate::bits::lemma_has_bit_basics(n as int, n as int);
        }
        BitBoard { data: 1u64 << n }
    }

    /// The lowest square of the set, or `None` for the empty set.
    pub fn lsb_index(&self) -> (r: Option<usize>)
        ensures
            self.data == 0 <==> r.is_none(),
            r matches Some(i) ==> {
                &&& i < 64
                &&& i == lsb(self.data)
                &&& has_bit(self.data, i as int)
                &&& forall|j: int| 0 <= j < i ==> !has_bit(self.data, j)
            },
    {
        if self.data == 0u64 {
            None
        } else {
            proof {
                lemma_lsb(self.data);
            }
            Some(self.data.trailing_zeros() as usize)
        }
    }

    /// Adds square `i` to the set.
    pub fn set_bit(&mut self, i: usize)
        requires
            i < 64,
        ensures
            final(self).data == old(self).data | bit(i as int),
            forall|j: int| has_bit(final(self).data, j) <==> has_bit(old(self).data, j) || j == i,
    {
        proof {
            lemma_single_all(self.data, i as int);
        }
        self.data = self.data | 1u64 << i;
    }

    /// The set reduced to square `i`: empty when `i` is not in it.
    pub fn get_bit(&self, i: usize) -> (r: BitBoard)
        requires
            i < 64,
        ensures
            r.data == self.data & bit(i as int),
            r.data != 0 <==> has_bit(self.data, i as int),
            forall|j: int| has_bit(r.data, j) <==> has_bit(self.data, j) && j == i,
    {
        proof {
            lemma_single_all(self.data, i as int);
            lemma_ops_all(self.data, bit(i as int));
        }
        BitBoard { data: self.data & (1u64 << i) }
    }

    /// Whether square `i` is in the set.
    pub fn test_bit(&self, i: usize) -> (r: bool)
        requires
            i < 64,
        ensures
            r == has_bit(self.data, i as int),
    {
        self.data & (1u64 << i) != 0
    }

    /// The set without square `i`.
    pub fn pop_bit(&self, i: usize) -> (r: BitBoard)
        requires
            i < 64,
        ensures
            r.data == without_bit(self.data, i as int),
            forall|j: int| has_bit(r.data, j) <==> has_bit(self.data, j) && j != i,
            has_bit(self.data, i as int) ==> r.data < self.data,
    {
        proof {
            lemma_single_all(self.data, i as int);
            let x = self.data;
            let b = i as u64;
            assert(b < 64 && (x & (1u64 << b)) != 0 ==> (x & !(1u64 << b)) < x) by (bit_vector);
        }
        BitBoard { data: self.data & !(1u64 << i) }
    }

    /// Union of two sets.
    pub fn union(&self, rhs: BitBoard) -> (r: BitBoard)
        ensures
            r.data == self.data | rhs.data,
            forall|j: int| has_bit(r.data, j) <==> has_bit(self.data, j) || has_bit(rhs.data, j),
    {
        proof {
            lemma_ops_all(self.data, rhs.data);
        }
        BitBoard { data: self.data | rhs.data }
    }

    /// Intersection of two sets.
    pub fn intersection(&self, rhs: BitBoard) -> (r: BitBoard)
        ensures
            r.data == self.data & rhs.data,
            forall|j: int| has_bit(r.data, j) <==> has_bit(self.data, j) && has_bit(rhs.data, j),
    {
        proof {
            lemma_ops_all(self.data, rhs.data);
        }
        BitBoard { data: self.data & rhs.data }
    }

    /// The squares that are in exactly one of the two sets.
    pub fn symmetric_difference(&self, rhs: BitBoard) -> (r: BitBoard)
        ensures
            r.data == self.data ^ rhs.data,
            forall|j: int| has_bit(r.data, j) <==> (has_bit(self.data, j) != has_bit(rhs.data, j)),
    {
        proof {
            lemma_ops_all(self.data, rhs.data);
        }
        BitBoard { data: self.data ^ rhs.data }
    }

    /// The squares of the board that are not in the set.
    pub fn complement(&self) -> (r: BitBoard)
        ensures
            r.data == !self.data,
            forall|j: int| 0 <= j < 64 ==> (has_bit(r.data, j) <==> !has_bit(self.data, j)),
    {
        proof {
            lemma_ops_all(self.data, 0);
        }
        BitBoard { data: !self.data }
    }

    /// Number of squares in the set.
    pub fn count(&self) -> (r: u32)
        ensures
            r == popcount(self.data),
            r <= 64,
    {
        let mut rest: u64 = self.data;
        let mut n: u32 = 0;
        let ghost mut low: int = 0;
        while rest != 0
            invariant
                n + popcount(rest) == popcount(self.data),
                0 <= low <= 64,
                n <= low,
                forall|j: int| 0 <= j < low ==> !has_bit(rest, j),
            decreases rest,
        {
            proof {
                lemma_lsb(rest);
                lemma_single_all(rest, lsb(rest));
                low = lsb(rest) + 1;
            }
            let i: u32 = rest.trailing_zeros();
            rest = rest & !(1u64 << i);
            n = n + 1;
        }
        n
    }

    /// Eight lines of eight binary digits, the a8 corner first.
    pub open spec fn render_spec(self) -> Seq<char> {
        Seq::new(
            72,
            |k: int|
                if k % 9 == 8 {
                    '\n'
                } else if has_bit(self.data, 63 - (8 * (k / 9) + k % 9)) {
                    '1'
                } else {
                    '0'
                },
        )
    }

    /// The text form of the set: see [`Self::render_spec`].
    pub fn render(&self) -> (r: String)
        ensures
            r@ == self.render_spec(),
    {
        let mut s = String::new();
        let mut row: usize = 0;
        while row < 8
            invariant
                row <= 8,
                s@.len() == 9 * row,
                forall|k: int| 0 <= k < 9 * row ==> s@[k] == self.render_spec()[k],
            decreases 8 - row,
        {
            let mut col: usize = 0;
            while col < 8
                invariant
                    row < 8,
                    col <= 8,
                    s@.len() == 9 * row + col,
                    forall|k: int| 0 <= k < 9 * row + col ==> s@[k] == self.render_spec()[k],
                decreases 8 - col,
            {
                let square: usize = 63 - (8 * row + col);
                let c = if self.test_bit(square) {
                    '1'
                } else {
                    '0'
                };
                s.push(c);
                col += 1;
            }
            s.push('\n');
            row += 1;
        }
        assert(s@ =~= self.render_spec());
        s
    }
}

/// `String::push` of the standard library: the string afterwards is the
/// string before with the character `c` at its end.
pub assume_specification[ String::push ](s: &mut String, c: char)
    ensures
        final(s)@ == old(s)@.push(c),
;

/// The kind of a piece.
#[derive(Debug, Copy, Clone, PartialEq, Eq, Structural)]
pub enum PieceType {
    Pawn,
    Knight,
    Bishop,
    Rook,
    Queen,
    King,
}

impl PieceType {
    /// The lower-case letter that names the kind in move text.
    pub fn to_char(&self) -> (c: char)
        ensures
            c == self.letter(),
    {
        match self {
            PieceType::Pawn => 'p',
            PieceType::Knight => 'n',
            PieceType::Bishop => 'b',
            PieceType::Rook => 'r',
            PieceType::Queen => 'q',
            PieceType::King => 'k',
        }
    }

    /// The lower-case letter that names the kind in move text.
    pub open spec fn letter(self) -> char {
        match self {
            PieceType::Pawn => 'p',
            PieceType::Knight => 'n',
            PieceType::Bishop => 'b',
            PieceType::Rook => 'r',
            PieceType::Queen => 'q',
            PieceType::King => 'k',
        }
    }
}

/// One of the two sides.
#[derive(Debug, Copy, Clone, PartialEq, Eq, Structural)]
pub enum Side {
    White,
    Black,
}

impl Side {
    /// The other side.
    pub open spec fn flip(self) -> Side {
        match self {
            Side::White => Side::Black,
            Side::Black => Side::White,
        }
    }

    /// The side that moves after this one.
    pub fn update(&self) -> (r: Side)
        ensures
            r == self.flip(),
            r != *self,
            r.flip() == *self,
    {
        match self {
            Side::White => Side::Black,
            Side::Black => Side::White,
        }
    }
}

} // verus!
