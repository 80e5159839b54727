//! The board as text: eight lines of eight characters, the eighth rank
//! first and the a-file on the left, a dot for an empty square.
use vstd::prelude::*;
use crate::bitboard::{PieceType, Side};
use crate::chessboard::{generate_mailbox, piece_at, ChessBoard};

verus! {

/// The glyph of what stands on a square.
pub open spec fn unicode_symbol(entry: Option<(Side, PieceType)>) -> char {
    match entry {
        None => '.',
        Some(p) => match p.0 {
            Side::White => match p.1 {
                PieceType::King => '\u{265A}',
                PieceType::Queen => '\u{265B}',
                PieceType::Knight => '\u{265E}',
                PieceType::Bishop => '\u{265D}',
                PieceType::Rook => '\u{265C}',
                PieceType::Pawn => '\u{265F}',
            },
            Side::Black => match p.1 {
                PieceType::King => '\u{2654}',
                PieceType::Queen => '\u{2655}',
                PieceType::Knight => '\u{2658}',
                PieceType::Bishop => '\u{2657}',
                PieceType::Rook => '\u{2656}',
                PieceType::Pawn => '\u{2659}',
            },
        },
    }
}

/// The letter of what stands on a square: upper case for White, lower case
/// for Black.
pub open spec fn ascii_symbol(entry: Option<(Side, PieceType)>) -> char {
    match entry {
        None => '.',
        Some(p) => match p.0 {
            Side::White => match p.1 {
                PieceType::King => 'K',
                PieceType::Queen => 'Q',
                PieceType::Knight => 'N',
                PieceType::Bishop => 'B',
                PieceType::Rook => 'R',
                PieceType::Pawn => 'P',
            },
            Side::Black => match p.1 {
                PieceType::King => 'k',
                PieceType::Queen => 'q',
                PieceType::Knight => 'n',
                PieceType::Bishop => 'b',
                PieceType::Rook => 'r',
                PieceType::Pawn => 'p',
            },
        },
    }
}

/// The glyph or the letter of what stands on a square.
pub open spec fn symbol(entry: Option<(Side, PieceType)>, unicode: bool) -> char {
    if unicode {
        unicode_symbol(entry)
    } else {
        ascii_symbol(entry)
    }
}

/// The text of a square map: character `k` of the 72 is a line feed at
/// the end of each line, and else the symbol of the square it stands for.
pub open spec fn grid(mailbox: Seq<Option<(Side, PieceType)>>, unicode: bool) -> Seq<char> {
    Seq::new(
        72,
        |k: int|
            if k % 9 == 8 {
                '\n'
            } else {
                symbol(mailbox[63 - (8 * (k / 9) + k % 9)], unicode)
            },
    )
}

/// The glyph or the letter of what stands on a square.
pub fn symbol_of(entry: Option<(Side, PieceType)>, unicode: bool) -> (c: char)
    ensures
        c == symbol(entry, unicode),
{
    match entry {
        None => '.',
        Some(p) => if unicode {
            match p.0 {
                Side::White => match p.1 {
                    PieceType::King => '\u{265A}',
                    PieceType::Queen => '\u{265B}',
                    PieceType::Knight => '\u{265E}',
                    PieceType::Bishop => '\u{265D}',
                    PieceType::Rook => '\u{265C}',
                    PieceType::Pawn => '\u{265F}',
                },
                Side::Black => match p.1 {
                    PieceType::King => '\u{2654}',
                    PieceType::Queen => '\u{2655}',
                    PieceType::Knight => '\u{2658}',
                    PieceType::Bishop => '\u{2657}',
                    PieceType::Rook => '\u{2656}',
                    PieceType::Pawn => '\u{2659}',
                },
            }
        } else {
            match p.0 {
                Side::White => match p.1 {
                    PieceType::King => 'K',
                    PieceType::Queen => 'Q',
                    PieceType::Knight => 'N',
                    PieceType::Bishop => 'B',
                    PieceType::Rook => 'R',
                    PieceType::Pawn => 'P',
                },
                Side::Black => match p.1 {
                    PieceType::King => 'k',
                    PieceType::Queen => 'q',
                    PieceType::Knight => 'n',
                    PieceType::Bishop => 'b',
                    PieceType::Rook => 'r',
                    PieceType::Pawn => 'p',
                },
            }
        },
    }
}

/// The text of a square map, in glyphs or in letters.
pub fn print_grid(mailbox: &[Option<(Side, PieceType)>; 64], unicode: bool) -> (r: String)
    ensures
        r@ == grid(mailbox@, unicode),
{
    let mut s = String::new();
    let mut row: usize = 0;
    while row < 8
        invariant
            row <= 8,
            s@.len() == 9 * row,
            forall|k: int| 0 <= k < 9 * row ==> s@[k] == grid(mailbox@, unicode)[k],
        decreases 8 - row,
    {
        let mut col: usize = 0;
        while col < 8
            invariant
                row < 8,
                col <= 8,
                s@.len() == 9 * row + col,
                forall|k: int| 0 <= k < 9 * row + col ==> s@[k] == grid(mailbox@, unicode)[k],
            decreases 8 - col,
        {
            let square: usize = 63 - (8 * row + col);
            s.push(symbol_of(mailbox[square], unicode));
            col += 1;
        }
        s.push('\n');
        row += 1;
    }
    assert(s@ =~= grid(mailbox@, unicode));
    s
}

/// The text of a square map, in chess glyphs.
pub fn print_mailbox(mailbox: [Option<(Side, PieceType)>; 64]) -> (r: String)
    ensures
        r@ == grid(mailbox@, true),
{
    print_grid(&mailbox, true)
}

impl ChessBoard {
    /// The text of the position, in chess glyphs, read off the piece sets.
    pub fn render(&self) -> (r: String)
        ensures
            r@ == grid(Seq::new(64, |s: int| piece_at(self.piece_bbs@, s, 12)), true),
    {
        let mailbox = generate_mailbox(self.piece_bbs);
        assert(mailbox@ =~= Seq::new(64, |s: int| piece_at(self.piece_bbs@, s, 12)));
        print_grid(&mailbox, true)
    }
}

} // verus!
