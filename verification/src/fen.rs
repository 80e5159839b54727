//! Reading a position from Forsyth-Edwards notation.
//!
//! The text has six fields, separated by white space: piece placement from
//! the eighth rank down, side to move, castling rights, en-passant square,
//! half-move clock and move number.
use vstd::prelude::*;
use vstd::string::StringSliceAdditionalSpecFns;
use crate::bitboard::{PieceType, Side};
use crate::chessboard::{piece_index, ChessBoard};
use crate::chessmove::{square_name};
use crate::setup::{ep_set, position_fault, FenError};
use crate::tables::AttackTables;

verus! {

/// A byte that separates fields: space, tab, line feed, form feed or
/// carriage return.
pub open spec fn is_space(b: u8) -> bool {
    b == 32 || b == 9 || b == 10 || b == 12 || b == 13
}

/// The end of the run of bytes that are not white space and start at `i`.
pub open spec fn token_end(s: Seq<u8>, i: int) -> int
    decreases s.len() - i,
{
    if 0 <= i < s.len() && !is_space(s[i]) {
        token_end(s, i + 1)
    } else {
        i
    }
}

/// A run ends at or after its start, holds no white space, and is
/// followed by white space or by the end of the text.
pub proof fn lemma_token_end(s: Seq<u8>, i: int)
    requires
        0 <= i <= s.len(),
    ensures
        i <= token_end(s, i) <= s.len(),
        i < s.len() && !is_space(s[i]) ==> i < token_end(s, i),
        forall|j: int| i <= j < token_end(s, i) ==> !is_space(#[trigger] s[j]),
        token_end(s, i) < s.len() ==> is_space(s[token_end(s, i)]),
    decreases s.len() - i,
{
    if i < s.len() && !is_space(s[i]) {
        lemma_token_end(s, i + 1);
    }
}

/// The fields of the text from position `i` on: the maximal runs of bytes
/// that are not white space.
pub open spec fn tokens(s: Seq<u8>, i: int) -> Seq<Seq<u8>>
    decreases s.len() - i,
{
    if i < 0 || i >= s.len() {
        Seq::empty()
    } else if is_space(s[i]) {
        tokens(s, i + 1)
    } else {
        proof {
            lemma_token_end(s, i);
        }
        seq![s.subrange(i, token_end(s, i))] + tokens(s, token_end(s, i))
    }
}

/// The views of a vector of byte strings.
pub open spec fn views(v: Seq<Vec<u8>>) -> Seq<Seq<u8>> {
    Seq::new(v.len(), |k: int| v[k]@)
}

/// Splits the text into its fields.
pub fn split_fields(input: &[u8]) -> (r: Vec<Vec<u8>>)
    ensures
        views(r@) == tokens(input@, 0),
{
    let mut out: Vec<Vec<u8>> = Vec::new();
    let mut i: usize = 0;
    let n = input.len();
    assert(views(out@) + tokens(input@, 0) =~= tokens(input@, 0));
    while i < n
        invariant
            i <= n,
            n == input@.len(),
            views(out@) + tokens(input@, i as int) == tokens(input@, 0),
        decreases n - i,
    {
        if input[i] == 32 || input[i] == 9 || input[i] == 10 || input[i] == 12 || input[i] == 13 {
            i += 1;
        } else {
            let start = i;
            let mut field: Vec<u8> = Vec::new();
            proof {
                lemma_token_end(input@, start as int);
            }
            while i < n && !(input[i] == 32 || input[i] == 9 || input[i] == 10 || input[i] == 12
                || input[i] == 13)
                invariant
                    start <= i <= n,
                    n == input@.len(),
                    field@ == input@.subrange(start as int, i as int),
                    token_end(input@, i as int) == token_end(input@, start as int),
                decreases n - i,
            {
                field.push(input[i]);
                assert(field@ =~= input@.subrange(start as int, i + 1));
                i += 1;
            }
            let ghost before = views(out@);
            let ghost rest = tokens(input@, i as int);
            out.push(field);
            assert(tokens(input@, start as int) == seq![field@] + rest);
            assert(views(out@) =~= before.push(field@));
            assert(before.push(field@) + rest =~= before + (seq![field@] + rest));
        }
    }
    assert(views(out@) + Seq::<Seq<u8>>::empty() =~= views(out@));
    out
}

/// The piece that a letter names: upper case for White, lower case for Black.
pub open spec fn piece_of_letter(b: u8) -> Option<(Side, PieceType)> {
    if b == 75 {
        Some((Side::White, PieceType::King))
    } else if b == 81 {
        Some((Side::White, PieceType::Queen))
    } else if b == 78 {
        Some((Side::White, PieceType::Knight))
    } else if b == 66 {
        Some((Side::White, PieceType::Bishop))
    } else if b == 82 {
        Some((Side::White, PieceType::Rook))
    } else if b == 80 {
        Some((Side::White, PieceType::Pawn))
    } else if b == 107 {
        Some((Side::Black, PieceType::King))
    } else if b == 113 {
        Some((Side::Black, PieceType::Queen))
    } else if b == 110 {
        Some((Side::Black, PieceType::Knight))
    } else if b == 98 {
        Some((Side::Black, PieceType::Bishop))
    } else if b == 114 {
        Some((Side::Black, PieceType::Rook))
    } else if b == 112 {
        Some((Side::Black, PieceType::Pawn))
    } else {
        None
    }
}

/// The piece that a letter names.
pub fn letter_piece(b: u8) -> (r: Option<(Side, PieceType)>)
    ensures
        r == piece_of_letter(b),
{
    if b == 75 {
        Some((Side::White, PieceType::King))
    } else if b == 81 {
        Some((Side::White, PieceType::Queen))
    } else if b == 78 {
        Some((Side::White, PieceType::Knight))
    } else if b == 66 {
        Some((Side::White, PieceType::Bishop))
    } else if b == 82 {
        Some((Side::White, PieceType::Rook))
    } else if b == 80 {
        Some((Side::White, PieceType::Pawn))
    } else if b == 107 {
        Some((Side::Black, PieceType::King))
    } else if b == 113 {
        Some((Side::Black, PieceType::Queen))
    } else if b == 110 {
        Some((Side::Black, PieceType::Knight))
    } else if b == 98 {
        Some((Side::Black, PieceType::Bishop))
    } else if b == 114 {
        Some((Side::Black, PieceType::Rook))
    } else if b == 112 {
        Some((Side::Black, PieceType::Pawn))
    } else {
        None
    }
}

/// Number of the piece that the letter `c` names. The letters are
/// `KQNBRP` for White and `kqnbrp` for Black.
pub fn sym_index(c: char) -> (r: usize)
    requires
        c == 'K' || c == 'Q' || c == 'N' || c == 'B' || c == 'R' || c == 'P' || c == 'k' || c == 'q'
            || c == 'n' || c == 'b' || c == 'r' || c == 'p',
    ensures
        piece_of_letter(c as u8) matches Some(p) && r == piece_index(p),
{
    match c {
        'K' => 0,
        'Q' => 1,
        'N' => 2,
        'B' => 3,
        'R' => 4,
        'P' => 5,
        'k' => 6,
        'q' => 7,
        'n' => 8,
        'b' => 9,
        'r' => 10,
        _ => 11,
    }
}

/// The square map that the placement field stands for, read from byte `i`
/// on. The cursor `c` counts the squares filled so far, from a8 along each
/// rank and down the ranks, so that the next square is `63 - c`. A digit
/// leaves that many squares empty, a letter puts its piece, and a slash
/// stands exactly between two ranks.
pub open spec fn placement(
    field: Seq<u8>,
    i: int,
    c: int,
    mailbox: Seq<Option<(Side, PieceType)>>,
) -> Option<Seq<Option<(Side, PieceType)>>>
    decreases field.len() - i,
{
    if i < 0 || i >= field.len() {
        if c == 64 {
            Some(mailbox)
        } else {
            None
        }
    } else if c >= 64 || c < 0 {
        None
    } else if field[i] == 47 {
        if c % 8 == 0 && c > 0 && i > 0 && field[i - 1] != 47 {
            placement(field, i + 1, c, mailbox)
        } else {
            None
        }
    } else if c % 8 == 0 && c > 0 && !(i > 0 && field[i - 1] == 47) {
        None
    } else if 49 <= field[i] <= 56 {
        if c % 8 + (field[i] - 48) <= 8 {
            placement(field, i + 1, c + (field[i] - 48), mailbox)
        } else {
            None
        }
    } else if piece_of_letter(field[i]) is Some {
        placement(field, i + 1, c + 1, mailbox.update(63 - c, piece_of_letter(field[i])))
    } else {
        None
    }
}

/// The square map with no piece on it.
pub open spec fn empty_mailbox() -> Seq<Option<(Side, PieceType)>> {
    Seq::new(64, |s: int| None)
}

/// Reads the placement field.
pub fn parse_placement(field: &[u8]) -> (r: Option<[Option<(Side, PieceType)>; 64]>)
    ensures
        match r {
            Some(m) => placement(field@, 0, 0, empty_mailbox()) == Some(m@),
            None => placement(field@, 0, 0, empty_mailbox()) is None,
        },
{
    let mut mailbox: [Option<(Side, PieceType)>; 64] = [None;64];
    assert(mailbox@ =~= empty_mailbox());
    let mut c: usize = 0;
    let mut i: usize = 0;
    let n = field.len();
    while i < n
        invariant
            i <= n,
            n == field@.len(),
            c <= 64,
            placement(field@, i as int, c as int, mailbox@) == placement(
                field@,
                0,
                0,
                empty_mailbox(),
            ),
        decreases n - i,
    {
        let b = field[i];
        if c >= 64 {
            return None;
        }
        if b == 47 {
            if !(c % 8 == 0 && c > 0 && i > 0 && field[i - 1] != 47) {
                return None;
            }
        } else if c % 8 == 0 && c > 0 && !(i > 0 && field[i - 1] == 47) {
            return None;
        } else if 49 <= b && b <= 56 {
            let d: usize = (b - 48) as usize;
            if c % 8 + d > 8 {
                return None;
            }
            c = c + d;
        } else {
            match letter_piece(b) {
                Some(p) => {
                    mailbox[63 - c] = Some(p);
                    c = c + 1;
                },
                None => {
                    return None;
                },
            }
        }
        i += 1;
    }
    if c == 64 {
        Some(mailbox)
    } else {
        None
    }
}

/// The side that the side field names.
pub open spec fn side_of(field: Seq<u8>) -> Option<Side> {
    if field.len() == 1 && field[0] == 119 {
        Some(Side::White)
    } else if field.len() == 1 && field[0] == 98 {
        Some(Side::Black)
    } else {
        None
    }
}

/// A letter of the castling field: `K`, `Q`, `k` or `q`.
pub open spec fn is_castle_letter(b: u8) -> bool {
    b == 75 || b == 81 || b == 107 || b == 113
}

/// The castling field is `-` or a run of castling letters.
pub open spec fn castling_valid(field: Seq<u8>) -> bool {
    (field.len() == 1 && field[0] == 45) || (field.len() > 0 && forall|i: int|
        0 <= i < field.len() ==> is_castle_letter(#[trigger] field[i]))
}

/// The castling rights that the field claims: white short, white long,
/// black short, black long.
pub open spec fn castling_of(field: Seq<u8>) -> Seq<bool> {
    seq![field.contains(75), field.contains(81), field.contains(107), field.contains(113)]
}

/// Reads the castling field.
pub fn parse_castling(field: &[u8]) -> (r: Option<[bool; 4]>)
    ensures
        match r {
            Some(c) => castling_valid(field@) && c@ == castling_of(field@),
            None => !castling_valid(field@),
        },
{
    let n = field.len();
    let mut castle: [bool; 4] = [false;4];
    if n == 1 && field[0] == 45 {
        assert(castle@ =~= castling_of(field@)) by {
            assert forall|b: u8| field@.contains(b) implies b == 45 by {
                let k = choose|k: int| 0 <= k < field@.len() && field@[k] == b;
            }
        }
        return Some(castle);
    }
    if n == 0 {
        return None;
    }
    let mut i: usize = 0;
    while i < n
        invariant
            i <= n,
            n == field@.len(),
            n > 0,
            !(n == 1 && field@[0] == 45),
            forall|k: int| 0 <= k < i ==> is_castle_letter(#[trigger] field@[k]),
            castle[0] == field@.subrange(0, i as int).contains(75),
            castle[1] == field@.subrange(0, i as int).contains(81),
            castle[2] == field@.subrange(0, i as int).contains(107),
            castle[3] == field@.subrange(0, i as int).contains(113),
        decreases n - i,
    {
        let b = field[i];
        let ghost before = field@.subrange(0, i as int);
        let ghost after = field@.subrange(0, i + 1);
        proof {
            assert(after =~= before.push(b));
            assert forall|x: u8| after.contains(x) <==> before.contains(x) || x == b by {
                if before.contains(x) {
                    let k = choose|k: int| 0 <= k < before.len() && before[k] == x;
                    assert(after[k] == x);
                }
                if x == b {
                    assert(after[i as int] == x);
                }
                if after.contains(x) {
                    let k = choose|k: int| 0 <= k < after.len() && after[k] == x;
                    if k < i {
                        assert(before[k] == x);
                    }
                }
            }
        }
        if b == 75 {
            castle[0] = true;
        } else if b == 81 {
            castle[1] = true;
        } else if b == 107 {
            castle[2] = true;
        } else if b == 113 {
            castle[3] = true;
        } else {
            assert(!is_castle_letter(field@[i as int]));
            return None;
        }
        i += 1;
    }
    assert(field@.subrange(0, n as int) =~= field@);
    assert(castle@ =~= castling_of(field@));
    Some(castle)
}

/// The square that a file letter and a rank digit name.
pub open spec fn square_of_name(file: u8, rank: u8) -> int {
    8 * (rank - 49) + (104 - file)
}

/// What the en-passant field names: no square for `-`, else the square
/// whose name it is; `None` when it is neither.
pub open spec fn ep_of(field: Seq<u8>) -> Option<Option<usize>> {
    if field.len() == 1 && field[0] == 45 {
        Some(None)
    } else if field.len() == 2 && 97 <= field[0] <= 104 && 49 <= field[1] <= 56 {
        Some(Some(square_of_name(field[0], field[1]) as usize))
    } else {
        None
    }
}

/// Reads the en-passant field.
pub fn parse_ep(field: &[u8]) -> (r: Option<Option<usize>>)
    ensures
        r == ep_of(field@),
        r matches Some(Some(e)) ==> e < 64,
{
    if field.len() == 1 && field[0] == 45 {
        Some(None)
    } else if field.len() == 2 && 97 <= field[0] && field[0] <= 104 && 49 <= field[1] && field[1]
        <= 56 {
        let rank: usize = (field[1] - 49) as usize;
        let file: usize = (104 - field[0]) as usize;
        Some(Some(8 * rank + file))
    } else {
        None
    }
}

/// Number of the square with the given name, such as `e4`.
pub fn square_index(square_name: &str) -> (r: usize)
    requires
        square_name@.len() == 2,
        'a' <= square_name@[0] <= 'h',
        '1' <= square_name@[1] <= '8',
    ensures
        r < 64,
        r == square_of_name(square_name@[0] as u8, square_name@[1] as u8),
{
    let file = square_name.get_char(0) as u8;
    let rank = square_name.get_char(1) as u8;
    8 * ((rank - 49) as usize) + ((104 - file) as usize)
}

/// The number that the first `n` digits of the field write.
pub open spec fn digits_value(field: Seq<u8>, n: int) -> int
    decreases n,
{
    if n <= 0 {
        0
    } else {
        10 * digits_value(field, n - 1) + (field[n - 1] - 48)
    }
}

/// The field is a non-empty run of decimal digits.
pub open spec fn all_digits(field: Seq<u8>) -> bool {
    field.len() > 0 && forall|i: int| 0 <= i < field.len() ==> 48 <= #[trigger] field[i] <= 57
}

/// The counter that the field writes, if it is a decimal number that fits.
pub open spec fn counter_of(field: Seq<u8>) -> Option<usize> {
    if all_digits(field) && digits_value(field, field.len() as int) <= usize::MAX {
        Some(digits_value(field, field.len() as int) as usize)
    } else {
        None
    }
}

/// More digits do not write a smaller number.
pub proof fn lemma_digits_grow(field: Seq<u8>, k: int, n: int)
    requires
        0 <= k <= n <= field.len(),
        forall|i: int| 0 <= i < field.len() ==> 48 <= #[trigger] field[i] <= 57,
    ensures
        0 <= digits_value(field, k) <= digits_value(field, n),
    decreases n,
{
    if k < n {
        lemma_digits_grow(field, k, n - 1);
    } else if n > 0 {
        lemma_digits_grow(field, k - 1, n - 1);
    }
}

/// Reads a move counter.
pub fn parse_counter(field: &[u8]) -> (r: Option<usize>)
    ensures
        r == counter_of(field@),
{
    let n = field.len();
    if n == 0 {
        return None;
    }
    let mut value: usize = 0;
    let mut i: usize = 0;
    while i < n
        invariant
            i <= n,
            n == field@.len(),
            n > 0,
            forall|k: int| 0 <= k < i ==> 48 <= #[trigger] field@[k] <= 57,
            value == digits_value(field@, i as int),
        decreases n - i,
    {
        let b = field[i];
        if b < 48 || b > 57 {
            return None;
        }
        let d: usize = (b - 48) as usize;
        if value > (usize::MAX - d) / 10 {
            proof {
                if all_digits(field@) {
                    lemma_digits_grow(field@, i + 1, n as int);
                }
            }
            return None;
        }
        value = value * 10 + d;
        i += 1;
    }
    Some(value)
}

/// What a text in Forsyth-Edwards notation says.
pub struct FenFields {
    pub mailbox: Seq<Option<(Side, PieceType)>>,
    pub castle: Seq<bool>,
    pub ep: Option<usize>,
    pub stm: Side,
    pub half_move_clock: usize,
    pub full_move_counter: usize,
}

/// What six fields say, or the first thing that is wrong with them: each
/// field in turn, then the position itself.
pub open spec fn fields_outcome(t: Seq<Seq<u8>>) -> Result<FenFields, FenError> {
    if placement(t[0], 0, 0, empty_mailbox()) is None {
        Err(FenError::Placement)
    } else if side_of(t[1]) is None {
        Err(FenError::ActiveSide)
    } else if !castling_valid(t[2]) {
        Err(FenError::Castling)
    } else if ep_of(t[3]) is None {
        Err(FenError::EnPassant)
    } else if counter_of(t[4]) is None || counter_of(t[5]) is None {
        Err(FenError::Counter)
    } else {
        let mailbox = placement(t[0], 0, 0, empty_mailbox()).unwrap();
        let stm = side_of(t[1]).unwrap();
        let ep = ep_of(t[3]).unwrap();
        match position_fault(mailbox, castling_of(t[2]), ep, stm) {
            Some(e) => Err(e),
            None => Ok(
                FenFields {
                    mailbox,
                    castle: castling_of(t[2]),
                    ep,
                    stm,
                    half_move_clock: counter_of(t[4]).unwrap(),
                    full_move_counter: counter_of(t[5]).unwrap(),
                },
            ),
        }
    }
}

/// What the text says, or the first thing that is wrong with it: the
/// number of fields, then what [`fields_outcome`] finds.
pub open spec fn fen_fields(input: Seq<u8>) -> Result<FenFields, FenError> {
    let t = tokens(input, 0);
    if t.len() != 6 {
        Err(FenError::FieldCount)
    } else {
        fields_outcome(t)
    }
}

impl ChessBoard {
    /// The position has the parts that the text names.
    pub open spec fn shows(&self, f: FenFields) -> bool {
        &&& self.mailbox@ == f.mailbox
        &&& self.castle_bools@ == f.castle
        &&& self.enpassant_bb.data == ep_set(f.ep)
        &&& self.side_to_move == f.stm
        &&& self.half_move_clock == f.half_move_clock
        &&& self.full_move_counter == f.full_move_counter
    }

    /// The position that the six fields from `start` on describe, or what
    /// is wrong with them.
    pub fn from_fen_fields(fields: &Vec<Vec<u8>>, start: usize, tables: &AttackTables) -> (r:
        Result<ChessBoard, FenError>)
        requires
            tables.wf(),
            start + 6 <= fields.len(),
        ensures
            match r {
                Ok(b) => fields_outcome(views(fields@).subrange(start as int, start + 6))
                    matches Ok(f) && b.wf() && b.shows(f),
                Err(e) => fields_outcome(views(fields@).subrange(start as int, start + 6))
                    == Err::<FenFields, FenError>(e),
            },
    {
        let ghost t = views(fields@).subrange(start as int, start + 6);
        assert(forall|k: int| 0 <= k < 6 ==> (#[trigger] fields@[start + k])@ == t[k]);
        let mailbox = match parse_placement(fields[start].as_slice()) {
            Some(m) => m,
            None => {
                return Err(FenError::Placement);
            },
        };
        let side_field = fields[start + 1].as_slice();
        let stm = if side_field.len() == 1 && side_field[0] == 119 {
            Side::White
        } else if side_field.len() == 1 && side_field[0] == 98 {
            Side::Black
        } else {
            return Err(FenError::ActiveSide);
        };
        let castle = match parse_castling(fields[start + 2].as_slice()) {
            Some(c) => c,
            None => {
                return Err(FenError::Castling);
            },
        };
        let ep = match parse_ep(fields[start + 3].as_slice()) {
            Some(e) => e,
            None => {
                return Err(FenError::EnPassant);
            },
        };
        let half = match parse_counter(fields[start + 4].as_slice()) {
            Some(h) => h,
            None => {
                return Err(FenError::Counter);
            },
        };
        let full = match parse_counter(fields[start + 5].as_slice()) {
            Some(h) => h,
            None => {
                return Err(FenError::Counter);
            },
        };
        ChessBoard::from_parts(tables, mailbox, castle, ep, stm, half, full)
    }

    /// The position that the bytes of a text in Forsyth-Edwards notation
    /// describe, or what is wrong with the text.
    pub fn from_fen_bytes(input: &[u8], tables: &AttackTables) -> (r: Result<ChessBoard, FenError>)
        requires
            tables.wf(),
        ensures
            match r {
                Ok(b) => fen_fields(input@) matches Ok(f) && b.wf() && b.shows(f),
                Err(e) => fen_fields(input@) == Err::<FenFields, FenError>(e),
            },
    {
        let fields = split_fields(input);
        if fields.len() != 6 {
            return Err(FenError::FieldCount);
        }
        assert(views(fields@).subrange(0, 6) =~= tokens(input@, 0));
        ChessBoard::from_fen_fields(&fields, 0, tables)
    }

    /// The position that a text in Forsyth-Edwards notation describes, or
    /// what is wrong with the text.
    pub fn from_fen(input: &str, tables: &AttackTables) -> (r: Result<ChessBoard, FenError>)
        requires
            tables.wf(),
        ensures
            match r {
                Ok(b) => fen_fields(input.spec_bytes()) matches Ok(f) && b.wf() && b.shows(f),
                Err(e) => fen_fields(input.spec_bytes()) == Err::<FenFields, FenError>(e),
            },
    {
        ChessBoard::from_fen_bytes(input.as_bytes(), tables)
    }
}

} // verus!
