//! A move packed into sixteen bits, and the bounded list the generator fills.
//!
//! From the low end of the word: six bits of source square, six bits of
//! target square, two bits of promotion piece (knight, bishop, rook, queen)
//! and two bits of move kind (normal, castle, en passant, promotion).
use vstd::prelude::*;
use crate::bitboard::PieceType;

verus! {

/// A move, packed into sixteen bits.
#[derive(Debug, Copy, Clone, PartialEq, Eq, Structural)]
pub struct ChessMove {
    /// Source, target, promotion piece and kind, from the low bits up.
    pub data: u16,
}

/// The kind of a move.
#[derive(Debug, Copy, Clone, PartialEq, Eq, Structural)]
pub enum MoveType {
    Normal,
    Castle,
    EnPassant,
    Promotion,
}

/// Capacity of a [`MovesArray`].
pub const MAX_MOVES: usize = 256;

/// The two-bit code of a move kind.
pub open spec fn move_type_code(move_type: MoveType) -> int {
    match move_type {
        MoveType::Normal => 0,
        MoveType::Castle => 1,
        MoveType::EnPassant => 2,
        MoveType::Promotion => 3,
    }
}

/// The two-bit code of a promotion piece; 0 where there is none.
pub open spec fn piece_code(piece_data: Option<PieceType>) -> int {
    match piece_data {
        Some(PieceType::Bishop) => 1,
        Some(PieceType::Rook) => 2,
        Some(PieceType::Queen) => 3,
        _ => 0,
    }
}

/// A piece a pawn can promote to.
pub open spec fn is_promotion_piece(piece: PieceType) -> bool {
    piece == PieceType::Knight || piece == PieceType::Bishop || piece == PieceType::Rook || piece
        == PieceType::Queen
}

/// A promotion names its piece, and no other move names one.
pub open spec fn piece_matches_type(piece_data: Option<PieceType>, move_type: MoveType) -> bool {
    match piece_data {
        Some(p) => move_type == MoveType::Promotion && is_promotion_piece(p),
        None => move_type != MoveType::Promotion,
    }
}

/// The word that packs the four fields.
pub open spec fn encode(source: int, target: int, piece: int, kind: int) -> int {
    source + 64 * target + 4096 * piece + 16384 * kind
}

/// Letter of the file of a square: `h` for file 0 up to `a` for file 7.
pub open spec fn file_letter(square: int) -> char {
    let f = square % 8;
    if f == 0 {
        'h'
    } else if f == 1 {
        'g'
    } else if f == 2 {
        'f'
    } else if f == 3 {
        'e'
    } else if f == 4 {
        'd'
    } else if f == 5 {
        'c'
    } else if f == 6 {
        'b'
    } else {
        'a'
    }
}

/// Digit of the rank of a square: `1` for rank 0 up to `8` for rank 7.
pub open spec fn rank_digit(square: int) -> char {
    let r = square / 8;
    if r == 0 {
        '1'
    } else if r == 1 {
        '2'
    } else if r == 2 {
        '3'
    } else if r == 3 {
        '4'
    } else if r == 4 {
        '5'
    } else if r == 5 {
        '6'
    } else if r == 6 {
        '7'
    } else {
        '8'
    }
}

/// The two characters that name a square, file first.
pub open spec fn square_name(square: int) -> Seq<char> {
    seq![file_letter(square), rank_digit(square)]
}

/// Letter of the file of a square.
pub fn file_char(square: usize) -> (c: char)
    ensures
        c == file_letter(square as int),
{
    let f: usize = square % 8;
    if f == 0 {
        'h'
    } else if f == 1 {
        'g'
    } else if f == 2 {
        'f'
    } else if f == 3 {
        'e'
    } else if f == 4 {
        'd'
    } else if f == 5 {
        'c'
    } else if f == 6 {
        'b'
    } else {
        'a'
    }
}

/// Digit of the rank of a square.
pub fn rank_char(square: usize) -> (c: char)
    ensures
        c == rank_digit(square as int),
{
    let r: usize = square / 8;
    if r == 0 {
        '1'
    } else if r == 1 {
        '2'
    } else if r == 2 {
        '3'
    } else if r == 3 {
        '4'
    } else if r == 4 {
        '5'
    } else if r == 5 {
        '6'
    } else if r == 6 {
        '7'
    } else {
        '8'
    }
}

/// The four fields of a packed word are the values that were packed.
pub proof fn lemma_encode_fields(source: int, target: int, piece: int, kind: int)
    requires
        0 <= source < 64,
        0 <= target < 64,
        0 <= piece < 4,
        0 <= kind < 4,
    ensures
        0 <= encode(source, target, piece, kind) < 65536,
        (ChessMove { data: encode(source, target, piece, kind) as u16 }).spec_source() == source,
        (ChessMove { data: encode(source, target, piece, kind) as u16 }).spec_target() == target,
        (ChessMove { data: encode(source, target, piece, kind) as u16 }).spec_piece_raw() == piece,
        (ChessMove { data: encode(source, target, piece, kind) as u16 }).spec_type_raw() == kind,
{
    let s = source as u16;
    let t = target as u16;
    let p = piece as u16;
    let k = kind as u16;
    assert(s < 64 && t < 64 && p < 4 && k < 4 ==> ({
        let d = (s + 64 * t + 4096 * p + 16384 * k) as u16;
        &&& s + 64 * t + 4096 * p + 16384 * k < 65536
        &&& d % 64 == s
        &&& (d / 64) % 64 == t
        &&& (d / 4096) % 4 == p
        &&& d / 16384 == k
    })) by (bit_vector);
}

/// Packs four fields that are in range.
fn pack(source: u16, target: u16, piece: u16, kind: u16) -> (r: ChessMove)
    requires
        source < 64,
        target < 64,
        piece < 4,
        kind < 4,
    ensures
        r.data == encode(source as int, target as int, piece as int, kind as int),
        r.spec_source() == source,
        r.spec_target() == target,
        r.spec_piece_raw() == piece,
        r.spec_type_raw() == kind,
{
    proof {
        lemma_encode_fields(source as int, target as int, piece as int, kind as int);
    }
    ChessMove { data: source + 64 * target + 4096 * piece + 16384 * kind }
}

impl ChessMove {
    /// Source square: the low six bits.
    pub open spec fn spec_source(self) -> int {
        self.data as int % 64
    }

    /// Target square: the next six bits.
    pub open spec fn spec_target(self) -> int {
        (self.data as int / 64) % 64
    }

    /// The two promotion bits, whatever the kind of the move.
    pub open spec fn spec_piece_raw(self) -> int {
        (self.data as int / 4096) % 4
    }

    /// The two bits of the move kind.
    pub open spec fn spec_type_raw(self) -> int {
        self.data as int / 16384
    }

    /// Kind of the move.
    pub open spec fn spec_move_type(self) -> MoveType {
        let k = self.spec_type_raw();
        if k == 0 {
            MoveType::Normal
        } else if k == 1 {
            MoveType::Castle
        } else if k == 2 {
            MoveType::EnPassant
        } else {
            MoveType::Promotion
        }
    }

    /// The piece a promotion promotes to; `None` for every other move.
    pub open spec fn spec_piece(self) -> Option<PieceType> {
        if self.spec_move_type() == MoveType::Promotion {
            let p = self.spec_piece_raw();
            if p == 0 {
                Some(PieceType::Knight)
            } else if p == 1 {
                Some(PieceType::Bishop)
            } else if p == 2 {
                Some(PieceType::Rook)
            } else {
                Some(PieceType::Queen)
            }
        } else {
            None
        }
    }

    /// The move in long algebraic text: source, target, and for a
    /// promotion the letter of the new piece.
    pub open spec fn text(self) -> Seq<char> {
        let squares = square_name(self.spec_source()) + square_name(self.spec_target());
        match self.spec_piece() {
            Some(p) => squares.push(p.letter()),
            None => squares,
        }
    }

    /// The source square.
    pub fn get_source_index(&self) -> (r: usize)
        ensures
            r == self.spec_source(),
            r < 64,
    {
        (self.data % 64) as usize
    }

    /// The target square.
    pub fn get_target_index(&self) -> (r: usize)
        ensures
            r == self.spec_target(),
            r < 64,
    {
        ((self.data / 64) % 64) as usize
    }

    /// The piece that a promotion promotes to; `None` for every other move.
    pub fn get_piece_data(&self) -> (r: Option<PieceType>)
        ensures
            r == self.spec_piece(),
            r is Some <==> self.spec_move_type() == MoveType::Promotion,
            r matches Some(p) ==> is_promotion_piece(p),
    {
        if self.data / 16384 == 3 {
            let p: u16 = (self.data / 4096) % 4;
            if p == 0 {
                Some(PieceType::Knight)
            } else if p == 1 {
                Some(PieceType::Bishop)
            } else if p == 2 {
                Some(PieceType::Rook)
            } else {
                Some(PieceType::Queen)
            }
        } else {
            None
        }
    }

    /// The two promotion bits, whatever the kind of the move.
    pub fn get_piece_data_raw(&self) -> (r: usize)
        ensures
            r == self.spec_piece_raw(),
            r < 4,
    {
        ((self.data / 4096) % 4) as usize
    }

    /// The kind of the move.
    pub fn get_move_type(&self) -> (r: MoveType)
        ensures
            r == self.spec_move_type(),
            move_type_code(r) == self.spec_type_raw(),
    {
        let k: u16 = self.data / 16384;
        if k == 0 {
            MoveType::Normal
        } else if k == 1 {
            MoveType::Castle
        } else if k == 2 {
            MoveType::EnPassant
        } else {
            MoveType::Promotion
        }
    }

    /// The two bits of the kind of the move.
    pub fn get_move_type_raw(&self) -> (r: usize)
        ensures
            r == self.spec_type_raw(),
            r < 4,
    {
        (self.data / 16384) as usize
    }

    /// Short name of [`Self::get_source_index`].
    pub fn source(&self) -> (r: usize)
        ensures
            r == self.spec_source(),
            r < 64,
    {
        self.get_source_index()
    }

    /// Short name of [`Self::get_target_index`].
    pub fn target(&self) -> (r: usize)
        ensures
            r == self.spec_target(),
            r < 64,
    {
        self.get_target_index()
    }

    /// Short name of [`Self::get_piece_data`].
    pub fn piece(&self) -> (r: Option<PieceType>)
        ensures
            r == self.spec_piece(),
            r is Some <==> self.spec_move_type() == MoveType::Promotion,
            r matches Some(p) ==> is_promotion_piece(p),
    {
        self.get_piece_data()
    }

    /// Replaces the source square by `index`, of which the low six bits count.
    pub fn set_source_index(&mut self, index: usize)
        ensures
            final(self).data == encode(
                index as int % 64,
                old(self).spec_target(),
                old(self).spec_piece_raw(),
                old(self).spec_type_raw(),
            ),
            final(self).spec_source() == index % 64,
            final(self).spec_target() == old(self).spec_target(),
            final(self).spec_piece_raw() == old(self).spec_piece_raw(),
            final(self).spec_type_raw() == old(self).spec_type_raw(),
    {
        let t: u16 = (self.data / 64) % 64;
        let p: u16 = (self.data / 4096) % 4;
        let k: u16 = self.data / 16384;
        *self = pack((index % 64) as u16, t, p, k);
    }

    /// Replaces the target square by `index`, of which the low six bits count.
    pub fn set_target_index(&mut self, index: usize)
        ensures
            final(self).data == encode(
                old(self).spec_source(),
                index as int % 64,
                old(self).spec_piece_raw(),
                old(self).spec_type_raw(),
            ),
            final(self).spec_source() == old(self).spec_source(),
            final(self).spec_target() == index % 64,
            final(self).spec_piece_raw() == old(self).spec_piece_raw(),
            final(self).spec_type_raw() == old(self).spec_type_raw(),
    {
        let s: u16 = self.data % 64;
        let p: u16 = (self.data / 4096) % 4;
        let k: u16 = self.data / 16384;
        *self = pack(s, (index % 64) as u16, p, k);
    }

    /// Replaces the promotion bits by the code of the piece; `None` leaves
    /// the move as it is.
    pub fn set_piece_data(&mut self, piece_data: Option<PieceType>)
        requires
            piece_data matches Some(p) ==> is_promotion_piece(p),
        ensures
            piece_data is None ==> *final(self) == *old(self),
            piece_data is Some ==> final(self).data == encode(
                old(self).spec_source(),
                old(self).spec_target(),
                piece_code(piece_data),
                old(self).spec_type_raw(),
            ),
            final(self).spec_source() == old(self).spec_source(),
            final(self).spec_target() == old(self).spec_target(),
            final(self).spec_piece_raw() == (if piece_data is Some {
                piece_code(piece_data)
            } else {
                old(self).spec_piece_raw()
            }),
            final(self).spec_type_raw() == old(self).spec_type_raw(),
    {
        match piece_data {
            None => {},
            Some(p) => {
                let code: u16 = match p {
                    PieceType::Bishop => 1,
                    PieceType::Rook => 2,
                    PieceType::Queen => 3,
                    _ => 0,
                };
                let s: u16 = self.data % 64;
                let t: u16 = (self.data / 64) % 64;
                let k: u16 = self.data / 16384;
                *self = pack(s, t, code, k);
            },
        }
    }

    /// Replaces the kind of the move.
    pub fn set_move_type(&mut self, move_type: MoveType)
        ensures
            final(self).data == encode(
                old(self).spec_source(),
                old(self).spec_target(),
                old(self).spec_piece_raw(),
                move_type_code(move_type),
            ),
            final(self).spec_source() == old(self).spec_source(),
            final(self).spec_target() == old(self).spec_target(),
            final(self).spec_piece_raw() == old(self).spec_piece_raw(),
            final(self).spec_move_type() == move_type,
    {
        let code: u16 = match move_type {
            MoveType::Normal => 0,
            MoveType::Castle => 1,
            MoveType::EnPassant => 2,
            MoveType::Promotion => 3,
        };
        let s: u16 = self.data % 64;
        let t: u16 = (self.data / 64) % 64;
        let p: u16 = (self.data / 4096) % 4;
        *self = pack(s, t, p, code);
    }

    /// Replaces all four fields. The promotion bits keep their value when
    /// `piece_data` is `None`.
    pub fn set_data(
        &mut self,
        source_index: usize,
        target_index: usize,
        piece_data: Option<PieceType>,
        move_type: MoveType,
    )
        requires
            piece_matches_type(piece_data, move_type),
        ensures
            final(self).data == encode(
                source_index as int % 64,
                target_index as int % 64,
                if piece_data is Some {
                    piece_code(piece_data)
                } else {
                    old(self).spec_piece_raw()
                },
                move_type_code(move_type),
            ),
    {
        self.set_source_index(source_index);
        self.set_target_index(target_index);
        self.set_piece_data(piece_data);
        self.set_move_type(move_type);
    }

    /// The move with the given fields. Of each square the low six bits count.
    pub fn new(
        source_index: usize,
        target_index: usize,
        piece_data: Option<PieceType>,
        move_type: MoveType,
    ) -> (r: ChessMove)
        requires
            piece_matches_type(piece_data, move_type),
        ensures
            r == Self::spec_new(source_index as int, target_index as int, piece_data, move_type),
            r.spec_source() == source_index % 64,
            r.spec_target() == target_index % 64,
            r.spec_piece() == piece_data,
            r.spec_move_type() == move_type,
    {
        let s: u16 = (source_index % 64) as u16;
        let t: u16 = (target_index % 64) as u16;
        let p: u16 = match piece_data {
            Some(PieceType::Bishop) => 1,
            Some(PieceType::Rook) => 2,
            Some(PieceType::Queen) => 3,
            _ => 0,
        };
        let k: u16 = match move_type {
            MoveType::Normal => 0,
            MoveType::Castle => 1,
            MoveType::EnPassant => 2,
            MoveType::Promotion => 3,
        };
        pack(s, t, p, k)
    }

    /// The value [`Self::new`] returns.
    pub open spec fn spec_new(
        source: int,
        target: int,
        piece_data: Option<PieceType>,
        move_type: MoveType,
    ) -> ChessMove {
        ChessMove {
            data: encode(
                source % 64,
                target % 64,
                piece_code(piece_data),
                move_type_code(move_type),
            ) as u16,
        }
    }

    /// The move in long algebraic text, such as `e2e4` or `e7e8q`.
    pub fn print_move(&self) -> (r: String)
        ensures
            r@ == self.text(),
    {
        let mut s = String::new();
        let source = self.source();
        let target = self.target();
        s.push(file_char(source));
        s.push(rank_char(source));
        s.push(file_char(target));
        s.push(rank_char(target));
        match self.piece() {
            Some(p) => {
                s.push(p.to_char());
            },
            None => {},
        }
        assert(s@ =~= self.text());
        s
    }
}

/// The fields of the move that [`ChessMove::new`] builds from squares of the
/// board are the fields it was built from.
pub proof fn lemma_new_fields(
    source: int,
    target: int,
    piece_data: Option<PieceType>,
    move_type: MoveType,
)
    requires
        0 <= source < 64,
        0 <= target < 64,
        piece_matches_type(piece_data, move_type),
    ensures
        ChessMove::spec_new(source, target, piece_data, move_type).spec_source() == source,
        ChessMove::spec_new(source, target, piece_data, move_type).spec_target() == target,
        ChessMove::spec_new(source, target, piece_data, move_type).spec_move_type() == move_type,
        ChessMove::spec_new(source, target, piece_data, move_type).spec_piece() == piece_data,
{
    lemma_encode_fields(source, target, piece_code(piece_data), move_type_code(move_type));
}

/// The fields of a move are the bit fields of its word: bits 0 to 5 the
/// source, 6 to 11 the target, 12 and 13 the promotion piece, 14 and 15 the
/// kind.
pub proof fn law_move_fields_are_bit_fields(m: ChessMove)
    ensures
        m.spec_source() == m.data & 0x3f,
        m.spec_target() == (m.data & 0xfc0) >> 6,
        m.spec_piece_raw() == (m.data & 0x3000) >> 12,
        m.spec_type_raw() == (m.data & 0xc000) >> 14,
{
    let d = m.data;
    assert(d % 64 == d & 0x3f && (d / 64) % 64 == (d & 0xfc0) >> 6 && (d / 4096) % 4 == (d
        & 0x3000) >> 12 && d / 16384 == (d & 0xc000) >> 14) by (bit_vector);
}

/// A move is determined by its four fields.
pub proof fn lemma_move_fields_determine(a: ChessMove, b: ChessMove)
    requires
        a.spec_source() == b.spec_source(),
        a.spec_target() == b.spec_target(),
        a.spec_piece_raw() == b.spec_piece_raw(),
        a.spec_type_raw() == b.spec_type_raw(),
    ensures
        a == b,
{
    lemma_decode(a);
    lemma_decode(b);
}

/// Every word is the packing of its four fields.
pub proof fn lemma_decode(m: ChessMove)
    ensures
        m.data == encode(m.spec_source(), m.spec_target(), m.spec_piece_raw(), m.spec_type_raw()),
        0 <= m.spec_source() < 64,
        0 <= m.spec_target() < 64,
        0 <= m.spec_piece_raw() < 4,
        0 <= m.spec_type_raw() < 4,
{
    let d = m.data;
    assert(d == d % 64 + 64 * ((d / 64) % 64) + 4096 * ((d / 4096) % 4) + 16384 * (d / 16384) && d
        / 16384 < 4) by (bit_vector);
}

/// The key by which [`MovesArray::sort`] orders moves: the four or five
/// characters of the text as the digits of a number in base 256, zero
/// standing for a missing fifth, and after them the packed word of the move
/// as the last digit in base 65536.
pub open spec fn sort_rank(m: ChessMove) -> int {
    let s = m.spec_source();
    let t = m.spec_target();
    let letter: int = match m.spec_piece() {
        Some(p) => p.letter() as int,
        None => 0,
    };
    ((((file_letter(s) as int * 256 + rank_digit(s) as int) * 256 + file_letter(t) as int) * 256
        + rank_digit(t) as int) * 256 + letter) * 65536 + m.data
}

/// The sort key of a move.
pub fn rank_of_move(m: ChessMove) -> (r: u64)
    ensures
        r == sort_rank(m),
{
    let s = m.source();
    let t = m.target();
    let letter: u64 = match m.piece() {
        Some(p) => p.to_char() as u64,
        None => 0,
    };
    let a: u64 = file_char(s) as u64;
    let b: u64 = rank_char(s) as u64;
    let c: u64 = file_char(t) as u64;
    let d: u64 = rank_char(t) as u64;
    assert(a < 256 && b < 256 && c < 256 && d < 256 && letter < 256);
    ((((a * 256 + b) * 256 + c) * 256 + d) * 256 + letter) * 65536 + (m.data as u64)
}

/// A list of at most [`MAX_MOVES`] moves, held in a fixed array.
#[derive(Debug, Copy, Clone, PartialEq, Eq)]
pub struct MovesArray {
    data: [Option<ChessMove>; 256],
    count: usize,
}

impl View for MovesArray {
    type V = Seq<ChessMove>;

    /// The moves of the list, the oldest first.
    closed spec fn view(&self) -> Seq<ChessMove> {
        Seq::new(self.count as nat, |i: int| self.data[i].unwrap())
    }
}

/// The four promotions of one pawn step, in the order the list takes them.
pub open spec fn promotions(source: int, target: int) -> Seq<ChessMove> {
    seq![
        ChessMove::spec_new(source, target, Some(PieceType::Queen), MoveType::Promotion),
        ChessMove::spec_new(source, target, Some(PieceType::Rook), MoveType::Promotion),
        ChessMove::spec_new(source, target, Some(PieceType::Bishop), MoveType::Promotion),
        ChessMove::spec_new(source, target, Some(PieceType::Knight), MoveType::Promotion),
    ]
}

impl MovesArray {
    /// The first `count` slots hold a move each, the others none.
    pub closed spec fn wf(&self) -> bool {
        &&& self.count <= 256
        &&& forall|i: int| 0 <= i < self.count ==> (#[trigger] self.data[i]).is_some()
        &&& forall|i: int| self.count <= i < 256 ==> (#[trigger] self.data[i]).is_none()
    }

    /// The empty list.
    pub fn new() -> (r: MovesArray)
        ensures
            r.wf(),
            r@ == Seq::<ChessMove>::empty(),
    {
        let r = MovesArray { data: [None;256], count: 0 };
        assert(r@ =~= Seq::<ChessMove>::empty());
        r
    }

    /// The list with one more move at its end.
    pub fn new_add(&self, chess_move: ChessMove) -> (r: MovesArray)
        requires
            self.wf(),
            self@.len() < MAX_MOVES,
        ensures
            r.wf(),
            r@ == self@.push(chess_move),
    {
        let mut data = self.data;
        data[self.count] = Some(chess_move);
        let r = MovesArray { data, count: self.count + 1 };
        assert(r@ =~= self@.push(chess_move));
        r
    }

    /// The list with the move of the given fields at its end.
    pub fn new_raw(
        &self,
        source: usize,
        target: usize,
        piece_data: Option<PieceType>,
        move_type: MoveType,
    ) -> (r: MovesArray)
        requires
            self.wf(),
            self@.len() < MAX_MOVES,
            piece_matches_type(piece_data, move_type),
        ensures
            r.wf(),
            r@ == self@.push(
                ChessMove::spec_new(source as int, target as int, piece_data, move_type),
            ),
    {
        let chess_move = ChessMove::new(source, target, piece_data, move_type);
        self.new_add(chess_move)
    }

    /// The list without its last move, and that move; the list itself and
    /// `None` when it is empty.
    pub fn new_pop(&self) -> (r: (MovesArray, Option<ChessMove>))
        requires
            self.wf(),
        ensures
            r.0.wf(),
            self@.len() == 0 ==> r.0@ == self@ && r.1 is None,
            self@.len() > 0 ==> r.0@ == self@.drop_last() && r.1 == Some(self@.last()),
    {
        if self.count == 0 {
            (*self, None)
        } else {
            let chess_move = self.data[self.count - 1];
            let mut data = self.data;
            data[self.count - 1] = None;
            let r = MovesArray { data, count: self.count - 1 };
            assert(r@ =~= self@.drop_last());
            (r, chess_move)
        }
    }

    /// The list with the four promotions of one pawn step at its end: to
    /// queen, rook, bishop and knight.
    pub fn new_promotions(&self, source: usize, target: usize) -> (r: MovesArray)
        requires
            self.wf(),
            self@.len() + 4 <= MAX_MOVES,
        ensures
            r.wf(),
            r@ == self@ + promotions(source as int, target as int),
    {
        let mut r = self.const_clone();
        r.push(ChessMove::new(source, target, Some(PieceType::Queen), MoveType::Promotion));
        r.push(ChessMove::new(source, target, Some(PieceType::Rook), MoveType::Promotion));
        r.push(ChessMove::new(source, target, Some(PieceType::Bishop), MoveType::Promotion));
        r.push(ChessMove::new(source, target, Some(PieceType::Knight), MoveType::Promotion));
        assert(r@ =~= self@ + promotions(source as int, target as int));
        r
    }

    /// Appends a move.
    pub fn push(&mut self, chess_move: ChessMove)
        requires
            old(self).wf(),
            old(self)@.len() < MAX_MOVES,
        ensures
            final(self).wf(),
            final(self)@ == old(self)@.push(chess_move),
    {
        self.data[self.count] = Some(chess_move);
        self.count += 1;
        assert(self@ =~= old(self)@.push(chess_move));
    }

    /// Removes the last move and returns it; `None` when the list is empty.
    pub fn pop(&mut self) -> (r: Option<ChessMove>)
        requires
            old(self).wf(),
        ensures
            final(self).wf(),
            old(self)@.len() == 0 ==> final(self)@ == old(self)@ && r is None,
            old(self)@.len() > 0 ==> final(self)@ == old(self)@.drop_last() && r == Some(
                old(self)@.last(),
            ),
    {
        if self.count == 0 {
            None
        } else {
            let chess_move = self.data[self.count - 1];
            self.data[self.count - 1] = None;
            self.count = self.count - 1;
            assert(self@ =~= old(self)@.drop_last());
            chess_move
        }
    }

    /// The move at position `i`.
    pub fn get(&self, i: usize) -> (r: ChessMove)
        requires
            self.wf(),
            i < self@.len(),
        ensures
            r == self@[i as int],
    {
        match self.data[i] {
            Some(m) => m,
            None => ChessMove { data: 0 },
        }
    }

    /// The moves as a vector, in the same order.
    pub fn to_vec(&self) -> (r: Vec<ChessMove>)
        requires
            self.wf(),
        ensures
            r@ == self@,
    {
        let mut v: Vec<ChessMove> = Vec::new();
        let mut i: usize = 0;
        while i < self.count
            invariant
                self.wf(),
                i <= self.count,
                v@.len() == i,
                forall|k: int| 0 <= k < i ==> v@[k] == self@[k],
            decreases self.count - i,
        {
            v.push(self.get(i));
            i += 1;
        }
        assert(v@ =~= self@);
        v
    }

    /// Exchanges the moves at positions `i` and `j`.
    fn swap(&mut self, i: usize, j: usize)
        requires
            old(self).wf(),
            i < old(self)@.len(),
            j < old(self)@.len(),
        ensures
            final(self).wf(),
            final(self)@ == old(self)@.update(i as int, old(self)@[j as int]).update(
                j as int,
                old(self)@[i as int],
            ),
            final(self)@.to_multiset() == old(self)@.to_multiset(),
    {
        let a = self.data[i];
        let b = self.data[j];
        self.data[i] = b;
        self.data[j] = a;
        proof {
            let s0 = old(self)@;
            let s1 = s0.update(i as int, s0[j as int]);
            let s2 = s1.update(j as int, s0[i as int]);
            assert(self@ =~= s2);
            broadcast use vstd::multiset::group_multiset_axioms;

            vstd::seq_lib::to_multiset_update(s0, i as int, s0[j as int]);
            vstd::seq_lib::to_multiset_update(s1, j as int, s0[i as int]);
            vstd::seq_lib::to_multiset_contains(s0, s0[i as int]);
            vstd::seq_lib::to_multiset_contains(s0, s0[j as int]);
            assert(s0.contains(s0[i as int]));
            assert(s0.contains(s0[j as int]));
            assert(s2.to_multiset() =~= s0.to_multiset());
        }
    }

    /// Sorts the moves by their text, byte by byte, a move without a
    /// promotion letter before one with, and moves of equal text by their
    /// packed word: ascending [`sort_rank`].
    pub fn sort(&mut self)
        requires
            old(self).wf(),
        ensures
            final(self).wf(),
            final(self)@.to_multiset() == old(self)@.to_multiset(),
            forall|p: int, q: int|
                0 <= p <= q < final(self)@.len() ==> sort_rank(final(self)@[p]) <= sort_rank(
                    final(self)@[q],
                ),
    {
        let n = self.count;
        let mut i: usize = 1;
        while i < n
            invariant
                self.wf(),
                n == self@.len(),
                1 <= i,
                self@.to_multiset() == old(self)@.to_multiset(),
                forall|p: int, q: int|
                    0 <= p <= q < i && q < n ==> sort_rank(self@[p]) <= sort_rank(self@[q]),
            decreases n - i,
        {
            let mut j: usize = i;
            while j > 0 && rank_of_move(self.get(j - 1)) > rank_of_move(self.get(j))
                invariant
                    self.wf(),
                    n == self@.len(),
                    j <= i < n,
                    self@.to_multiset() == old(self)@.to_multiset(),
                    forall|p: int, q: int|
                        0 <= p <= q <= i && p != j && q != j ==> sort_rank(self@[p]) <= sort_rank(
                            self@[q],
                        ),
                    forall|q: int| j < q <= i ==> sort_rank(self@[j as int]) <= sort_rank(self@[q]),
                decreases j,
            {
                self.swap(j - 1, j);
                j -= 1;
            }
            i += 1;
        }
    }

    /// A copy of the list.
    pub fn const_clone(&self) -> (r: MovesArray)
        ensures
            r == *self,
    {
        MovesArray { data: self.data, count: self.count }
    }

    /// Number of moves in the list.
    pub fn len(&self) -> (r: usize)
        ensures
            r == self@.len(),
    {
        self.count
    }

    /// The slots of the list: the moves in order, then `None` up to the
    /// capacity.
    pub fn data(&self) -> (r: [Option<ChessMove>; 256])
        requires
            self.wf(),
        ensures
            forall|i: int| 0 <= i < self@.len() ==> r[i] == Some(self@[i]),
            forall|i: int| self@.len() <= i < 256 ==> r[i] is None,
    {
        self.data
    }
}


} // verus!
