//! Building a position from its parts: the checks that make sure every
//! invariant holds, and the starting position.
use vstd::prelude::*;
use crate::bits::{bit, has_bit, lemma_single_all};
use crate::bitboard::{rank_of, BitBoard, PieceType, Side};
use crate::chessboard::{
    consistent, cpt_index, has_one_king, king_at, kings_apart, lemma_king_square,
    lemma_piece_index, lemma_single_bit, piece_of_index, ChessBoard,
};
use crate::leapers::king_reach;
use crate::tables::AttackTables;
use crate::zobrist::ZorbristHash;

verus! {

/// Why a description of a position is refused.
#[derive(Debug, Copy, Clone, PartialEq, Eq, Structural)]
pub enum FenError {
    /// The text does not have six fields.
    FieldCount,
    /// The piece placement is not eight ranks of eight files.
    Placement,
    /// The side to move is neither `w` nor `b`.
    ActiveSide,
    /// The castling field is neither `-` nor made of the letters `KQkq`.
    Castling,
    /// The en-passant field is neither `-` nor a square, or no pawn can
    /// have just passed over that square.
    EnPassant,
    /// A move counter is not a decimal number that fits the machine word.
    Counter,
    /// A side does not have exactly one king, or the kings stand next to
    /// each other.
    Kings,
    /// A pawn stands on the first or on the last rank.
    Pawns,
    /// A castling right is claimed without king and rook on their homes.
    CastlingRights,
}

/// No pawn stands on the first or on the last rank.
pub open spec fn pawns_fit(mailbox: Seq<Option<(Side, PieceType)>>) -> bool {
    forall|s: int|
        0 <= s < 64 && (#[trigger] mailbox[s] matches Some(p) && p.1 == PieceType::Pawn) ==> 8 <= s
            < 56
}

/// A castling right that is claimed finds king and rook at home.
pub open spec fn rights_fit(mailbox: Seq<Option<(Side, PieceType)>>, castle: Seq<bool>) -> bool {
    let wk = Some((Side::White, PieceType::King));
    let wr = Some((Side::White, PieceType::Rook));
    let bk = Some((Side::Black, PieceType::King));
    let br = Some((Side::Black, PieceType::Rook));
    &&& castle[0] ==> mailbox[3] == wk && mailbox[0] == wr
    &&& castle[1] ==> mailbox[3] == wk && mailbox[7] == wr
    &&& castle[2] ==> mailbox[59] == bk && mailbox[56] == br
    &&& castle[3] ==> mailbox[59] == bk && mailbox[63] == br
}

/// The en-passant square, if there is one, is empty, and a pawn of the
/// side that has just moved stands right beyond it on its fourth rank.
pub open spec fn ep_fits(mailbox: Seq<Option<(Side, PieceType)>>, ep: Option<usize>, stm: Side) -> bool {
    match ep {
        None => true,
        Some(e) => {
            &&& e < 64
            &&& mailbox[e as int] is None
            &&& match stm {
                Side::White => rank_of(e as int) == 5 && mailbox[e - 8] == Some(
                    (Side::Black, PieceType::Pawn),
                ),
                Side::Black => rank_of(e as int) == 2 && mailbox[e + 8] == Some(
                    (Side::White, PieceType::Pawn),
                ),
            }
        },
    }
}

/// What is wrong with the parts of a position, if anything: the first of
/// kings (one for each side, and apart), pawns, castling rights and
/// en-passant square that does not fit.
pub open spec fn position_fault(
    mailbox: Seq<Option<(Side, PieceType)>>,
    castle: Seq<bool>,
    ep: Option<usize>,
    stm: Side,
) -> Option<FenError> {
    if !has_one_king(mailbox, Side::White) || !has_one_king(mailbox, Side::Black) || !kings_apart(
        mailbox,
    ) {
        Some(FenError::Kings)
    } else if !pawns_fit(mailbox) {
        Some(FenError::Pawns)
    } else if !rights_fit(mailbox, castle) {
        Some(FenError::CastlingRights)
    } else if !ep_fits(mailbox, ep, stm) {
        Some(FenError::EnPassant)
    } else {
        None
    }
}

/// The set that holds the en-passant square, or nothing.
pub open spec fn ep_set(ep: Option<usize>) -> u64 {
    match ep {
        Some(e) => bit(e as int),
        None => 0,
    }
}

/// The piece sets that a square map stands for.
pub fn sets_of_mailbox(mailbox: &[Option<(Side, PieceType)>; 64]) -> (bbs: [BitBoard; 12])
    ensures
        consistent(bbs@, mailbox@),
{
    let mut bbs: [BitBoard; 12] = [BitBoard { data: 0 };12];
    let mut i: usize = 0;
    proof {
        lemma_single_all(0, 0);
    }
    while i < 64
        invariant
            i <= 64,
            forall|s: int, k: int|
                0 <= s < 64 && 0 <= k < 12 ==> (has_bit(#[trigger] bbs[k].data, s) <==> s < i
                    && #[trigger] mailbox[s] == Some(piece_of_index(k))),
        decreases 64 - i,
    {
        match mailbox[i] {
            Some(p) => {
                let k = cpt_index(p);
                let ghost before = bbs;
                proof {
                    lemma_single_all(bbs[k as int].data, i as int);
                }
                bbs[k].set_bit(i);
                proof {
                    assert forall|s: int, j: int| 0 <= s < 64 && 0 <= j < 12 implies (has_bit(
                        #[trigger] bbs[j].data,
                        s,
                    ) <==> s < i + 1 && #[trigger] mailbox[s] == Some(piece_of_index(j))) by {
                        lemma_piece_index(p, j);
                        assert(has_bit(before[j].data, s) <==> s < i && mailbox[s] == Some(
                            piece_of_index(j),
                        ));
                    }
                }
            },
            None => {},
        }
        i += 1;
    }
    bbs
}

/// The square of the king of `side`, if the side has exactly one.
pub fn find_king(mailbox: &[Option<(Side, PieceType)>; 64], side: Side) -> (r: Option<usize>)
    ensures
        r is Some <==> has_one_king(mailbox@, side),
        r matches Some(k) ==> king_at(mailbox@, side, k as int),
{
    let mut found: Option<usize> = None;
    let mut i: usize = 0;
    while i < 64
        invariant
            i <= 64,
            found matches Some(k) ==> k < i && mailbox[k as int] == Some((side, PieceType::King)),
            found is None ==> forall|j: int|
                0 <= j < i ==> #[trigger] mailbox[j] != Some((side, PieceType::King)),
            found matches Some(k) ==> forall|j: int|
                0 <= j < i && j != k ==> #[trigger] mailbox[j] != Some((side, PieceType::King)),
        decreases 64 - i,
    {
        let here = match mailbox[i] {
            Some(p) => p.0 == side && p.1 == PieceType::King,
            None => false,
        };
        if here {
            if found.is_some() {
                proof {
                    let k = found.unwrap() as int;
                    assert forall|s: int| !king_at(mailbox@, side, s) by {
                        if king_at(mailbox@, side, s) {
                            assert(mailbox@[k] == Some((side, PieceType::King)));
                            assert(mailbox@[i as int] == Some((side, PieceType::King)));
                        }
                    }
                }
                return None;
            }
            found = Some(i);
        }
        i += 1;
    }
    proof {
        match found {
            Some(k) => {
                assert(king_at(mailbox@, side, k as int));
            },
            None => {
                assert forall|s: int| !king_at(mailbox@, side, s) by {
                    if king_at(mailbox@, side, s) {
                        assert(mailbox@[s] == Some((side, PieceType::King)));
                    }
                }
            },
        }
    }
    found
}

/// Whether kings on `a` and `b` stand next to each other.
pub fn kings_touch(a: usize, b: usize) -> (r: bool)
    requires
        a < 64,
        b < 64,
    ensures
        r == king_reach(a as int, b as int),
{
    let ra = a / 8;
    let fa = a % 8;
    let rb = b / 8;
    let fb = b % 8;
    a != b && ra <= rb + 1 && rb <= ra + 1 && fa <= fb + 1 && fb <= fa + 1
}

/// Whether the map holds `piece` on `square`.
fn holds(mailbox: &[Option<(Side, PieceType)>; 64], square: usize, side: Side, kind: PieceType) -> (r:
    bool)
    requires
        square < 64,
    ensures
        r == (mailbox[square as int] == Some((side, kind))),
{
    match mailbox[square] {
        Some(p) => p.0 == side && p.1 == kind,
        None => false,
    }
}

/// What is wrong with the parts of a position, if anything.
pub fn find_fault(
    mailbox: &[Option<(Side, PieceType)>; 64],
    castle: &[bool; 4],
    ep: Option<usize>,
    stm: Side,
) -> (r: Option<FenError>)
    ensures
        r == position_fault(mailbox@, castle@, ep, stm),
{
    let white_king = match find_king(mailbox, Side::White) {
        Some(k) => k,
        None => {
            return Some(FenError::Kings);
        },
    };
    let black_king = match find_king(mailbox, Side::Black) {
        Some(k) => k,
        None => {
            return Some(FenError::Kings);
        },
    };
    if kings_touch(white_king, black_king) {
        assert(mailbox@[white_king as int] == Some((Side::White, PieceType::King)));
        assert(mailbox@[black_king as int] == Some((Side::Black, PieceType::King)));
        return Some(FenError::Kings);
    }
    assert(kings_apart(mailbox@));
    let mut i: usize = 0;
    while i < 8
        invariant
            i <= 8,
            has_one_king(mailbox@, Side::White),
            has_one_king(mailbox@, Side::Black),
            kings_apart(mailbox@),
            forall|s: int|
                (0 <= s < i || 56 <= s < 56 + i) ==> !(#[trigger] mailbox[s] matches Some(p) && p.1
                    == PieceType::Pawn),
        decreases 8 - i,
    {
        let low = match mailbox[i] {
            Some(p) => p.1 == PieceType::Pawn,
            None => false,
        };
        let high = match mailbox[56 + i] {
            Some(p) => p.1 == PieceType::Pawn,
            None => false,
        };
        if low || high {
            assert(!pawns_fit(mailbox@)) by {
                if low {
                    assert(mailbox@[i as int] matches Some(p) && p.1 == PieceType::Pawn);
                } else {
                    assert(mailbox@[56 + i] matches Some(p) && p.1 == PieceType::Pawn);
                }
            }
            return Some(FenError::Pawns);
        }
        i += 1;
    }
    assert(pawns_fit(mailbox@));
    let white_home = holds(mailbox, 3, Side::White, PieceType::King);
    let black_home = holds(mailbox, 59, Side::Black, PieceType::King);
    if (castle[0] && !(white_home && holds(mailbox, 0, Side::White, PieceType::Rook))) || (castle[1]
        && !(white_home && holds(mailbox, 7, Side::White, PieceType::Rook))) || (castle[2] && !(
    black_home && holds(mailbox, 56, Side::Black, PieceType::Rook))) || (castle[3] && !(black_home
        && holds(mailbox, 63, Side::Black, PieceType::Rook))) {
        return Some(FenError::CastlingRights);
    }
    match ep {
        None => None,
        Some(e) => {
            if e >= 64 {
                return Some(FenError::EnPassant);
            }
            let fits = mailbox[e].is_none() && match stm {
                Side::White => e / 8 == 5 && holds(mailbox, e - 8, Side::Black, PieceType::Pawn),
                Side::Black => e / 8 == 2 && holds(mailbox, e + 8, Side::White, PieceType::Pawn),
            };
            if fits {
                None
            } else {
                Some(FenError::EnPassant)
            }
        },
    }
}

impl ChessBoard {
    /// The position with the given parts, or what is wrong with them.
    pub fn from_parts(
        tables: &AttackTables,
        mailbox: [Option<(Side, PieceType)>; 64],
        castle: [bool; 4],
        ep: Option<usize>,
        stm: Side,
        half_move_clock: usize,
        full_move_counter: usize,
    ) -> (r: Result<ChessBoard, FenError>)
        requires
            tables.wf(),
        ensures
            match r {
                Ok(b) => {
                    &&& position_fault(mailbox@, castle@, ep, stm) is None
                    &&& b.wf()
                    &&& b.mailbox == mailbox
                    &&& b.castle_bools == castle
                    &&& b.enpassant_bb.data == ep_set(ep)
                    &&& b.side_to_move == stm
                    &&& b.half_move_clock == half_move_clock
                    &&& b.full_move_counter == full_move_counter
                },
                Err(e) => position_fault(mailbox@, castle@, ep, stm) == Some(e),
            },
    {
        match find_fault(&mailbox, &castle, ep, stm) {
            Some(e) => Err(e),
            None => {
                let ep_data: u64 = match ep {
                    Some(e) => {
                        proof {
                            lemma_single_bit(e as int);
                        }
                        1u64 << e
                    },
                    None => 0,
                };
                let mut b = ChessBoard {
                    piece_bbs: sets_of_mailbox(&mailbox),
                    mailbox,
                    castle_bools: castle,
                    enpassant_bb: BitBoard { data: ep_data },
                    check_bb: BitBoard { data: 0 },
                    side_to_move: stm,
                    half_move_clock,
                    full_move_counter,
                    current_hash: 0,
                };
                b.current_hash = ZorbristHash::hash(&b);
                proof {
                    lemma_king_square(b.piece_bbs@, b.mailbox@, stm);
                }
                b.check_bb = b.compute_checkers(tables);
                Ok(b)
            },
        }
    }
}

/// The starting position in Forsyth-Edwards notation.
pub const INITIAL_CHESS_POS_FEN: &'static str = "rnbqkbnr/pppppppp/8/8/8/8/PPPPPPPP/RNBQKBNR w KQkq - 0 1";

/// The piece of the back rank on file `f`, counted from the h-file.
pub open spec fn back_rank_kind(f: int) -> PieceType {
    if f == 0 || f == 7 {
        PieceType::Rook
    } else if f == 1 || f == 6 {
        PieceType::Knight
    } else if f == 2 || f == 5 {
        PieceType::Bishop
    } else if f == 3 {
        PieceType::King
    } else {
        PieceType::Queen
    }
}

/// What stands on square `s` in the starting position.
pub open spec fn initial_entry(s: int) -> Option<(Side, PieceType)> {
    if 0 <= s < 8 {
        Some((Side::White, back_rank_kind(s)))
    } else if 8 <= s < 16 {
        Some((Side::White, PieceType::Pawn))
    } else if 48 <= s < 56 {
        Some((Side::Black, PieceType::Pawn))
    } else if 56 <= s < 64 {
        Some((Side::Black, back_rank_kind(s - 56)))
    } else {
        None
    }
}

/// The square map of the starting position.
pub fn initial_mailbox() -> (mailbox: [Option<(Side, PieceType)>; 64])
    ensures
        forall|s: int| 0 <= s < 64 ==> #[trigger] mailbox[s] == initial_entry(s),
{
    let mut mailbox: [Option<(Side, PieceType)>; 64] = [None;64];
    mailbox[0] = Some((Side::White, PieceType::Rook));
    mailbox[1] = Some((Side::White, PieceType::Knight));
    mailbox[2] = Some((Side::White, PieceType::Bishop));
    mailbox[3] = Some((Side::White, PieceType::King));
    mailbox[4] = Some((Side::White, PieceType::Queen));
    mailbox[5] = Some((Side::White, PieceType::Bishop));
    mailbox[6] = Some((Side::White, PieceType::Knight));
    mailbox[7] = Some((Side::White, PieceType::Rook));
    mailbox[8] = Some((Side::White, PieceType::Pawn));
    mailbox[9] = Some((Side::White, PieceType::Pawn));
    mailbox[10] = Some((Side::White, PieceType::Pawn));
    mailbox[11] = Some((Side::White, PieceType::Pawn));
    mailbox[12] = Some((Side::White, PieceType::Pawn));
    mailbox[13] = Some((Side::White, PieceType::Pawn));
    mailbox[14] = Some((Side::White, PieceType::Pawn));
    mailbox[15] = Some((Side::White, PieceType::Pawn));
    mailbox[48] = Some((Side::Black, PieceType::Pawn));
    mailbox[49] = Some((Side::Black, PieceType::Pawn));
    mailbox[50] = Some((Side::Black, PieceType::Pawn));
    mailbox[51] = Some((Side::Black, PieceType::Pawn));
    mailbox[52] = Some((Side::Black, PieceType::Pawn));
    mailbox[53] = Some((Side::Black, PieceType::Pawn));
    mailbox[54] = Some((Side::Black, PieceType::Pawn));
    mailbox[55] = Some((Side::Black, PieceType::Pawn));
    mailbox[56] = Some((Side::Black, PieceType::Rook));
    mailbox[57] = Some((Side::Black, PieceType::Knight));
    mailbox[58] = Some((Side::Black, PieceType::Bishop));
    mailbox[59] = Some((Side::Black, PieceType::King));
    mailbox[60] = Some((Side::Black, PieceType::Queen));
    mailbox[61] = Some((Side::Black, PieceType::Bishop));
    mailbox[62] = Some((Side::Black, PieceType::Knight));
    mailbox[63] = Some((Side::Black, PieceType::Rook));
    mailbox
}

/// No piece attacks a king on its home square in the starting position:
/// the pawns before it shield it from every line, and no pawn or knight is
/// near.
pub proof fn lemma_initial_king_is_safe(
    bbs: Seq<BitBoard>,
    mailbox: Seq<Option<(Side, PieceType)>>,
    side: Side,
)
    requires
        consistent(bbs, mailbox),
        forall|s: int| 0 <= s < 64 ==> #[trigger] mailbox[s] == initial_entry(s),
    ensures
        crate::chessboard::checkers_spec(bbs, side) == 0,
{
    let home: int = match side {
        Side::White => 3,
        Side::Black => 59,
    };
    let shield: int = match side {
        Side::White => 11,
        Side::Black => 51,
    };
    assert(king_at(mailbox, side, home));
    lemma_king_square(bbs, mailbox, side);
    assert(mailbox[crate::chessboard::king_square(bbs, side)] == Some((side, PieceType::King)));
    assert(crate::chessboard::king_square(bbs, side) == home);
    let att = crate::chessboard::attackers_spec(bbs, home, side.flip());
    assert forall|x: int| 0 <= x < 64 implies !has_bit(att, x) by {
        crate::threat::lemma_attackers(bbs, mailbox, x, home, side.flip());
        if crate::threat::hits_from(mailbox, x, home, side.flip()) {
            let p = mailbox[x].unwrap();
            if p.1 == PieceType::Rook || p.1 == PieceType::Queen || p.1 == PieceType::Bishop {
                assert(crate::tables::strictly_between(x, home, shield));
                assert(mailbox[shield] is None);
            }
        }
    }
    crate::bits::lemma_zero_iff(att);
}

impl Default for ChessBoard {
    /// The starting position.
    fn default() -> (r: ChessBoard)
        ensures
            r.wf(),
            forall|s: int| 0 <= s < 64 ==> #[trigger] r.mailbox[s] == initial_entry(s),
            r.castle_bools@ == seq![true, true, true, true],
            r.enpassant_bb.data == 0,
            r.check_bb.data == 0,
            r.side_to_move == Side::White,
            r.half_move_clock == 0,
            r.full_move_counter == 1,
    {
        let mailbox = initial_mailbox();
        let mut b = ChessBoard {
            piece_bbs: sets_of_mailbox(&mailbox),
            mailbox,
            castle_bools: [true;4],
            enpassant_bb: BitBoard { data: 0 },
            check_bb: BitBoard { data: 0 },
            side_to_move: Side::White,
            half_move_clock: 0,
            full_move_counter: 1,
            current_hash: 0,
        };
        b.current_hash = ZorbristHash::hash(&b);
        proof {
            assert(king_at(b.mailbox@, Side::White, 3));
            assert(king_at(b.mailbox@, Side::Black, 59));
            assert(b.castle_bools@ =~= seq![true, true, true, true]);
            lemma_initial_king_is_safe(b.piece_bbs@, b.mailbox@, Side::White);
        }
        b
    }
}

impl ChessBoard {
    /// The starting position, as [`crate::uci::start_position`] names it.
    pub fn start() -> (r: ChessBoard)
        ensures
            r == crate::uci::start_position(),
            r.wf(),
    {
        let b = ChessBoard::default();
        proof {
            assert(crate::uci::is_start(b));
            let c = crate::uci::start_position();
            assert(b.mailbox@ =~= c.mailbox@);
            crate::transition::lemma_position_determined(b, c);
        }
        b
    }

    /// The position with the set of checking pieces computed anew.
    pub fn with_checkers(&self, tables: &AttackTables) -> (r: ChessBoard)
        requires
            tables.wf(),
            self.structural(),
        ensures
            r.wf(),
            r.mailbox == self.mailbox,
            r.piece_bbs == self.piece_bbs,
            r.castle_bools == self.castle_bools,
            r.enpassant_bb == self.enpassant_bb,
            r.side_to_move == self.side_to_move,
            r.half_move_clock == self.half_move_clock,
            r.full_move_counter == self.full_move_counter,
            r.current_hash == self.current_hash,
    {
        let mut b = self.const_clone();
        proof {
            lemma_king_square(b.piece_bbs@, b.mailbox@, b.side_to_move);
        }
        b.check_bb = b.compute_checkers(tables);
        b
    }
}


} // verus!
