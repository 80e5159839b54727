//! What holds of every position that play can reach, and of every list of
//! moves that the generator makes.
use vstd::prelude::*;
use crate::bits::{has_bit, lemma_lsb, lemma_mask_of, lsb, mask_of};
use crate::bitboard::{rank_of, BitBoard, PieceType, Side};
use crate::chessboard::{
    checkers_spec, consistent, has_one_king, is_single, king_square, kings_apart,
    lemma_king_square, piece_at, piece_of_index, side_base, ChessBoard,
};
use crate::chessmove::{ChessMove, MoveType};
use crate::movegen::capped;
use crate::setup::{initial_entry, pawns_fit, rights_fit};
use crate::transition::ep_victim;
use crate::distinct::{all_read_apart, read_alike};
use crate::uci::{find_move, is_start, start_position, text_bytes};
use crate::zobrist::hash_spec;

verus! {

/// The array whose first `k` entries are those of `s`.
pub open spec fn array_from<T: Copy, const N: usize>(s: Seq<T>, k: int) -> [T; N]
    decreases k,
{
    if k <= 0 {
        vstd::array::spec_array_fill_for_copy_type::<T, N>(s[0])
    } else {
        vstd::array::spec_array_update(array_from::<T, N>(s, k - 1), k - 1, s[k - 1])
    }
}

/// The first `k` entries of `array_from(s, k)` are those of `s`.
pub proof fn lemma_array_from<T: Copy, const N: usize>(s: Seq<T>, k: int)
    requires
        s.len() == N,
        0 <= k <= N,
    ensures
        forall|j: int| 0 <= j < k ==> #[trigger] array_from::<T, N>(s, k)@[j] == s[j],
        array_from::<T, N>(s, k)@.len() == N,
    decreases k,
{
    broadcast use vstd::array::array_len_matches_n;

    if k > 0 {
        lemma_array_from::<T, N>(s, k - 1);
        vstd::array::axiom_spec_array_update(array_from::<T, N>(s, k - 1), k - 1, s[k - 1]);
    }
}

/// The piece sets that a square map stands for.
pub open spec fn sets_of(mailbox: Seq<Option<(Side, PieceType)>>) -> Seq<BitBoard> {
    Seq::new(
        12,
        |k: int| BitBoard { data: mask_of(|s: int| mailbox[s] == Some(piece_of_index(k))) },
    )
}

/// The parts can be the parts of a position.
pub open spec fn parts_fit(
    mailbox: Seq<Option<(Side, PieceType)>>,
    castle: Seq<bool>,
    ep: u64,
    stm: Side,
) -> bool {
    &&& mailbox.len() == 64
    &&& castle.len() == 4
    &&& has_one_king(mailbox, Side::White)
    &&& has_one_king(mailbox, Side::Black)
    &&& kings_apart(mailbox)
    &&& pawns_fit(mailbox)
    &&& rights_fit(mailbox, castle)
    &&& ep != 0 ==> {
        &&& is_single(ep)
        &&& mailbox[lsb(ep)] is None
        &&& match stm {
            Side::White => rank_of(lsb(ep)) == 5 && mailbox[lsb(ep) - 8] == Some(
                (Side::Black, PieceType::Pawn),
            ),
            Side::Black => rank_of(lsb(ep)) == 2 && mailbox[lsb(ep) + 8] == Some(
                (Side::White, PieceType::Pawn),
            ),
        }
    }
}

/// There is a position with any parts that fit, and all its invariants hold.
pub proof fn lemma_position_exists(
    mailbox: Seq<Option<(Side, PieceType)>>,
    castle: Seq<bool>,
    ep: u64,
    stm: Side,
    half_move_clock: usize,
    full_move_counter: usize,
) -> (b: ChessBoard)
    requires
        parts_fit(mailbox, castle, ep, stm),
    ensures
        b.wf(),
        b.mailbox@ == mailbox,
        b.castle_bools@ == castle,
        b.enpassant_bb.data == ep,
        b.side_to_move == stm,
        b.half_move_clock == half_move_clock,
        b.full_move_counter == full_move_counter,
{
    let sets = sets_of(mailbox);
    lemma_array_from::<BitBoard, 12>(sets, 12);
    lemma_array_from::<Option<(Side, PieceType)>, 64>(mailbox, 64);
    lemma_array_from::<bool, 4>(castle, 4);
    let piece_bbs = array_from::<BitBoard, 12>(sets, 12);
    let mb = array_from::<Option<(Side, PieceType)>, 64>(mailbox, 64);
    let cs = array_from::<bool, 4>(castle, 4);
    assert(piece_bbs@ =~= sets);
    assert(mb@ =~= mailbox);
    assert(cs@ =~= castle);
    let b = ChessBoard {
        piece_bbs,
        mailbox: mb,
        castle_bools: cs,
        enpassant_bb: BitBoard { data: ep },
        check_bb: BitBoard { data: checkers_spec(sets, stm) },
        side_to_move: stm,
        half_move_clock,
        full_move_counter,
        current_hash: hash_spec(mailbox, castle, ep, stm),
    };
    assert(consistent(sets, mailbox)) by {
        assert forall|s: int, k: int| 0 <= s < 64 && 0 <= k < 12 implies (has_bit(
            #[trigger] sets[k].data,
            s,
        ) <==> #[trigger] mailbox[s] == Some(piece_of_index(k))) by {
            lemma_mask_of(|s: int| mailbox[s] == Some(piece_of_index(k)));
        }
    }
    if ep != 0 {
        lemma_lsb(ep);
    }
    b
}

impl ChessBoard {
    /// A move that can be played has a position after it, and that
    /// position is what [`ChessBoard::successor`] names.
    pub proof fn lemma_successor(&self, m: ChessMove)
        requires
            self.structural(),
            self.admits(m),
        ensures
            self.leads_to(m, self.successor(m)),
    {
        self.lemma_moved_structure(m);
        crate::chessmove::lemma_decode(m);
        let mb = self.moved_mailbox(m);
        let b = lemma_position_exists(
            mb,
            self.moved_castle(m),
            self.moved_ep(m),
            self.side_to_move.flip(),
            self.moved_half_move_clock(m),
            self.moved_full_move_counter(),
        );
        assert(self.leads_to(m, b));
    }
}

/// A move that can be played leads to the position that
/// [`ChessBoard::successor`] names.
pub proof fn lemma_successor_of(p: ChessBoard, m: ChessMove)
    requires
        p.structural(),
        p.admits(m),
    ensures
        p.leads_to(m, p.successor(m)),
{
    p.lemma_successor(m);
}

/// There is a starting position, and all invariants hold of it.
pub proof fn lemma_start_position()
    ensures
        is_start(start_position()),
{
    let mailbox = Seq::new(64, |s: int| initial_entry(s));
    let castle = seq![true, true, true, true];
    assert(crate::chessboard::king_at(mailbox, Side::White, 3));
    assert(crate::chessboard::king_at(mailbox, Side::Black, 59));
    let b = lemma_position_exists(mailbox, castle, 0, Side::White, 0, 1);
    assert(is_start(b));
}

/// The position after the first `n` moves of a list are played from `p`.
pub open spec fn play(p: ChessBoard, moves: Seq<ChessMove>, n: int) -> ChessBoard
    decreases n,
{
    if n <= 0 {
        p
    } else {
        play(p, moves, n - 1).successor(moves[n - 1])
    }
}

/// Each move of the list is a legal move of the position it is played in.
pub open spec fn legal_line(p: ChessBoard, moves: Seq<ChessMove>) -> bool {
    forall|i: int|
        0 <= i < moves.len() ==> (#[trigger] play(p, moves, i)).legal_moves().contains(moves[i])
}

/// Legal play leads from the starting position to `q`.
pub open spec fn reachable(q: ChessBoard) -> bool {
    exists|moves: Seq<ChessMove>|
        legal_line(start_position(), moves) && q == play(
            start_position(),
            moves,
            moves.len() as int,
        )
}

/// Legal play keeps the invariants: after any number of legal moves from a
/// position of which they hold, they hold again.
pub proof fn law_line_keeps_invariants(p: ChessBoard, moves: Seq<ChessMove>, n: int)
    requires
        p.wf(),
        legal_line(p, moves),
        0 <= n <= moves.len(),
    ensures
        play(p, moves, n).wf(),
    decreases n,
{
    if n > 0 {
        law_line_keeps_invariants(p, moves, n - 1);
        let q = play(p, moves, n - 1);
        let m = moves[n - 1];
        q.lemma_legal_moves_fine();
        assert(q.legal_moves().contains(m));
        let i = choose|i: int| 0 <= i < q.legal_moves().len() && q.legal_moves()[i] == m;
        assert(q.fine(q.legal_moves()[i]));
        q.lemma_successor(m);
    }
}

/// Every invariant holds of every position that legal play reaches from
/// the starting position.
pub proof fn law_reachable_invariants(q: ChessBoard)
    requires
        reachable(q),
    ensures
        q.wf(),
{
    let moves = choose|moves: Seq<ChessMove>|
        legal_line(start_position(), moves) && q == play(
            start_position(),
            moves,
            moves.len() as int,
        );
    lemma_start_position();
    law_line_keeps_invariants(start_position(), moves, moves.len() as int);
}

/// In a reachable position the square map names a piece on a square
/// exactly when the square is in the set of that piece.
pub proof fn law_map_agrees_with_sets(q: ChessBoard, s: int, k: int)
    requires
        reachable(q),
        0 <= s < 64,
        0 <= k < 12,
    ensures
        q.mailbox[s] == Some(piece_of_index(k)) <==> has_bit(q.piece_bbs[k].data, s),
{
    law_reachable_invariants(q);
    assert(has_bit(q.piece_bbs@[k].data, s) <==> q.mailbox@[s] == Some(piece_of_index(k)));
}

/// In a reachable position the hash field is the hash of the position.
pub proof fn law_hash_is_recomputed_hash(q: ChessBoard)
    requires
        reachable(q),
    ensures
        q.recomputed_hash() == q.current_hash,
{
    law_reachable_invariants(q);
}

/// Where map and sets agree, the map that the sets stand for is the map.
pub proof fn lemma_piece_at(
    bbs: Seq<BitBoard>,
    mailbox: Seq<Option<(Side, PieceType)>>,
    s: int,
    upto: int,
)
    requires
        consistent(bbs, mailbox),
        0 <= s < 64,
        0 <= upto <= 12,
    ensures
        piece_at(bbs, s, upto) == (if mailbox[s] is Some && crate::chessboard::piece_index(
            mailbox[s].unwrap(),
        ) < upto {
            mailbox[s]
        } else {
            None
        }),
    decreases upto,
{
    if upto > 0 {
        lemma_piece_at(bbs, mailbox, s, upto - 1);
        assert(has_bit(bbs[upto - 1].data, s) <==> mailbox[s] == Some(piece_of_index(upto - 1)));
        if mailbox[s] is Some {
            crate::chessboard::lemma_piece_index(mailbox[s].unwrap(), upto - 1);
        }
    }
}

/// Rebuilding the position after a move from its piece sets changes
/// nothing: the square map that the sets stand for is its square map, and
/// the hash computed from scratch is its hash.
pub proof fn law_transition_survives_rebuild(p: ChessBoard, m: ChessMove, s: int)
    requires
        p.structural(),
        p.admits(m),
        0 <= s < 64,
    ensures
        piece_at(p.successor(m).piece_bbs@, s, 12) == p.successor(m).mailbox[s],
        p.successor(m).recomputed_hash() == p.successor(m).current_hash,
{
    p.lemma_successor(m);
    let r = p.successor(m);
    lemma_piece_at(r.piece_bbs@, r.mailbox@, s, 12);
    if r.mailbox[s] is Some {
        crate::chessboard::lemma_piece_index(r.mailbox[s].unwrap(), 0);
    }
}

/// After a move the other side is to move.
pub proof fn law_side_flips(p: ChessBoard, m: ChessMove)
    requires
        p.structural(),
        p.admits(m),
    ensures
        p.successor(m).side_to_move == p.side_to_move.flip(),
{
    p.lemma_successor(m);
}

/// A move gives no castling right: a right that is held after it was held
/// before it.
pub proof fn law_castle_rights_fall(p: ChessBoard, m: ChessMove, i: int)
    requires
        p.structural(),
        p.admits(m),
        0 <= i < 4,
    ensures
        p.successor(m).castle_bools[i] ==> p.castle_bools[i],
{
    p.lemma_successor(m);
    assert(p.successor(m).castle_bools@[i] == p.moved_castle(m)[i]);
}

/// Along a line of legal play a castling right that is lost stays lost: a
/// right that is held after `b` moves was held after `a <= b` moves.
pub proof fn law_castle_rights_never_return(
    p: ChessBoard,
    moves: Seq<ChessMove>,
    a: int,
    b: int,
    i: int,
)
    requires
        p.wf(),
        legal_line(p, moves),
        0 <= a <= b <= moves.len(),
        0 <= i < 4,
    ensures
        play(p, moves, b).castle_bools[i] ==> play(p, moves, a).castle_bools[i],
    decreases b - a,
{
    if a < b {
        law_castle_rights_never_return(p, moves, a, b - 1, i);
        law_line_keeps_invariants(p, moves, b - 1);
        let q = play(p, moves, b - 1);
        let m = moves[b - 1];
        q.lemma_legal_moves_fine();
        assert(q.legal_moves().contains(m));
        let k = choose|k: int| 0 <= k < q.legal_moves().len() && q.legal_moves()[k] == m;
        assert(q.fine(q.legal_moves()[k]));
        law_castle_rights_fall(q, m, i);
    }
}

/// A position in check has a checking piece, and every legal move answers
/// the check: it moves the king; or, the check being single, it lands on
/// the checking piece, or between that piece and the king, or takes the
/// checking pawn en passant. In a double check every legal move is a move
/// of the king.
pub proof fn law_check_is_answered(p: ChessBoard, i: int)
    requires
        p.wf(),
        p.in_check(),
        0 <= i < p.legal_moves().len(),
    ensures
        p.check_bb.data != 0,
        ({
            let m = p.legal_moves()[i];
            let c = p.check_bb.data;
            ||| m.spec_source() == p.ksq()
            ||| (is_single(c) && {
                ||| m.spec_target() == lsb(c)
                ||| has_bit(crate::tables::ray_between_spec(p.ksq(), lsb(c)), m.spec_target())
                ||| (m.spec_move_type() == MoveType::EnPassant && ep_victim(
                    p.side_to_move,
                    m.spec_target(),
                ) == lsb(c))
            })
        }),
        !is_single(p.check_bb.data) ==> p.legal_moves()[i].spec_source() == p.ksq(),
{
    p.lemma_legal_moves_fine();
    assert(p.fine(p.legal_moves()[i]));
    let stm = p.side_to_move;
    let by = stm.flip();
    let k = king_square(p.piece_bbs@, stm);
    lemma_king_square(p.piece_bbs@, p.mailbox@, stm);
    lemma_king_square(p.piece_bbs@, p.mailbox@, by);
    let ek = p.piece_bbs[side_base(by)].data;
    // the kings stand apart, so the other king attacks no square of this one
    let e = king_square(p.piece_bbs@, by);
    crate::bits::lemma_single_all(0, e);
    crate::bits::lemma_ops_all(crate::leapers::king_attack_spec(k), ek);
    crate::bits::lemma_zero_iff(crate::leapers::king_attack_spec(k) & ek);
    lemma_mask_of(|x: int| crate::leapers::king_reach(k, x));
    assert(p.mailbox@[k] == Some((stm, PieceType::King)));
    assert(p.mailbox@[e] == Some((by, PieceType::King)));
    crate::leapers::lemma_king_reach_symmetric(k, e);
    assert(!crate::leapers::king_reach(k, e));
    assert forall|j: int| 0 <= j < 64 implies !has_bit(
        crate::leapers::king_attack_spec(k) & ek,
        j,
    ) by {}
}


/// A square is known by its name: the file letter gives the file and the
/// rank digit gives the rank.
pub proof fn lemma_square_name(s: int)
    requires
        0 <= s < 64,
    ensures
        crate::chessmove::file_letter(s) as u8 == 104 - s % 8,
        crate::chessmove::rank_digit(s) as u8 == 49 + s / 8,
{
}

/// Moves with the same text read alike.
pub proof fn lemma_text_tells_moves_apart(a: ChessMove, b: ChessMove)
    requires
        text_bytes(a) == text_bytes(b),
    ensures
        read_alike(a, b),
{
    crate::chessmove::lemma_decode(a);
    crate::chessmove::lemma_decode(b);
    lemma_square_name(a.spec_source());
    lemma_square_name(a.spec_target());
    lemma_square_name(b.spec_source());
    lemma_square_name(b.spec_target());
    let ta = text_bytes(a);
    let tb = text_bytes(b);
    assert(ta.len() == tb.len());
    assert(ta[0] == tb[0]);
    assert(ta[1] == tb[1]);
    assert(ta[2] == tb[2]);
    assert(ta[3] == tb[3]);
    if a.spec_piece() is Some {
        assert(ta.len() == 5);
        assert(ta[4] == tb[4]);
    }
}

/// In a list of moves that read apart, the text of a move finds that move.
pub proof fn lemma_find_move(moves: Seq<ChessMove>, j: int, i: int)
    requires
        all_read_apart(moves),
        0 <= j <= i < moves.len(),
    ensures
        find_move(moves, text_bytes(moves[i]), j) == Some(moves[i]),
    decreases i - j,
{
    if text_bytes(moves[j]) == text_bytes(moves[i]) {
        lemma_text_tells_moves_apart(moves[j], moves[i]);
        if j < i {
            assert(!read_alike(moves[j], moves[i]));
        }
    } else {
        lemma_find_move(moves, j + 1, i);
    }
}

/// The text of a generated move, looked up among the generated moves,
/// gives that move back.
pub proof fn law_text_finds_move(p: ChessBoard, i: int)
    requires
        p.structural(),
        0 <= i < capped(p.legal_moves()).len(),
    ensures
        find_move(capped(p.legal_moves()), text_bytes(capped(p.legal_moves())[i]), 0) == Some(
            capped(p.legal_moves())[i],
        ),
{
    p.law_legal_moves_read_apart();
    lemma_find_move(capped(p.legal_moves()), 0, i);
}


} // verus!
