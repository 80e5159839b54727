//! Writing a position in Forsyth-Edwards notation, and the proof that
//! reading the text gives the position back.
use vstd::prelude::*;
use crate::bits::{lemma_lsb, lsb};
use crate::bitboard::{PieceType, Side};
use crate::chessboard::ChessBoard;
use crate::fen::{
    all_digits, castling_of, castling_valid, digits_value, empty_mailbox, ep_of, fen_fields,
    is_castle_letter, is_space, lemma_token_end, piece_of_letter, placement, side_of, token_end,
    tokens,
};
use crate::setup::{ep_set, position_fault};

verus! {

/// No byte of the field is white space.
pub open spec fn no_space(f: Seq<u8>) -> bool {
    forall|i: int| 0 <= i < f.len() ==> !is_space(#[trigger] f[i])
}

/// The end of a run of bytes is found in the same place whatever stands
/// before the text.
pub proof fn lemma_token_end_shift(pre: Seq<u8>, s: Seq<u8>, i: int)
    requires
        0 <= i <= s.len(),
    ensures
        token_end(pre + s, pre.len() + i) == pre.len() + token_end(s, i),
    decreases s.len() - i,
{
    if i < s.len() {
        assert((pre + s)[pre.len() + i] == s[i]);
        if !is_space(s[i]) {
            lemma_token_end_shift(pre, s, i + 1);
        }
    }
}

/// The fields of a text are found in the same way whatever stands before
/// the place where the search starts.
pub proof fn lemma_tokens_shift(pre: Seq<u8>, s: Seq<u8>, i: int)
    requires
        0 <= i <= s.len(),
    ensures
        tokens(pre + s, pre.len() + i) == tokens(s, i),
    decreases s.len() - i,
{
    if i < s.len() {
        assert((pre + s)[pre.len() + i] == s[i]);
        if is_space(s[i]) {
            lemma_tokens_shift(pre, s, i + 1);
        } else {
            lemma_token_end(s, i);
            lemma_token_end_shift(pre, s, i);
            let e = token_end(s, i);
            lemma_tokens_shift(pre, s, e);
            assert((pre + s).subrange(pre.len() + i, pre.len() + e) =~= s.subrange(i, e));
        }
    }
}

/// A field without white space, followed by nothing or by white space, is
/// the first field of the text.
pub proof fn lemma_tokens_first(f: Seq<u8>, rest: Seq<u8>)
    requires
        f.len() > 0,
        no_space(f),
        rest.len() == 0 || is_space(rest[0]),
    ensures
        tokens(f + rest, 0) == seq![f] + tokens(rest, 0),
{
    let s = f + rest;
    assert(s[0] == f[0]);
    lemma_run_end(f, rest, 0);
    lemma_tokens_shift(f, rest, 0);
    assert(s.subrange(0, f.len() as int) =~= f);
}

/// Inside a field without white space the run goes on to the end of the
/// field.
proof fn lemma_run_end(f: Seq<u8>, rest: Seq<u8>, i: int)
    requires
        0 <= i <= f.len(),
        no_space(f),
        rest.len() == 0 || is_space(rest[0]),
    ensures
        token_end(f + rest, i) == f.len(),
    decreases f.len() - i,
{
    let s = f + rest;
    if i < f.len() {
        assert(s[i] == f[i]);
        lemma_run_end(f, rest, i + 1);
    } else if rest.len() > 0 {
        assert(s[i] == rest[0]);
    }
}

/// A field, a space and more text: the field is the first field, and the
/// others are the fields of the text after the space.
pub proof fn lemma_tokens_field(f: Seq<u8>, rest: Seq<u8>)
    requires
        f.len() > 0,
        no_space(f),
    ensures
        tokens(f + seq![32u8] + rest, 0) == seq![f] + tokens(rest, 0),
{
    let tail = seq![32u8] + rest;
    assert(tail[0] == 32u8);
    lemma_tokens_first(f, tail);
    assert(f + seq![32u8] + rest =~= f + tail);
    // the space is passed over
    lemma_tokens_shift(seq![32u8], rest, 0);
    assert(tokens(tail, 0) == tokens(tail, 1));
}

/// The decimal digits of a number.
pub open spec fn decimal_text(n: nat) -> Seq<u8>
    decreases n,
{
    if n < 10 {
        seq![(48 + n) as u8]
    } else {
        decimal_text(n / 10).push((48 + n % 10) as u8)
    }
}

/// The number that a prefix of digits writes does not depend on what
/// follows the prefix.
pub proof fn lemma_digits_prefix(a: Seq<u8>, b: Seq<u8>, n: int)
    requires
        0 <= n <= a.len(),
    ensures
        digits_value(a + b, n) == digits_value(a, n),
    decreases n,
{
    if n > 0 {
        lemma_digits_prefix(a, b, n - 1);
        assert((a + b)[n - 1] == a[n - 1]);
    }
}

/// The digits of a number are digits, and they write the number.
pub proof fn lemma_decimal_text(n: nat)
    ensures
        all_digits(decimal_text(n)),
        digits_value(decimal_text(n), decimal_text(n).len() as int) == n,
        no_space(decimal_text(n)),
        decimal_text(n).len() > 0,
    decreases n,
{
    let t = decimal_text(n);
    if n < 10 {
        assert(t[0] == (48 + n) as u8);
        assert(digits_value(t, 0) == 0);
        assert(digits_value(t, 1) == 10 * digits_value(t, 0) + (t[0] - 48));
    } else {
        let head = decimal_text(n / 10);
        lemma_decimal_text(n / 10);
        let d = (48 + n % 10) as u8;
        assert(t =~= head + seq![d]);
        lemma_digits_prefix(head, seq![d], head.len() as int);
        assert(t[head.len() as int] == d);
        assert forall|i: int| 0 <= i < t.len() implies 48 <= #[trigger] t[i] <= 57 by {
            if i < head.len() {
                assert(t[i] == head[i]);
            }
        }
    }
}

/// The castling field of a set of rights: the letters of the rights that
/// are held, in the order `KQkq`, or `-` when none is held.
pub open spec fn castling_text(castle: Seq<bool>) -> Seq<u8> {
    if !castle[0] && !castle[1] && !castle[2] && !castle[3] {
        seq![45u8]
    } else {
        (if castle[0] {
            seq![75u8]
        } else {
            Seq::empty()
        }) + (if castle[1] {
            seq![81u8]
        } else {
            Seq::empty()
        }) + (if castle[2] {
            seq![107u8]
        } else {
            Seq::empty()
        }) + (if castle[3] {
            seq![113u8]
        } else {
            Seq::empty()
        })
    }
}

/// What a joined sequence holds is what its parts hold.
pub proof fn lemma_join_holds(a: Seq<u8>, b: Seq<u8>, v: u8)
    ensures
        (a + b).contains(v) <==> a.contains(v) || b.contains(v),
{
    if a.contains(v) {
        let i = choose|i: int| 0 <= i < a.len() && a[i] == v;
        assert((a + b)[i] == v);
    }
    if b.contains(v) {
        let i = choose|i: int| 0 <= i < b.len() && b[i] == v;
        assert((a + b)[a.len() + i] == v);
    }
    if (a + b).contains(v) {
        let i = choose|i: int| 0 <= i < (a + b).len() && (a + b)[i] == v;
        if i < a.len() {
            assert(a[i] == v);
        } else {
            assert(b[i - a.len()] == v);
        }
    }
}

/// What a field of at most one letter holds.
proof fn lemma_part_holds(flag: bool, letter: u8, v: u8)
    ensures
        (if flag {
            seq![letter]
        } else {
            Seq::<u8>::empty()
        }).contains(v) <==> flag && v == letter,
{
    let s: Seq<u8> = if flag {
        seq![letter]
    } else {
        Seq::empty()
    };
    if flag {
        assert(s[0] == letter);
    }
}

/// The castling field of a set of rights is read as that set.
pub proof fn lemma_castling_text(castle: Seq<bool>)
    requires
        castle.len() == 4,
    ensures
        castling_valid(castling_text(castle)),
        castling_of(castling_text(castle)) == castle,
        no_space(castling_text(castle)),
        castling_text(castle).len() > 0,
{
    let t = castling_text(castle);
    let a: Seq<u8> = if castle[0] {
        seq![75u8]
    } else {
        Seq::empty()
    };
    let b: Seq<u8> = if castle[1] {
        seq![81u8]
    } else {
        Seq::empty()
    };
    let c: Seq<u8> = if castle[2] {
        seq![107u8]
    } else {
        Seq::empty()
    };
    let d: Seq<u8> = if castle[3] {
        seq![113u8]
    } else {
        Seq::empty()
    };
    if !castle[0] && !castle[1] && !castle[2] && !castle[3] {
        assert(t[0] == 45u8);
        assert forall|v: u8| t.contains(v) implies v == 45u8 by {
            let i = choose|i: int| 0 <= i < t.len() && t[i] == v;
        }
        assert(castling_of(t) =~= castle);
    } else {
        assert forall|v: u8| t.contains(v) <==> ((castle[0] && v == 75) || (castle[1] && v == 81)
            || (castle[2] && v == 107) || (castle[3] && v == 113)) by {
            lemma_join_holds(a, b, v);
            lemma_join_holds(a + b, c, v);
            lemma_join_holds(a + b + c, d, v);
            lemma_part_holds(castle[0], 75, v);
            lemma_part_holds(castle[1], 81, v);
            lemma_part_holds(castle[2], 107, v);
            lemma_part_holds(castle[3], 113, v);
        }
        assert forall|i: int| 0 <= i < t.len() implies is_castle_letter(#[trigger] t[i]) by {
            assert(t.contains(t[i]));
        }
        assert(castling_of(t) =~= castle);
    }
}

/// The en-passant field of an en-passant set: the name of its square, or
/// `-` for the empty set.
pub open spec fn ep_text(ep: u64) -> Seq<u8> {
    if ep == 0 {
        seq![45u8]
    } else {
        seq![(104 - lsb(ep) % 8) as u8, (49 + lsb(ep) / 8) as u8]
    }
}

/// The square that an en-passant set holds, if any.
pub open spec fn ep_square(ep: u64) -> Option<usize> {
    if ep == 0 {
        None
    } else {
        Some(lsb(ep) as usize)
    }
}

/// The en-passant field of a set is read as the square of the set.
pub proof fn lemma_ep_text(ep: u64)
    ensures
        ep_of(ep_text(ep)) == Some(ep_square(ep)),
        no_space(ep_text(ep)),
        ep_text(ep).len() > 0,
{
    if ep != 0 {
        lemma_lsb(ep);
    }
}

/// The side field: `w` or `b`.
pub open spec fn side_text(side: Side) -> Seq<u8> {
    match side {
        Side::White => seq![119u8],
        Side::Black => seq![98u8],
    }
}

/// The letter of a piece: upper case for White, lower case for Black.
pub open spec fn letter_of(p: (Side, PieceType)) -> u8 {
    match p.0 {
        Side::White => match p.1 {
            PieceType::King => 75u8,
            PieceType::Queen => 81u8,
            PieceType::Knight => 78u8,
            PieceType::Bishop => 66u8,
            PieceType::Rook => 82u8,
            PieceType::Pawn => 80u8,
        },
        Side::Black => match p.1 {
            PieceType::King => 107u8,
            PieceType::Queen => 113u8,
            PieceType::Knight => 110u8,
            PieceType::Bishop => 98u8,
            PieceType::Rook => 114u8,
            PieceType::Pawn => 112u8,
        },
    }
}

/// The digit that stands for a run of empty squares; nothing for no run.
pub open spec fn run_text(run: int) -> Seq<u8> {
    if run > 0 {
        seq![(48 + run) as u8]
    } else {
        Seq::empty()
    }
}

/// The run of empty squares after square number `c`, when `run` empty
/// squares of the rank have gone before it.
pub open spec fn run_after(mailbox: Seq<Option<(Side, PieceType)>>, c: int, run: int) -> int {
    match mailbox[63 - c] {
        None => run + 1,
        Some(_) => 0,
    }
}

/// The run of empty squares that the next square starts with: none at the
/// start of a rank.
pub open spec fn next_run(mailbox: Seq<Option<(Side, PieceType)>>, c: int, run: int) -> int {
    if c % 8 == 7 {
        0
    } else {
        run_after(mailbox, c, run)
    }
}

/// What is written for square number `c`, counted from a8 along the
/// ranks: for a piece, the digit of the run before it and its letter; at
/// the end of a rank, the digit of the run that ends there and, but for
/// the last rank, a slash.
pub open spec fn cell_text(mailbox: Seq<Option<(Side, PieceType)>>, c: int, run: int) -> Seq<u8> {
    let here: Seq<u8> = match mailbox[63 - c] {
        None => Seq::empty(),
        Some(p) => run_text(run).push(letter_of(p)),
    };
    if c % 8 == 7 {
        let closed = here + run_text(run_after(mailbox, c, run));
        if c < 63 {
            closed.push(47u8)
        } else {
            closed
        }
    } else {
        here
    }
}

/// The placement field from square number `c` on.
pub open spec fn placement_text(
    mailbox: Seq<Option<(Side, PieceType)>>,
    c: int,
    run: int,
) -> Seq<u8>
    decreases 64 - c,
{
    if c < 0 || c >= 64 {
        Seq::empty()
    } else {
        cell_text(mailbox, c, run) + placement_text(mailbox, c + 1, next_run(mailbox, c, run))
    }
}

/// What is written for a square holds no white space.
proof fn lemma_cell_plain(mailbox: Seq<Option<(Side, PieceType)>>, c: int, run: int)
    requires
        0 <= c < 64,
        0 <= run <= c % 8,
    ensures
        no_space(cell_text(mailbox, c, run)),
        c % 8 == 7 ==> cell_text(mailbox, c, run).len() > 0,
        0 <= next_run(mailbox, c, run),
        c + 1 < 64 ==> next_run(mailbox, c, run) <= (c + 1) % 8,
{
    let t = cell_text(mailbox, c, run);
    let here: Seq<u8> = match mailbox[63 - c] {
        None => Seq::empty(),
        Some(p) => run_text(run).push(letter_of(p)),
    };
    assert(no_space(here)) by {
        assert forall|i: int| 0 <= i < here.len() implies !is_space(#[trigger] here[i]) by {}
    }
    if c % 8 == 7 {
        let r = run_text(run_after(mailbox, c, run));
        let closed = here + r;
        assert forall|i: int| 0 <= i < closed.len() implies !is_space(#[trigger] closed[i]) by {
            if i < here.len() {
                assert(closed[i] == here[i]);
            } else {
                assert(closed[i] == r[i - here.len()]);
            }
        }
        assert forall|i: int| 0 <= i < t.len() implies !is_space(#[trigger] t[i]) by {
            if i < closed.len() {
                assert(t[i] == closed[i]);
            }
        }
    }
}

/// The placement field holds no white space and is not empty.
pub proof fn lemma_placement_text_plain(mailbox: Seq<Option<(Side, PieceType)>>, c: int, run: int)
    requires
        0 <= c <= 64,
        0 <= run,
        c < 64 ==> run <= c % 8,
    ensures
        no_space(placement_text(mailbox, c, run)),
        c < 64 ==> placement_text(mailbox, c, run).len() > 0,
    decreases 64 - c,
{
    if c < 64 {
        lemma_cell_plain(mailbox, c, run);
        let cell = cell_text(mailbox, c, run);
        let n = next_run(mailbox, c, run);
        lemma_placement_text_plain(mailbox, c + 1, n);
        let tail = placement_text(mailbox, c + 1, n);
        let t = cell + tail;
        assert forall|i: int| 0 <= i < t.len() implies !is_space(#[trigger] t[i]) by {
            if i < cell.len() {
                assert(t[i] == cell[i]);
            } else {
                assert(t[i] == tail[i - cell.len()]);
            }
        }
    }
}

/// What has been read of the field so far fits the squares from `c` on:
/// the squares before `c` are on the map, those of the present run among
/// them are empty, and the others are still empty on the map.
pub open spec fn read_so_far(
    mailbox: Seq<Option<(Side, PieceType)>>,
    acc: Seq<Option<(Side, PieceType)>>,
    c: int,
    run: int,
) -> bool {
    &&& mailbox.len() == 64
    &&& acc.len() == 64
    &&& 0 <= c <= 64
    &&& 0 <= run
    &&& (c < 64 ==> run <= c % 8)
    &&& (c == 64 ==> run == 0)
    &&& forall|sq: int| 63 - c < sq < 64 ==> #[trigger] acc[sq] == mailbox[sq]
    &&& forall|sq: int| 0 <= sq <= 63 - c ==> #[trigger] acc[sq] is None
}

/// The reader is at the start of a rank only right after a slash.
pub open spec fn after_slash(field: Seq<u8>, i: int, pc: int) -> bool {
    pc % 8 == 0 && pc > 0 && pc < 64 ==> i > 0 && field[i - 1] == 47u8
}

/// Reading a digit passes over that many squares.
proof fn lemma_read_digit(
    field: Seq<u8>,
    i: int,
    pc: int,
    acc: Seq<Option<(Side, PieceType)>>,
    d: int,
)
    requires
        0 <= i < field.len(),
        0 <= pc < 64,
        1 <= d <= 8,
        field[i] == (48 + d) as u8,
        pc % 8 + d <= 8,
        after_slash(field, i, pc),
    ensures
        placement(field, i, pc, acc) == placement(field, i + 1, pc + d, acc),
{
}

/// Reading a letter puts its piece on the next square.
proof fn lemma_read_letter(
    field: Seq<u8>,
    i: int,
    pc: int,
    acc: Seq<Option<(Side, PieceType)>>,
    p: (Side, PieceType),
)
    requires
        0 <= i < field.len(),
        0 <= pc < 64,
        field[i] == letter_of(p),
        after_slash(field, i, pc),
    ensures
        placement(field, i, pc, acc) == placement(
            field,
            i + 1,
            pc + 1,
            acc.update(63 - pc, Some(p)),
        ),
{
    assert(piece_of_letter(letter_of(p)) == Some(p));
}

/// Reading a slash between two ranks changes nothing.
proof fn lemma_read_slash(field: Seq<u8>, i: int, pc: int, acc: Seq<Option<(Side, PieceType)>>)
    requires
        0 < i < field.len(),
        0 < pc < 64,
        pc % 8 == 0,
        field[i] == 47u8,
        field[i - 1] != 47u8,
    ensures
        placement(field, i, pc, acc) == placement(field, i + 1, pc, acc),
{
}

/// The square map after square number `c` has been read.
pub open spec fn map_after(
    mailbox: Seq<Option<(Side, PieceType)>>,
    acc: Seq<Option<(Side, PieceType)>>,
    c: int,
) -> Seq<Option<(Side, PieceType)>> {
    match mailbox[63 - c] {
        None => acc,
        Some(p) => acc.update(63 - c, Some(p)),
    }
}

/// Reading what was written for one square brings the reader to the next
/// square.
proof fn lemma_read_cell(
    mailbox: Seq<Option<(Side, PieceType)>>,
    c: int,
    run: int,
    field: Seq<u8>,
    i: int,
    acc: Seq<Option<(Side, PieceType)>>,
)
    requires
        read_so_far(mailbox, acc, c, run),
        c < 64,
        0 <= i,
        i + cell_text(mailbox, c, run).len() <= field.len(),
        field.subrange(i, i + cell_text(mailbox, c, run).len()) == cell_text(mailbox, c, run),
        after_slash(field, i, c - run),
    ensures
        placement(field, i, c - run, acc) == placement(
            field,
            i + cell_text(mailbox, c, run).len(),
            c + 1 - next_run(mailbox, c, run),
            map_after(mailbox, acc, c),
        ),
        read_so_far(mailbox, map_after(mailbox, acc, c), c + 1, next_run(mailbox, c, run)),
        after_slash(
            field,
            i + cell_text(mailbox, c, run).len(),
            c + 1 - next_run(mailbox, c, run),
        ),
{
    let cell = cell_text(mailbox, c, run);
    let sq = 63 - c;
    assert forall|k: int| 0 <= k < cell.len() implies field[i + k] == cell[k] by {
        assert(field.subrange(i, i + cell.len())[k] == field[i + k]);
    }
    match mailbox[sq] {
        None => {
            if c % 8 == 7 {
                let d = run + 1;
                assert(cell[0] == (48 + d) as u8);
                lemma_read_digit(field, i, c - run, acc, d);
                if c < 63 {
                    assert(cell[1] == 47u8);
                    lemma_read_slash(field, i + 1, c + 1, acc);
                }
            }
        },
        Some(p) => {
            let acc2 = acc.update(sq, Some(p));
            let j = if run > 0 {
                i + 1
            } else {
                i
            };
            if run > 0 {
                assert(cell[0] == (48 + run) as u8);
                lemma_read_digit(field, i, c - run, acc, run);
                assert(cell[1] == letter_of(p));
            } else {
                assert(cell[0] == letter_of(p));
            }
            lemma_read_letter(field, j, c, acc, p);
            if c % 8 == 7 && c < 63 {
                assert(cell[j - i + 1] == 47u8);
                assert(letter_of(p) != 47u8);
                lemma_read_slash(field, j + 1, c + 1, acc2);
            }
        },
    }
}

/// Reading the placement field that was written gives the square map that
/// it was written from.
pub proof fn lemma_placement_round_trip(
    mailbox: Seq<Option<(Side, PieceType)>>,
    c: int,
    run: int,
    field: Seq<u8>,
    i: int,
    acc: Seq<Option<(Side, PieceType)>>,
)
    requires
        read_so_far(mailbox, acc, c, run),
        0 <= i,
        i + placement_text(mailbox, c, run).len() == field.len(),
        field.subrange(i, field.len() as int) == placement_text(mailbox, c, run),
        after_slash(field, i, c - run),
    ensures
        placement(field, i, c - run, acc) == Some(mailbox),
    decreases 64 - c,
{
    if c >= 64 {
        assert(acc =~= mailbox);
    } else {
        let cell = cell_text(mailbox, c, run);
        let n = next_run(mailbox, c, run);
        let tail = placement_text(mailbox, c + 1, n);
        let text = placement_text(mailbox, c, run);
        assert(text == cell + tail);
        assert(field.subrange(i, i + cell.len()) =~= cell) by {
            assert forall|k: int| 0 <= k < cell.len() implies field.subrange(i, i + cell.len())[k]
                == cell[k] by {
                assert(field.subrange(i, field.len() as int)[k] == text[k]);
            }
        }
        assert(field.subrange(i + cell.len(), field.len() as int) =~= tail) by {
            assert forall|k: int| 0 <= k < tail.len() implies field.subrange(
                i + cell.len(),
                field.len() as int,
            )[k] == tail[k] by {
                assert(field.subrange(i, field.len() as int)[cell.len() + k] == text[cell.len()
                    + k]);
            }
        }
        lemma_read_cell(mailbox, c, run, field, i, acc);
        lemma_placement_round_trip(
            mailbox,
            c + 1,
            n,
            field,
            i + cell.len(),
            map_after(mailbox, acc, c),
        );
    }
}

/// A field, a space and the text that follows.
pub open spec fn field_then(f: Seq<u8>, rest: Seq<u8>) -> Seq<u8> {
    f + seq![32u8] + rest
}

impl ChessBoard {
    /// The six fields of the text of the position.
    pub open spec fn fen_parts(&self) -> Seq<Seq<u8>> {
        seq![
            placement_text(self.mailbox@, 0, 0),
            side_text(self.side_to_move),
            castling_text(self.castle_bools@),
            ep_text(self.enpassant_bb.data),
            decimal_text(self.half_move_clock as nat),
            decimal_text(self.full_move_counter as nat),
        ]
    }

    /// The position in Forsyth-Edwards notation: the six fields, one
    /// space between two of them.
    pub open spec fn fen_text(&self) -> Seq<u8> {
        let p = self.fen_parts();
        field_then(p[0], field_then(p[1], field_then(p[2], field_then(p[3], field_then(p[4], p[5])))))
    }

    /// The text of the position falls into its six fields.
    pub proof fn lemma_fen_tokens(&self)
        requires
            self.structural(),
        ensures
            tokens(self.fen_text(), 0) == self.fen_parts(),
    {
        let p = self.fen_parts();
        lemma_placement_text_plain(self.mailbox@, 0, 0);
        lemma_castling_text(self.castle_bools@);
        lemma_ep_text(self.enpassant_bb.data);
        lemma_decimal_text(self.half_move_clock as nat);
        lemma_decimal_text(self.full_move_counter as nat);
        assert(no_space(p[1]));
        lemma_six_fields(p[0], p[1], p[2], p[3], p[4], p[5]);
        assert(seq![p[0], p[1], p[2], p[3], p[4], p[5]] =~= p);
    }

    /// Reading the text of a position gives the position back: the text
    /// is read without a fault, and what it says is what the position
    /// holds.
    pub proof fn law_fen_round_trip(&self)
        requires
            self.wf(),
        ensures
            fen_fields(self.fen_text()) matches Ok(f) && self.shows(f),
    {
        self.lemma_fen_tokens();
        let t = self.fen_parts();
        let mb = self.mailbox@;
        assert(read_so_far(mb, empty_mailbox(), 0, 0));
        assert(t[0].subrange(0, t[0].len() as int) =~= t[0]);
        lemma_placement_round_trip(mb, 0, 0, t[0], 0, empty_mailbox());
        lemma_castling_text(self.castle_bools@);
        lemma_ep_text(self.enpassant_bb.data);
        lemma_decimal_text(self.half_move_clock as nat);
        lemma_decimal_text(self.full_move_counter as nat);
        assert(side_of(t[1]) == Some(self.side_to_move));
        self.lemma_parts_fit();
    }

    /// The parts of a position of which the invariants hold have no fault.
    proof fn lemma_parts_fit(&self)
        requires
            self.wf(),
        ensures
            position_fault(
                self.mailbox@,
                self.castle_bools@,
                ep_square(self.enpassant_bb.data),
                self.side_to_move,
            ) is None,
            ep_set(ep_square(self.enpassant_bb.data)) == self.enpassant_bb.data,
    {
        if self.enpassant_bb.data != 0 {
            lemma_lsb(self.enpassant_bb.data);
        }
    }
}

/// Six fields joined by single spaces are the six fields of the text.
pub proof fn lemma_six_fields(
    a: Seq<u8>,
    b: Seq<u8>,
    c: Seq<u8>,
    d: Seq<u8>,
    e: Seq<u8>,
    f: Seq<u8>,
)
    requires
        a.len() > 0 && no_space(a),
        b.len() > 0 && no_space(b),
        c.len() > 0 && no_space(c),
        d.len() > 0 && no_space(d),
        e.len() > 0 && no_space(e),
        f.len() > 0 && no_space(f),
    ensures
        tokens(
            field_then(a, field_then(b, field_then(c, field_then(d, field_then(e, f))))),
            0,
        ) == seq![a, b, c, d, e, f],
{
    lemma_tokens_first(f, Seq::empty());
    assert(f + Seq::<u8>::empty() =~= f);
    assert(tokens(f, 0) =~= seq![f]);
    let r4 = field_then(e, f);
    lemma_tokens_field(e, f);
    assert(tokens(r4, 0) =~= seq![e, f]);
    let r3 = field_then(d, r4);
    lemma_tokens_field(d, r4);
    assert(tokens(r3, 0) =~= seq![d, e, f]);
    let r2 = field_then(c, r3);
    lemma_tokens_field(c, r3);
    assert(tokens(r2, 0) =~= seq![c, d, e, f]);
    let r1 = field_then(b, r2);
    lemma_tokens_field(b, r2);
    assert(tokens(r1, 0) =~= seq![b, c, d, e, f]);
    lemma_tokens_field(a, r1);
    assert(tokens(field_then(a, r1), 0) =~= seq![a, b, c, d, e, f]);
}

/// The letter of a piece.
pub fn piece_letter(p: (Side, PieceType)) -> (r: u8)
    ensures
        r == letter_of(p),
{
    match p.0 {
        Side::White => match p.1 {
            PieceType::King => 75,
            PieceType::Queen => 81,
            PieceType::Knight => 78,
            PieceType::Bishop => 66,
            PieceType::Rook => 82,
            PieceType::Pawn => 80,
        },
        Side::Black => match p.1 {
            PieceType::King => 107,
            PieceType::Queen => 113,
            PieceType::Knight => 110,
            PieceType::Bishop => 98,
            PieceType::Rook => 114,
            PieceType::Pawn => 112,
        },
    }
}

/// Appends the decimal digits of `n`.
pub fn push_decimal(out: &mut Vec<u8>, n: usize)
    ensures
        final(out)@ == old(out)@ + decimal_text(n as nat),
    decreases n,
{
    if n >= 10 {
        push_decimal(out, n / 10);
    }
    out.push(48 + (n % 10) as u8);
    proof {
        if n >= 10 {
            assert(out@ =~= old(out)@ + decimal_text(n as nat));
        } else {
            assert(out@ =~= old(out)@ + decimal_text(n as nat));
        }
    }
}

/// Appends the placement field of a square map.
pub fn push_placement(out: &mut Vec<u8>, mailbox: &[Option<(Side, PieceType)>; 64])
    ensures
        final(out)@ == old(out)@ + placement_text(mailbox@, 0, 0),
{
    let mut c: usize = 0;
    let mut run: u8 = 0;
    let ghost start = out@;
    let ghost total = placement_text(mailbox@, 0, 0);
    assert(out@ + total =~= start + total);
    while c < 64
        invariant
            c <= 64,
            c < 64 ==> run <= c % 8,
            out@ + placement_text(mailbox@, c as int, run as int) == start + total,
        decreases 64 - c,
    {
        let ghost before = out@;
        let ghost cell = cell_text(mailbox@, c as int, run as int);
        let ghost tail = placement_text(
            mailbox@,
            c + 1,
            next_run(mailbox@, c as int, run as int),
        );
        assert(placement_text(mailbox@, c as int, run as int) == cell + tail);
        match mailbox[63 - c] {
            None => {
                run = run + 1;
            },
            Some(p) => {
                if run > 0 {
                    out.push(48 + run);
                }
                out.push(piece_letter(p));
                run = 0;
            },
        }
        if c % 8 == 7 {
            if run > 0 {
                out.push(48 + run);
            }
            if c < 63 {
                out.push(47);
            }
            run = 0;
        }
        assert(out@ =~= before + cell);
        assert((before + cell) + tail =~= before + (cell + tail));
        c += 1;
    }
    assert(out@ + Seq::<u8>::empty() =~= out@);
}

/// Appends the castling field of a set of rights.
pub fn push_castling(out: &mut Vec<u8>, castle: &[bool; 4])
    ensures
        final(out)@ == old(out)@ + castling_text(castle@),
{
    if !castle[0] && !castle[1] && !castle[2] && !castle[3] {
        out.push(45);
    } else {
        if castle[0] {
            out.push(75);
        }
        if castle[1] {
            out.push(81);
        }
        if castle[2] {
            out.push(107);
        }
        if castle[3] {
            out.push(113);
        }
    }
    assert(out@ =~= old(out)@ + castling_text(castle@));
}

/// Appends the en-passant field of an en-passant set.
pub fn push_ep(out: &mut Vec<u8>, ep: crate::bitboard::BitBoard)
    ensures
        final(out)@ == old(out)@ + ep_text(ep.data),
{
    match ep.lsb_index() {
        None => {
            out.push(45);
        },
        Some(e) => {
            out.push(104 - (e % 8) as u8);
            out.push(49 + (e / 8) as u8);
        },
    }
    assert(out@ =~= old(out)@ + ep_text(ep.data));
}

/// Appends the side field and the spaces around it.
pub fn push_side(out: &mut Vec<u8>, side: Side)
    ensures
        final(out)@ == old(out)@ + seq![32u8] + side_text(side) + seq![32u8],
{
    out.push(32);
    match side {
        Side::White => out.push(119),
        Side::Black => out.push(98),
    }
    out.push(32);
    assert(out@ =~= old(out)@ + seq![32u8] + side_text(side) + seq![32u8]);
}

/// Six fields written one after the other with a space between two of
/// them are the text that [`field_then`] builds.
pub proof fn lemma_join_six(
    a: Seq<u8>,
    b: Seq<u8>,
    c: Seq<u8>,
    d: Seq<u8>,
    e: Seq<u8>,
    f: Seq<u8>,
)
    ensures
        a + seq![32u8] + b + seq![32u8] + c + seq![32u8] + d + seq![32u8] + e + seq![32u8] + f
            == field_then(a, field_then(b, field_then(c, field_then(d, field_then(e, f))))),
{
    let sp = seq![32u8];
    let r4 = field_then(e, f);
    let r3 = field_then(d, r4);
    let r2 = field_then(c, r3);
    let r1 = field_then(b, r2);
    assert(d + sp + e + sp + f =~= r3);
    assert(c + sp + (d + sp + e + sp + f) =~= c + sp + d + sp + e + sp + f);
    assert(c + sp + d + sp + e + sp + f =~= r2);
    assert(b + sp + (c + sp + d + sp + e + sp + f) =~= b + sp + c + sp + d + sp + e + sp + f);
    assert(b + sp + c + sp + d + sp + e + sp + f =~= r1);
    assert(a + sp + (b + sp + c + sp + d + sp + e + sp + f) =~= a + sp + b + sp + c + sp + d + sp
        + e + sp + f);
}

impl ChessBoard {
    /// The position in Forsyth-Edwards notation, as bytes.
    pub fn to_fen_bytes(&self) -> (r: Vec<u8>)
        ensures
            r@ == self.fen_text(),
    {
        let mut out: Vec<u8> = Vec::new();
        let ghost p = self.fen_parts();
        let ghost sp = seq![32u8];
        push_placement(&mut out, &self.mailbox);
        assert(out@ =~= p[0]);
        push_side(&mut out, self.side_to_move);
        push_castling(&mut out, &self.castle_bools);
        out.push(32);
        assert(out@ =~= p[0] + sp + p[1] + sp + p[2] + sp);
        push_ep(&mut out, self.enpassant_bb);
        out.push(32);
        assert(out@ =~= p[0] + sp + p[1] + sp + p[2] + sp + p[3] + sp);
        push_decimal(&mut out, self.half_move_clock);
        out.push(32);
        assert(out@ =~= p[0] + sp + p[1] + sp + p[2] + sp + p[3] + sp + p[4] + sp);
        push_decimal(&mut out, self.full_move_counter);
        proof {
            lemma_join_six(p[0], p[1], p[2], p[3], p[4], p[5]);
        }
        out
    }

    /// The position in Forsyth-Edwards notation: character `i` of the
    /// text is byte `i` of [`Self::fen_text`].
    pub fn to_fen(&self) -> (r: String)
        ensures
            r@.len() == self.fen_text().len(),
            forall|i: int| 0 <= i < r@.len() ==> r@[i] == self.fen_text()[i] as char,
    {
        let bytes = self.to_fen_bytes();
        let mut s = String::new();
        let mut i: usize = 0;
        while i < bytes.len()
            invariant
                i <= bytes.len(),
                bytes@ == self.fen_text(),
                s@.len() == i,
                forall|k: int| 0 <= k < i ==> s@[k] == bytes@[k] as char,
            decreases bytes.len() - i,
        {
            s.push(bytes[i] as char);
            i += 1;
        }
        s
    }
}

} // verus!
