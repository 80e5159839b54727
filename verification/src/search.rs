//! Exploring the tree of legal moves: the node count used to validate the
//! generator, and a fixed-depth negamax search with alpha-beta pruning.
use vstd::prelude::*;
use crate::bitboard::{PieceType, Side};
use crate::chessboard::{attacked_spec, king_square, lemma_king_square, ChessBoard};
use crate::chessmove::{ChessMove};
use crate::movegen::capped;
use crate::tables::AttackTables;

verus! {

/// Material value of what stands on a square, counted for White.
pub open spec fn entry_value(entry: Option<(Side, PieceType)>) -> int {
    match entry {
        None => 0,
        Some(p) => {
            let v = match p.1 {
                PieceType::King => 100int,
                PieceType::Queen => 90int,
                PieceType::Knight => 30int,
                PieceType::Bishop => 35int,
                PieceType::Rook => 50int,
                PieceType::Pawn => 10int,
            };
            match p.0 {
                Side::White => v,
                Side::Black => -v,
            }
        },
    }
}

/// Sum of the material values of the first `n` squares.
pub open spec fn material(mailbox: Seq<Option<(Side, PieceType)>>, n: int) -> int
    decreases n,
{
    if n <= 0 {
        0
    } else {
        material(mailbox, n - 1) + entry_value(mailbox[n - 1])
    }
}

/// The score that stands for "no move tried yet": below every other score.
pub open spec fn lowest_score() -> int {
    isize::MIN + 1
}

/// The score of the side to move when it is mated with `depth` plies of the
/// search left: half way down to the lowest score, and the lower, the more
/// plies are left.
pub open spec fn mate_score(depth: nat) -> int {
    -(isize::MAX / 2) - depth
}

/// The deepest search that the scores have room for.
pub const MAX_DEPTH: usize = 0x3fff_ffff;

impl ChessBoard {
    /// Material balance, counted for White.
    pub open spec fn eval_spec(&self) -> int {
        material(self.mailbox@, 64)
    }

    /// Material balance, counted for the side to move.
    pub open spec fn eval_for_mover(&self) -> int {
        match self.side_to_move {
            Side::White => self.eval_spec(),
            Side::Black => -self.eval_spec(),
        }
    }

    /// The king of the side to move is attacked.
    pub open spec fn in_check(&self) -> bool {
        attacked_spec(
            self.piece_bbs@,
            king_square(self.piece_bbs@, self.side_to_move),
            self.side_to_move.flip(),
        )
    }

    /// Number of leaves of the tree of legal moves, `depth` plies deep.
    pub open spec fn perft_spec(&self, depth: nat) -> nat
        decreases depth, 0nat, 0nat,
    {
        if depth == 0 {
            1
        } else {
            self.perft_sum(capped(self.legal_moves()), 0, (depth - 1) as nat)
        }
    }

    /// Sum, over the moves from position `i` on, of the number of leaves
    /// `depth` plies below the position after the move.
    pub open spec fn perft_sum(&self, moves: Seq<ChessMove>, i: int, depth: nat) -> nat
        decreases depth, 1nat, moves.len() - i,
    {
        if i < 0 || i >= moves.len() {
            0
        } else {
            self.successor(moves[i]).perft_spec(depth) + self.perft_sum(moves, i + 1, depth)
        }
    }

    /// Value and best move of the position for the side to move, by
    /// negamax to `depth` plies within the window from `alpha` to `beta`.
    ///
    /// At depth zero the value is the material balance. Without a legal
    /// move it is the mate score in check and zero otherwise. Else every
    /// move is tried in the order of the generator: the value is the
    /// greatest negated value of a reply, a move that lifts the value above
    /// `alpha` becomes the best move and lifts `alpha`, and the moves that
    /// follow are cut off once `alpha` reaches `beta`.
    pub open spec fn negamax_spec(&self, alpha: int, beta: int, depth: nat) -> (int, Option<
        ChessMove,
    >)
        decreases depth, 1nat, 0nat,
    {
        if depth == 0 {
            (self.eval_for_mover(), None)
        } else {
            let moves = capped(self.legal_moves());
            if moves.len() == 0 {
                (
                    if self.in_check() {
                        mate_score(depth)
                    } else {
                        0
                    },
                    None,
                )
            } else {
                self.negamax_from(moves, 0, alpha, beta, depth, lowest_score(), None)
            }
        }
    }

    /// The rest of the loop over the moves, from move `i` on, with the
    /// value and the best move found so far.
    pub open spec fn negamax_from(
        &self,
        moves: Seq<ChessMove>,
        i: int,
        alpha: int,
        beta: int,
        depth: nat,
        value: int,
        best: Option<ChessMove>,
    ) -> (int, Option<ChessMove>)
        decreases depth, 0nat, moves.len() - i,
    {
        if i < 0 || i >= moves.len() || depth == 0 {
            (value, best)
        } else {
            let reply = -self.successor(moves[i]).negamax_spec(-beta, -alpha, (depth - 1) as nat).0;
            let value2 = if reply > value {
                reply
            } else {
                value
            };
            let alpha2 = if value2 > alpha {
                value2
            } else {
                alpha
            };
            let best2 = if value2 > alpha {
                Some(moves[i])
            } else {
                best
            };
            if alpha2 >= beta {
                (value2, best2)
            } else {
                self.negamax_from(moves, i + 1, alpha2, beta, depth, value2, best2)
            }
        }
    }

    /// Material balance of the position, counted for White: 100 for the
    /// king, 90 queen, 50 rook, 35 bishop, 30 knight, 10 pawn.
    pub fn naive_eval(&self) -> (score: isize)
        ensures
            score == self.eval_spec(),
            -6400 <= score <= 6400,
    {
        let mut score: isize = 0;
        let mut i: usize = 0;
        while i < 64
            invariant
                i <= 64,
                score == material(self.mailbox@, i as int),
                -100 * i <= score <= 100 * i,
            decreases 64 - i,
        {
            let v: isize = match self.mailbox[i] {
                None => 0,
                Some(p) => {
                    let v: isize = match p.1 {
                        PieceType::King => 100,
                        PieceType::Queen => 90,
                        PieceType::Knight => 30,
                        PieceType::Bishop => 35,
                        PieceType::Rook => 50,
                        PieceType::Pawn => 10,
                    };
                    match p.0 {
                        Side::White => v,
                        Side::Black => -v,
                    }
                },
            };
            score = score + v;
            i += 1;
        }
        score
    }

    /// Number of leaves of the tree of legal moves, `depth` plies deep;
    /// `u64::MAX` when there are more.
    pub fn perft_count(&self, tables: &AttackTables, depth: usize) -> (r: u64)
        requires
            tables.wf(),
            self.structural(),
        ensures
            r == (if self.perft_spec(depth as nat) <= u64::MAX {
                self.perft_spec(depth as nat)
            } else {
                u64::MAX as nat
            }),
        decreases depth,
    {
        if depth == 0 {
            return 1;
        }
        let arr = self.generate_moves(tables);
        proof {
            self.lemma_legal_moves_fine();
        }
        let mut total: u64 = 0;
        let mut i: usize = arr.len();
        let n: usize = arr.len();
        let ghost moves = capped(self.legal_moves());
        while i > 0
            invariant
                tables.wf(),
                self.structural(),
                depth > 0,
                arr.wf(),
                arr@ == moves,
                n == moves.len(),
                i <= n,
                self.all_fine(moves),
                total == (if self.perft_sum(moves, i as int, (depth - 1) as nat) <= u64::MAX {
                    self.perft_sum(moves, i as int, (depth - 1) as nat)
                } else {
                    u64::MAX as nat
                }),
            decreases i,
        {
            i -= 1;
            let chess_move = arr.get(i);
            assert(self.fine(moves[i as int]));
            let ghost below = self.successor(chess_move).perft_spec((depth - 1) as nat);
            let ghost rest = self.perft_sum(moves, i + 1, (depth - 1) as nat);
            assert(self.perft_sum(moves, i as int, (depth - 1) as nat) == below + rest);
            let sub = if depth == 1 {
                1
            } else {
                self.update_state(tables, chess_move).perft_count(tables, depth - 1)
            };
            assert(sub == (if below <= u64::MAX {
                below
            } else {
                u64::MAX as nat
            }));
            total = total.saturating_add(sub);
        }
        total
    }

    /// Value and best move of the position for the side to move: see
    /// [`Self::negamax_spec`].
    pub fn negamax(&self, tables: &AttackTables, alpha: isize, beta: isize, depth: usize) -> (r: (
        isize,
        Option<ChessMove>,
    ))
        requires
            tables.wf(),
            self.structural(),
            alpha > isize::MIN,
            beta > isize::MIN,
            depth <= MAX_DEPTH,
        ensures
            r.0 == self.negamax_spec(alpha as int, beta as int, depth as nat).0,
            r.1 == self.negamax_spec(alpha as int, beta as int, depth as nat).1,
            r.0 > isize::MIN,
        decreases depth,
    {
        if depth == 0 {
            let e = self.naive_eval();
            return match self.side_to_move {
                Side::White => (e, None),
                Side::Black => (-e, None),
            };
        }
        let arr = self.generate_moves(tables);
        proof {
            self.lemma_legal_moves_fine();
            lemma_king_square(self.piece_bbs@, self.mailbox@, self.side_to_move);
        }
        let n: usize = arr.len();
        if n == 0 {
            if self.king_is_in_check(tables, self.side_to_move) {
                return (-(isize::MAX / 2) - (depth as isize), None);
            } else {
                return (0, None);
            }
        }
        let ghost moves = capped(self.legal_moves());
        let ghost goal = self.negamax_spec(alpha as int, beta as int, depth as nat);
        let mut alpha = alpha;
        let mut value: isize = isize::MIN + 1;
        let mut best_move: Option<ChessMove> = None;
        let mut i: usize = 0;
        let mut cut: bool = false;
        while i < n && !cut
            invariant
                tables.wf(),
                self.structural(),
                0 < depth <= MAX_DEPTH,
                arr.wf(),
                arr@ == moves,
                n == moves.len(),
                i <= n,
                self.all_fine(moves),
                alpha > isize::MIN,
                beta > isize::MIN,
                value > isize::MIN,
                !cut ==> goal == self.negamax_from(
                    moves,
                    i as int,
                    alpha as int,
                    beta as int,
                    depth as nat,
                    value as int,
                    best_move,
                ),
                cut ==> goal == (value as int, best_move),
            decreases n - i, (if cut {
                0int
            } else {
                1int
            }),
        {
            let chess_move = arr.get(i);
            assert(self.fine(moves[i as int]));
            let chessboard = self.update_state(tables, chess_move);
            let reply = chessboard.negamax(tables, -beta, -alpha, depth - 1).0;
            let new_value = -reply;
            if new_value > value {
                value = new_value;
            }
            if value > alpha {
                alpha = value;
                best_move = Some(chess_move);
            }
            if alpha >= beta {
                cut = true;
            } else {
                i += 1;
            }
        }
        (value, best_move)
    }

    /// The best move of the position by a search `depth` plies deep, over
    /// the widest window; `None` when the search names no move.
    pub fn search(&self, tables: &AttackTables, depth: usize) -> (r: Option<ChessMove>)
        requires
            tables.wf(),
            self.structural(),
            depth <= MAX_DEPTH,
        ensures
            r == self.negamax_spec(isize::MIN + 1, isize::MAX - 1, depth as nat).1,
    {
        self.negamax(tables, isize::MIN + 1, isize::MAX - 1, depth).1
    }
}

} // verus!
