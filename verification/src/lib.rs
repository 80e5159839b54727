//! The core of a chess engine: positions on bit sets, attack tables with
//! magic multipliers, a generator of legal moves, the transition from a
//! position to the next, and a search.
//!
//! Every function states what it returns, and the generator, the
//! transition and the notation come with the laws that hold of them:
//! see [`laws`], [`soundness`], [`completeness`], [`distinct`] and
//! [`fen_text`].
pub mod bits;
pub mod bitboard;
pub mod chessmove;
pub mod leapers;
pub mod sliders;
pub mod occupancy;
pub mod magic;
pub mod tables;
pub mod lines;
pub mod zobrist;
pub mod chessboard;
pub mod threat;
pub mod transition;
pub mod movegen;
pub mod search;
pub mod setup;
pub mod fen;
pub mod fen_text;
pub mod uci;
pub mod checking_data;
pub mod display;
pub mod laws;
pub mod distinct;
pub mod soundness;
pub mod completeness;
pub mod reached;
