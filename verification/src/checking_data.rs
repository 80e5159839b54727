//! A side together with a set of squares: who is in check, and by which
//! pieces.
use vstd::prelude::*;
use crate::bitboard::{BitBoard, Side};

verus! {

/// A side and the set of pieces that give check to its king.
#[derive(Debug, Copy, Clone, PartialEq, Eq)]
pub struct CheckData {
    /// The side in check, and the pieces that give the check.
    pub data: (Side, BitBoard),
}

impl CheckData {
    /// The side and the set, together.
    pub fn new(side: Side, checkers: BitBoard) -> (r: CheckData)
        ensures
            r.data == (side, checkers),
    {
        CheckData { data: (side, checkers) }
    }
}

} // verus!
