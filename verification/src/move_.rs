use vstd::prelude::*;
use crate::types::PieceType;

verus! {

/// A move: the square left, the square entered, the piece a pawn turns into
/// on the last rank, and whether the move is meant as castling.
///
/// Two moves are equal exactly when all four fields are.
#[derive(Clone, Copy, PartialEq, Eq, Structural, Debug)]
pub struct Move {
    pub from: u8,
    pub to: u8,
    pub promotion: Option<PieceType>,
    pub is_castling: bool,
}

impl Move {
    pub fn new(from: u8, to: u8, promotion: Option<PieceType>, is_castling: bool) -> (m: Self)
        ensures
            m == (Move { from, to, promotion, is_castling }),
    {
        Self { from, to, promotion, is_castling }
    }

    /// The move from `from` to `to` that neither promotes nor castles.
    pub open spec fn plain(from: u8, to: u8) -> Move {
        Move { from, to, promotion: None, is_castling: false }
    }
}

} // verus!
