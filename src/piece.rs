use vstd::prelude::*;

verus! {

/// The side a piece belongs to.
#[derive(Clone, Copy, Debug, PartialEq, Eq, Structural)]
pub enum Color {
    White,
    Black,
}

/// The kind of a piece (not to be confused with a row of the board).
#[derive(Clone, Copy, Debug, PartialEq, Eq, Structural)]
pub enum Rank {
    Pawn,
    Bishop,
    Queen,
    King,
    Knight,
    Rook,
}

/// A piece: its color and its rank. Pieces are replaced, never mutated.
#[derive(Clone, Copy, Debug, PartialEq, Eq, Structural)]
pub struct Piece {
    pub color: Color,
    pub rank: Rank,
}

impl Piece {
    pub fn white(rank: Rank) -> (r: Piece)
        ensures
            r.color == Color::White,
            r.rank == rank,
    {
        Piece { color: Color::White, rank }
    }

    pub fn black(rank: Rank) -> (r: Piece)
        ensures
            r.color == Color::Black,
            r.rank == rank,
    {
        Piece { color: Color::Black, rank }
    }
}

} // verus!
