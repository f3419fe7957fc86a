//! A chess position tracker that computes, for every piece, the squares it
//! threatens, and keeps a reverse index from each square to its attackers.

pub mod piece;
pub mod pos;
pub mod rules;
pub mod board;
pub mod laws;
