//! Chess position representation, move generation and legality checking.
//!
//! Positions are stored as bitboards. Every executable function states its
//! result over a mathematical model of the position: a map from squares to
//! pieces together with the castling rights and the en-passant target.
//!
//! - `types`: sides, kinds of piece, castling rights, game states and results.
//! - `bitboard`: 64-bit sets of squares and what the bit operations mean.
//! - `geometry`: files, ranks, rays, and the steps of knight, king and pawn.
//! - `move_`: moves.
//! - `position`: the model of a position, and what pseudo-legal and legal
//!   moves, attacks, check and the position after a move are.
//! - `listing`: the order in which moves are listed.
//! - `board`: the bitboard representation of a position.
//! - `move_validator`: attack tables, move generation, legality, attack
//!   detection and the state of the side to move.
//! - `player`: strategies for choosing a move.
//! - `game`: a game between two players.
//! - `laws`: what holds of every position and every legal move.

pub mod types;
pub mod bitboard;
pub mod geometry;
pub mod move_;
pub mod position;
pub mod listing;
pub mod board;
pub mod move_validator;
pub mod player;
pub mod game;
pub mod laws;
