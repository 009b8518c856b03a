//! A chess engine core.
//!
//! The board is a padded 10 by 12 array whose border reads as a sentinel
//! ([`board`]). For every square the threat mask lists the pieces that attack it;
//! it is kept up to date move by move ([`threat`], over the geometry of [`rays`]),
//! and each king keeps an index of the pieces pinned against it ([`pins`]). The
//! move generator reads both ([`movegen`], [`kingmoves`], [`legal`]), and
//! [`moves`] makes a move on the board. A negamax search with alpha-beta pruning
//! ([`decision`]) over a static evaluation ([`eval`], [`score`]) chooses the
//! engine's moves, and a registry keeps the matches in play ([`chessmatch`],
//! [`session`]).
//!
//! What holds of every consistent board is stated in [`invariants`]; that the
//! moves offered leave the own king out of check, in [`safety`].

pub mod board;
pub mod chessmatch;
pub mod decision;
pub mod eval;
pub mod invariants;
pub mod kingmoves;
pub mod legal;
pub mod list;
pub mod movegen;
pub mod moves;
pub mod pins;
pub mod rays;
pub mod safety;
pub mod score;
pub mod session;
pub mod shape;
pub mod threat;
