//! Table-game mechanics primitives: dominos with an exhaustive longest-line
//! search, dice pools, card face types, and the shared game error type.

use vstd::prelude::*;

pub mod cards;
pub mod dice;
pub mod dominos;
pub mod gameerror;
pub mod numtext;
mod random;

pub use cards::{CardCollection, CardFaces, Rank, StandardCard, Suit};
pub use dice::{DicePool, Die};
pub use dominos::{BonePile, Domino, DominoHand, Train, MAX_PIPS};
pub use gameerror::GameError;

verus! {

/// Convenient alias used by all fallible game operations.
pub type GameResult<T> = Result<T, GameError>;

} // verus!
