//! Shared card traits. Any type that can describe its two faces and compare
//! itself with another of its kind can be used as a card face; the concrete
//! face types for standard playing cards and Uno cards live in the
//! submodules.

use vstd::prelude::*;

pub mod std_playing_cards;
pub mod uno_cards;

pub use std_playing_cards::{Rank, StandardCard, Suit};

verus! {

/// Shared behaviors for card containers.
pub trait CardCollection {
    /// Determine the number of cards in the collection.
    fn size(&self) -> usize;

    /// Turn all of the cards face-up / front showing.
    fn show_faces(&mut self);

    /// Turn all of the cards face-down / back showing.
    fn show_backs(&mut self);
}

/// Describes how to work with the front and back of a card, as well as how to
/// compare or match two cards of the same type.
///
/// Here "matches" means the cards are completely interchangeable for
/// ownership and removal purposes; game-specific partial matching belongs on
/// the concrete card type.
pub trait CardFaces: Sized {
    /// The text on the front of the card.
    fn display_front(&self) -> String;

    /// The text on the back of the card, where the card type has one.
    fn display_back(&self) -> Option<String>;

    /// Whether the two cards are interchangeable.
    fn matches(&self, other: &Self) -> bool;

    /// Relative ordering of the two cards under the game's rules.
    fn compare(&self, other: &Self) -> core::cmp::Ordering;
}

} // verus!
