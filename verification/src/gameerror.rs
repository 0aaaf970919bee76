//! The [`GameError`] enum: the closed set of recoverable error conditions that
//! game operations report, together with the text shown to players.

use vstd::prelude::*;
use vstd::string::StringExecFns;

verus! {

/// Error kinds for problematic game conditions.
#[derive(Debug, PartialEq)]
pub enum GameError {
    /// A named stack of cards had nothing left to draw.
    StackEmpty(String),
    /// A named stack of cards held fewer cards than were asked for.
    StackTooSmall(String),
    /// The card sought was not in the collection searched.
    CardNotFound,
    /// A draw asked for more tiles than the bone pile holds.
    InsufficientTiles,
    /// The tile played matches neither value open on the train's tail.
    TileUnconnected,
    /// The train is closed and the acting player does not own it.
    TrainClosed,
    /// A spin found no active wedge to land on.
    SpinnerEmpty,
    /// An attempt was made to roll zero dice into a pool.
    DicePoolWithNoDice,
}

/// The exact text that [`GameError::message`] returns for each error value.
pub open spec fn message_spec(e: GameError) -> Seq<char> {
    match e {
        GameError::StackEmpty(n) => "cannot draw from empty stack '"@ + n@ + "'"@,
        GameError::StackTooSmall(n) => "too few cards remain in '"@ + n@ + "' to satisfy need"@,
        GameError::CardNotFound => "the card sought was not found in this collection"@,
        GameError::InsufficientTiles => "insufficient tiles left in the bone pile"@,
        GameError::TileUnconnected => "that tile does not match the tail of the train"@,
        GameError::TrainClosed => "attempted to play on a closed train"@,
        GameError::SpinnerEmpty => "spin() returned None: empty spinner or landed on covered wedge"@,
        GameError::DicePoolWithNoDice => "attempted to roll zero dice into a DicePool"@,
    }
}

impl GameError {
    /// Human-readable description of the error condition.
    pub fn message(&self) -> (r: String)
        ensures
            r@ == message_spec(*self),
    {
        match self {
            GameError::StackEmpty(n) => {
                let mut s = String::from_str("cannot draw from empty stack '");
                s.append(n.as_str());
                s.append("'");
                s
            },
            GameError::StackTooSmall(n) => {
                let mut s = String::from_str("too few cards remain in '");
                s.append(n.as_str());
                s.append("' to satisfy need");
                s
            },
            GameError::CardNotFound => {
                String::from_str("the card sought was not found in this collection")
            },
            GameError::InsufficientTiles => {
                String::from_str("insufficient tiles left in the bone pile")
            },
            GameError::TileUnconnected => {
                String::from_str("that tile does not match the tail of the train")
            },
            GameError::TrainClosed => String::from_str("attempted to play on a closed train"),
            GameError::SpinnerEmpty => {
                String::from_str("spin() returned None: empty spinner or landed on covered wedge")
            },
            GameError::DicePoolWithNoDice => {
                String::from_str("attempted to roll zero dice into a DicePool")
            },
        }
    }
}

} // verus!
