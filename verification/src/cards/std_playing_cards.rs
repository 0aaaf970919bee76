//! The canonical 52-card deck (plus optional jokers): ranks, suits, and the
//! [`StandardCard`] face type.

use vstd::prelude::*;
use vstd::string::StringExecFns;

use crate::cards::CardFaces;

verus! {

/// Card ranks from two through ace, plus an optional joker.
#[derive(Debug, Clone, Copy, Eq, PartialEq, Ord, PartialOrd, Hash, Structural)]
pub enum Rank {
    Two,
    Three,
    Four,
    Five,
    Six,
    Seven,
    Eight,
    Nine,
    Ten,
    Jack,
    Queen,
    King,
    Ace,
    Joker,
}

/// The four standard suits plus `Wild` for jokers.
#[derive(Debug, Clone, Copy, PartialEq, Eq, PartialOrd, Ord, Hash, Structural)]
pub enum Suit {
    Clubs,
    Hearts,
    Diamonds,
    Spades,
    Wild,
}

impl Rank {
    /// Numeric value of the rank: two through ten at face value, then 11 for
    /// the jack up to 14 for the ace, and 255 for the joker.
    pub open spec fn value_spec(self) -> u8 {
        match self {
            Rank::Two => 2,
            Rank::Three => 3,
            Rank::Four => 4,
            Rank::Five => 5,
            Rank::Six => 6,
            Rank::Seven => 7,
            Rank::Eight => 8,
            Rank::Nine => 9,
            Rank::Ten => 10,
            Rank::Jack => 11,
            Rank::Queen => 12,
            Rank::King => 13,
            Rank::Ace => 14,
            Rank::Joker => 255,
        }
    }

    /// Numeric value used for comparisons (ace high).
    pub fn value(self) -> (v: u8)
        ensures
            v == self.value_spec(),
    {
        match self {
            Rank::Two => 2,
            Rank::Three => 3,
            Rank::Four => 4,
            Rank::Five => 5,
            Rank::Six => 6,
            Rank::Seven => 7,
            Rank::Eight => 8,
            Rank::Nine => 9,
            Rank::Ten => 10,
            Rank::Jack => 11,
            Rank::Queen => 12,
            Rank::King => 13,
            Rank::Ace => 14,
            Rank::Joker => 255,
        }
    }

    /// The text shown for the rank on a card face.
    pub open spec fn text_spec(self) -> Seq<char> {
        match self {
            Rank::Two => "2"@,
            Rank::Three => "3"@,
            Rank::Four => "4"@,
            Rank::Five => "5"@,
            Rank::Six => "6"@,
            Rank::Seven => "7"@,
            Rank::Eight => "8"@,
            Rank::Nine => "9"@,
            Rank::Ten => "10"@,
            Rank::Jack => "J"@,
            Rank::Queen => "Q"@,
            Rank::King => "K"@,
            Rank::Ace => "A"@,
            Rank::Joker => "*"@,
        }
    }

    /// The text shown for the rank on a card face.
    pub fn text(self) -> (s: &'static str)
        ensures
            s@ == self.text_spec(),
    {
        match self {
            Rank::Two => "2",
            Rank::Three => "3",
            Rank::Four => "4",
            Rank::Five => "5",
            Rank::Six => "6",
            Rank::Seven => "7",
            Rank::Eight => "8",
            Rank::Nine => "9",
            Rank::Ten => "10",
            Rank::Jack => "J",
            Rank::Queen => "Q",
            Rank::King => "K",
            Rank::Ace => "A",
            Rank::Joker => "*",
        }
    }

    /// The thirteen ranks used in a standard 52-card deck, two through ace.
    pub fn normal_ranks() -> (ranks: Vec<Rank>)
        ensures
            ranks@ == normal_rank_order(),
    {
        let mut ranks: Vec<Rank> = Vec::new();
        ranks.push(Rank::Two);
        ranks.push(Rank::Three);
        ranks.push(Rank::Four);
        ranks.push(Rank::Five);
        ranks.push(Rank::Six);
        ranks.push(Rank::Seven);
        ranks.push(Rank::Eight);
        ranks.push(Rank::Nine);
        ranks.push(Rank::Ten);
        ranks.push(Rank::Jack);
        ranks.push(Rank::Queen);
        ranks.push(Rank::King);
        ranks.push(Rank::Ace);
        proof {
            assert(ranks@ =~= normal_rank_order());
        }
        ranks
    }

    /// The standard ranks plus the optional joker.
    pub fn all_ranks() -> (ranks: Vec<Rank>)
        ensures
            ranks@ == normal_rank_order().push(Rank::Joker),
    {
        let mut all_ranks = Rank::normal_ranks();
        all_ranks.push(Rank::Joker);
        all_ranks
    }

    /// The rank a numeric value stands for, treating both 1 and 14 as aces.
    pub open spec fn from_value_spec(value: u8) -> Option<Rank> {
        match value {
            1u8 | 14u8 => Some(Rank::Ace),
            2u8 => Some(Rank::Two),
            3u8 => Some(Rank::Three),
            4u8 => Some(Rank::Four),
            5u8 => Some(Rank::Five),
            6u8 => Some(Rank::Six),
            7u8 => Some(Rank::Seven),
            8u8 => Some(Rank::Eight),
            9u8 => Some(Rank::Nine),
            10u8 => Some(Rank::Ten),
            11u8 => Some(Rank::Jack),
            12u8 => Some(Rank::Queen),
            13u8 => Some(Rank::King),
            _ => None,
        }
    }

    /// Convert an integer value into a rank (treating 1 and 14 as aces).
    pub fn from_value(value: u8) -> (r: Option<Rank>)
        ensures
            r == Rank::from_value_spec(value),
    {
        match value {
            1 | 14 => Some(Rank::Ace),
            2 => Some(Rank::Two),
            3 => Some(Rank::Three),
            4 => Some(Rank::Four),
            5 => Some(Rank::Five),
            6 => Some(Rank::Six),
            7 => Some(Rank::Seven),
            8 => Some(Rank::Eight),
            9 => Some(Rank::Nine),
            10 => Some(Rank::Ten),
            11 => Some(Rank::Jack),
            12 => Some(Rank::Queen),
            13 => Some(Rank::King),
            _ => None,
        }
    }
}

/// The ranks of a standard deck in ascending order.
pub open spec fn normal_rank_order() -> Seq<Rank> {
    seq![
        Rank::Two,
        Rank::Three,
        Rank::Four,
        Rank::Five,
        Rank::Six,
        Rank::Seven,
        Rank::Eight,
        Rank::Nine,
        Rank::Ten,
        Rank::Jack,
        Rank::Queen,
        Rank::King,
        Rank::Ace,
    ]
}

/// The four suits in the order decks are built in.
pub open spec fn normal_suit_order() -> Seq<Suit> {
    seq![Suit::Clubs, Suit::Hearts, Suit::Diamonds, Suit::Spades]
}

impl Suit {
    /// The symbol shown for the suit on a card face.
    pub open spec fn text_spec(self) -> Seq<char> {
        match self {
            Suit::Clubs => "♣"@,
            Suit::Hearts => "♥"@,
            Suit::Diamonds => "♦"@,
            Suit::Spades => "♠"@,
            Suit::Wild => "?"@,
        }
    }

    /// The symbol shown for the suit on a card face.
    pub fn text(self) -> (s: &'static str)
        ensures
            s@ == self.text_spec(),
    {
        match self {
            Suit::Clubs => "♣",
            Suit::Hearts => "♥",
            Suit::Diamonds => "♦",
            Suit::Spades => "♠",
            Suit::Wild => "?",
        }
    }

    /// The four standard suits.
    pub fn normal_suits() -> (suits: Vec<Suit>)
        ensures
            suits@ == normal_suit_order(),
    {
        let mut suits: Vec<Suit> = Vec::new();
        suits.push(Suit::Clubs);
        suits.push(Suit::Hearts);
        suits.push(Suit::Diamonds);
        suits.push(Suit::Spades);
        proof {
            assert(suits@ =~= normal_suit_order());
        }
        suits
    }

    /// The four suits plus `Suit::Wild`.
    pub fn all_suits() -> (suits: Vec<Suit>)
        ensures
            suits@ == normal_suit_order().push(Suit::Wild),
    {
        let mut all_suits = Suit::normal_suits();
        all_suits.push(Suit::Wild);
        all_suits
    }
}

/// A standard playing card from a regular deck (52 cards, or 54 with jokers).
#[derive(Debug, Clone, Copy, Eq, PartialEq, PartialOrd, Ord, Structural)]
pub struct StandardCard {
    /// The suit (or `Wild` for jokers).
    pub suit: Suit,
    /// The rank, including face cards and the optional joker.
    pub rank: Rank,
    /// Numeric value used for comparisons (ace high).
    pub value: u8,
}

/// The card a rank and suit describe, with its comparison value filled in.
pub open spec fn card_of(rank: Rank, suit: Suit) -> StandardCard {
    StandardCard { suit, rank, value: rank.value_spec() }
}

impl StandardCard {
    /// Create a new standard playing card face.
    pub fn new_card(rank: Rank, suit: Suit) -> (card: StandardCard)
        ensures
            card == card_of(rank, suit),
    {
        StandardCard { rank, suit, value: rank.value() }
    }
}

impl CardFaces for StandardCard {
    /// Rank and suit, joined with a dot: the ten of hearts reads `10.♥`.
    fn display_front(&self) -> (text: String)
        ensures
            text@ == self.rank.text_spec() + "."@ + self.suit.text_spec(),
    {
        let mut text = String::from_str(self.rank.text());
        text.append(".");
        text.append(self.suit.text());
        text
    }

    /// Standard cards have no distinct back.
    fn display_back(&self) -> (text: Option<String>)
        ensures
            text is None,
    {
        None
    }

    /// Cards are interchangeable when rank and suit agree.
    fn matches(&self, other: &Self) -> (same: bool)
        ensures
            same == (self.rank == other.rank && self.suit == other.suit),
    {
        self.rank == other.rank && self.suit == other.suit
    }

    /// Orders cards by their numeric value.
    fn compare(&self, other: &Self) -> (r: core::cmp::Ordering)
        ensures
            r == core::cmp::Ordering::Less <==> self.value < other.value,
            r == core::cmp::Ordering::Equal <==> self.value == other.value,
            r == core::cmp::Ordering::Greater <==> self.value > other.value,
    {
        if self.value < other.value {
            core::cmp::Ordering::Less
        } else if self.value > other.value {
            core::cmp::Ordering::Greater
        } else {
            core::cmp::Ordering::Equal
        }
    }
}

/// All 52 cards of a standard deck: thirteen ranks within each of the four
/// suits, suit blocks in the standard order.
pub fn full_deck() -> (deck: Vec<StandardCard>)
    ensures
        deck@.len() == 52,
        forall|i: int|
            0 <= i < 52 ==> #[trigger] deck@[i] == card_of(
                normal_rank_order()[i % 13],
                normal_suit_order()[i / 13],
            ),
{
    let suits = Suit::normal_suits();
    let ranks = Rank::normal_ranks();
    let mut deck: Vec<StandardCard> = Vec::new();
    let mut s: usize = 0;
    while s < 4
        invariant
            s <= 4,
            suits@ == normal_suit_order(),
            ranks@ == normal_rank_order(),
            deck@.len() == 13 * s,
            forall|i: int|
                0 <= i < deck@.len() ==> #[trigger] deck@[i] == card_of(
                    normal_rank_order()[i % 13],
                    normal_suit_order()[i / 13],
                ),
        decreases 4 - s,
    {
        let mut r: usize = 0;
        while r < 13
            invariant
                s < 4,
                r <= 13,
                suits@ == normal_suit_order(),
                ranks@ == normal_rank_order(),
                deck@.len() == 13 * s + r,
                forall|i: int|
                    0 <= i < deck@.len() ==> #[trigger] deck@[i] == card_of(
                        normal_rank_order()[i % 13],
                        normal_suit_order()[i / 13],
                    ),
            decreases 13 - r,
        {
            deck.push(StandardCard::new_card(ranks[r], suits[s]));
            proof {
                let i = deck@.len() - 1;
                assert(i == 13 * s + r);
                assert(i % 13 == r && i / 13 == s) by (nonlinear_arith)
                    requires
                        i == 13 * s + r,
                        0 <= r < 13,
                        0 <= s,
                ;
            }
            r += 1;
        }
        s += 1;
    }
    deck
}

/// A full 52-card deck plus two jokers at the end.
pub fn full_deck_with_jokers() -> (deck: Vec<StandardCard>)
    ensures
        deck@.len() == 54,
        forall|i: int|
            0 <= i < 52 ==> #[trigger] deck@[i] == card_of(
                normal_rank_order()[i % 13],
                normal_suit_order()[i / 13],
            ),
        deck@[52] == card_of(Rank::Joker, Suit::Wild),
        deck@[53] == card_of(Rank::Joker, Suit::Wild),
{
    let mut deck = full_deck();
    deck.push(StandardCard::new_card(Rank::Joker, Suit::Wild));
    deck.push(StandardCard::new_card(Rank::Joker, Suit::Wild));
    deck
}

} // verus!
