use std::collections::BTreeSet;

use gametools::cards::std_playing_cards::{
    full_deck, full_deck_with_jokers, Rank, StandardCard, Suit,
};
use gametools::CardFaces;

#[derive(Debug, Clone)]
struct StubFaces {
    front: &'static str,
    back: Option<&'static str>,
    match_id: u8,
    score: u8,
}

impl CardFaces for StubFaces {
    fn display_front(&self) -> String {
        self.front.to_string()
    }
    fn display_back(&self) -> Option<String> {
        self.back.map(|b| b.to_string())
    }
    fn matches(&self, other: &Self) -> bool {
        self.match_id == other.match_id
    }
    fn compare(&self, other: &Self) -> std::cmp::Ordering {
        self.score.cmp(&other.score)
    }
}

#[test]
fn compare_returns_expected_outcomes() {
    let low = StubFaces {
        front: "front",
        back: None,
        match_id: 1,
        score: 1,
    };
    let mid = StubFaces {
        score: 2,
        ..low.clone()
    };
    let high = StubFaces {
        score: 3,
        ..low.clone()
    };

    assert_eq!(mid.compare(&low), std::cmp::Ordering::Greater);
    assert_eq!(mid.compare(&high), std::cmp::Ordering::Less);
    assert_eq!(mid.compare(&mid), std::cmp::Ordering::Equal);
}

#[test]
fn standard_card_constructor_sets_rank_suit_and_value() {
    let card = StandardCard::new_card(Rank::Ace, Suit::Spades);

    assert_eq!(card.rank, Rank::Ace);
    assert_eq!(card.suit, Suit::Spades);
    assert_eq!(card.value, 14);
}

#[test]
fn standard_card_display_and_faces_behave_as_expected() {
    let card = StandardCard::new_card(Rank::Ten, Suit::Hearts);

    assert_eq!(card.display_front(), "10.♥");
    assert!(card.display_back().is_none());
}

#[test]
fn matches_and_compare_follow_rank_and_suit() {
    let low = StandardCard::new_card(Rank::Five, Suit::Clubs);
    let high = StandardCard::new_card(Rank::Seven, Suit::Clubs);
    let different_suit = StandardCard::new_card(Rank::Five, Suit::Hearts);

    assert!(low.matches(&StandardCard::new_card(Rank::Five, Suit::Clubs)));
    assert!(!low.matches(&different_suit));
    assert_eq!(low.compare(&high), std::cmp::Ordering::Less);
    assert_eq!(high.compare(&low), std::cmp::Ordering::Greater);
    assert_eq!(low.compare(&low), std::cmp::Ordering::Equal);
}

#[test]
fn normal_ranks_and_suits_return_expected_sets() {
    let ranks = Rank::normal_ranks();
    let suits = Suit::normal_suits();

    assert_eq!(ranks.len(), 13);
    assert!(ranks.iter().all(|rank| *rank != Rank::Joker));
    assert_eq!(suits.len(), 4);
    assert!(!suits.contains(&Suit::Wild));
}

#[test]
fn full_deck_contains_all_rank_suit_combinations() {
    let deck = full_deck();

    assert_eq!(deck.len(), 52);
    let unique: BTreeSet<(Rank, Suit)> = deck.iter().map(|c| (c.rank, c.suit)).collect();
    assert_eq!(unique.len(), 52);
}

#[test]
fn full_deck_with_jokers_adds_two_wild_cards() {
    let deck = full_deck_with_jokers();

    assert_eq!(deck.len(), 54);
    let joker_count = deck
        .iter()
        .filter(|c| c.rank == Rank::Joker && c.suit == Suit::Wild)
        .count();
    assert_eq!(joker_count, 2);
}

#[test]
fn all_ranks_and_suits_append_the_wild_entries() {
    let ranks = Rank::all_ranks();
    assert_eq!(ranks.len(), 14);
    assert_eq!(ranks[13], Rank::Joker);

    let suits = Suit::all_suits();
    assert_eq!(suits.len(), 5);
    assert_eq!(suits[4], Suit::Wild);
}

#[test]
fn rank_from_value_maps_each_numeric_value() {
    assert_eq!(Rank::from_value(12), Some(Rank::Queen));
    assert_eq!(Rank::from_value(1), Some(Rank::Ace));
    assert_eq!(Rank::from_value(14), Some(Rank::Ace));
    assert_eq!(Rank::from_value(2), Some(Rank::Two));
    assert_eq!(Rank::from_value(10), Some(Rank::Ten));
    assert_eq!(Rank::from_value(42), None);
    assert_eq!(Rank::from_value(0), None);
}
