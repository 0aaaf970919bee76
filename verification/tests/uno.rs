use std::collections::BTreeMap;

use gametools::cards::uno_cards::{
    full_uno_set, uno_action_cards, uno_number_cards, uno_wild_cards, UnoAction, UnoCard,
    UnoCardKind, UnoColor,
};
use gametools::CardFaces;

fn face(color: UnoColor, kind: UnoCardKind) -> UnoCard {
    UnoCard { color, kind }
}

#[test]
fn plays_on_honors_color_number_action_and_declared_color() {
    let red_three = face(UnoColor::Red, UnoCardKind::Number(3));
    let red_five = face(UnoColor::Red, UnoCardKind::Number(5));
    let blue_three = face(UnoColor::Blue, UnoCardKind::Number(3));
    let green_four = face(UnoColor::Green, UnoCardKind::Number(4));

    assert!(red_three.plays_on(&red_five, None), "matching colors");
    assert!(red_three.plays_on(&blue_three, None), "matching numbers");
    assert!(
        !red_three.plays_on(&green_four, None),
        "no color or number match"
    );

    let blue_skip = face(UnoColor::Blue, UnoCardKind::Action(UnoAction::Skip));
    let yellow_skip = face(UnoColor::Yellow, UnoCardKind::Action(UnoAction::Skip));
    assert!(
        blue_skip.plays_on(&yellow_skip, None),
        "same action despite color"
    );

    let wild = face(UnoColor::Black, UnoCardKind::Wild);
    let draw_four = face(UnoColor::Black, UnoCardKind::WildDrawFour);
    assert!(wild.plays_on(&red_three, None));
    assert!(draw_four.plays_on(&red_three, None));

    assert!(
        blue_skip.plays_on(&wild, Some(UnoColor::Blue)),
        "declared color allows play"
    );
    assert!(red_three.plays_on(&wild, Some(UnoColor::Red)));
    assert!(
        !green_four.plays_on(&wild, Some(UnoColor::Blue)),
        "mismatched declaration"
    );
}

#[test]
fn number_cards_follow_expected_distribution() {
    let main_colors = [
        UnoColor::Red,
        UnoColor::Blue,
        UnoColor::Green,
        UnoColor::Yellow,
    ];
    let number_card_counts: [u8; 10] = [1, 2, 2, 2, 2, 2, 2, 2, 2, 2];

    let cards = uno_number_cards();
    let expected_per_color: usize = number_card_counts.iter().map(|&count| count as usize).sum();

    assert_eq!(
        cards.len(),
        main_colors.len() * expected_per_color,
        "Unexpected number of Uno number cards"
    );
    assert!(
        cards
            .iter()
            .all(|card| matches!(card.kind, UnoCardKind::Number(_)))
    );

    for color in &main_colors {
        for number in 0u8..=9 {
            let expected = number_card_counts[number as usize] as usize;
            let actual = cards
                .iter()
                .filter(|card| {
                    card.color == *color
                        && matches!(card.kind, UnoCardKind::Number(value) if value == number)
                })
                .count();
            assert_eq!(
                actual, expected,
                "Expected {expected} copies of {color:?} {number}, found {actual}"
            );
        }
    }
}

#[test]
fn action_cards_include_two_of_each_per_color() {
    let main_colors = [
        UnoColor::Red,
        UnoColor::Blue,
        UnoColor::Green,
        UnoColor::Yellow,
    ];

    let cards = uno_action_cards();
    assert_eq!(
        cards.len(),
        main_colors.len() * 6,
        "Unexpected number of Uno action cards"
    );

    for color in &main_colors {
        for action in [UnoAction::DrawTwo, UnoAction::Skip, UnoAction::Reverse] {
            let actual = cards
                .iter()
                .filter(|card| {
                    card.color == *color
                        && matches!(card.kind, UnoCardKind::Action(kind) if kind == action)
                })
                .count();
            assert_eq!(
                actual, 2,
                "Expected two {color:?} {action:?} cards, found {actual}"
            );
        }
    }
}

#[test]
fn wild_cards_include_four_of_each_type() {
    let cards = uno_wild_cards();
    assert_eq!(cards.len(), 8);
    assert!(cards.iter().all(|card| card.color == UnoColor::Black));

    let wild_count = cards
        .iter()
        .filter(|card| matches!(card.kind, UnoCardKind::Wild))
        .count();
    let wild_draw_four_count = cards
        .iter()
        .filter(|card| matches!(card.kind, UnoCardKind::WildDrawFour))
        .count();

    assert_eq!(wild_count, 4);
    assert_eq!(wild_draw_four_count, 4);
}

#[test]
fn full_uno_set_contains_expected_cards() {
    let full_set = full_uno_set();
    assert_eq!(full_set.len(), 108);

    let mut seen = BTreeMap::new();
    for card in &full_set {
        *seen.entry(*card).or_insert(0usize) += 1;
    }

    for card in uno_number_cards()
        .into_iter()
        .chain(uno_action_cards())
        .chain(uno_wild_cards())
    {
        let should_remove = match seen.get_mut(&card) {
            Some(count) if *count > 0 => {
                *count -= 1;
                *count == 0
            }
            _ => panic!("Card {:?} was expected in full Uno set but not found", card),
        };

        if should_remove {
            seen.remove(&card);
        }
    }

    assert!(
        seen.is_empty(),
        "Found unexpected extra cards in full Uno set: {:?}",
        seen
    );
}

#[test]
fn uno_faces_display_and_compare_consistently() {
    let red_five = face(UnoColor::Red, UnoCardKind::Number(5));
    let yellow_skip = face(UnoColor::Yellow, UnoCardKind::Action(UnoAction::Skip));
    let wild = face(UnoColor::Black, UnoCardKind::Wild);
    let draw_four = face(UnoColor::Black, UnoCardKind::WildDrawFour);

    assert_eq!(red_five.display_front(), "Red (#5)");
    assert_eq!(yellow_skip.display_front(), "Yellow (Skip)");
    assert_eq!(wild.display_front(), "Black (Wild)");
    assert_eq!(draw_four.display_front(), "Black (Wild + Draw 4)");
    assert!(red_five.display_back().is_none());

    assert!(red_five.matches(&face(UnoColor::Red, UnoCardKind::Number(5))));
    assert!(!red_five.matches(&face(UnoColor::Red, UnoCardKind::Number(6))));

    assert_eq!(
        red_five.compare(&yellow_skip),
        std::cmp::Ordering::Less,
        "numbers sort below actions"
    );
    assert_eq!(wild.compare(&red_five), std::cmp::Ordering::Greater);
    assert_eq!(red_five.compare(&wild), std::cmp::Ordering::Less);
    assert_eq!(
        face(UnoColor::Red, UnoCardKind::Number(5)).compare(&face(
            UnoColor::Blue,
            UnoCardKind::Number(5)
        )),
        std::cmp::Ordering::Less,
        "colors break ties"
    );
}

#[test]
fn is_wild_recognizes_both_wild_kinds() {
    assert!(UnoCardKind::Wild.is_wild());
    assert!(UnoCardKind::WildDrawFour.is_wild());
    assert!(!UnoCardKind::Number(0).is_wild());
    assert!(!UnoCardKind::Action(UnoAction::Reverse).is_wild());
}
