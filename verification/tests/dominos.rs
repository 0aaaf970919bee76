use gametools::{BonePile, Domino, DominoHand, GameError, GameResult, Train};

#[test]
fn test_find_longest_from_returns_expected_ids() {
    // Define a hand manually with known longest path
    let hand = vec![
        Domino::new(1, 2, 0),
        Domino::new(2, 3, 1),
        Domino::new(3, 4, 2),
        Domino::new(4, 1, 3), // This closes a loop
        Domino::new(0, 1, 4), // This adds an extension off 1
    ];

    let mut dom_hand = DominoHand::new("TestPlayer");
    dom_hand.tiles = hand;

    // Starting from pip 1
    let result = dom_hand.find_longest_from(1);

    // All 5 tiles are connectable in a valid path
    assert_eq!(result.len(), 5);

    // Since multiple valid orderings are possible, just check tile IDs
    let expected: Vec<usize> = vec![0, 1, 2, 3, 4];
    for id in expected {
        assert!(result.contains(&id));
    }
}

#[test]
fn dominohand_new_works() {
    let dh = DominoHand::new("Zappa");
    assert_eq!(dh.tiles.len(), 0);
    assert_eq!(dh.player, "Zappa");
}

#[test]
fn dominohand_new_with_draw_works() -> GameResult<()> {
    let mut bp = BonePile::new(12);
    let dh = DominoHand::new_with_draw("Peart", 15, &mut bp)?;
    assert_eq!(dh.tiles.len(), 15);
    assert_eq!(bp.tiles.len(), 91 - 15);

    assert!(DominoHand::new_with_draw("who", 1000, &mut bp).is_err());
    Ok(())
}

#[test]
fn bonepile_draw_tile_works() {
    let mut pile = BonePile::new(12);
    let _ = pile.draw_tile();
    assert_eq!(pile.tiles.len(), 90);
}

#[test]
fn bonepile_draw_tiles_works() {
    let mut pile = BonePile::new(12);
    if let Some(some_tiles) = pile.draw_tiles(15) {
        assert_eq!(pile.tiles.len(), 91 - 15);
        assert_eq!(some_tiles.len(), 15);
    }

    let way_too_many = pile.draw_tiles(1000);
    assert!(way_too_many.is_none());
}

#[test]
fn create_domino_works() {
    let tile = Domino::new(0, 1, 0);
    assert_eq!(tile.left(), 0);
    assert_eq!(tile.right(), 1);
}

#[test]
fn domino_display_is_correct() {
    let tile = Domino::new(0, 0, 0);
    let another_tile = Domino::new(5, 5, 5);
    assert_eq!(tile.text(), "[0:0]");
    assert_eq!(another_tile.text(), "[5:5]");
}

#[test]
fn flip_domino_works() {
    let tile = Domino::new(1, 2, 101);
    let flipped = tile.flipped();
    assert_eq!(flipped.id(), tile.id());
    assert_eq!(flipped.right(), tile.left());
    assert_eq!(flipped.left(), tile.right());
}

#[test]
fn domino_as_tuple_is_correct() {
    let tile = Domino::new(1, 2, 3);
    assert_eq!(tile.as_tuple(), (1, 2, 3));
}

#[test]
fn train_new_works() {
    let train = Train::new("zappa", false, 12);
    assert_eq!(train.player, "zappa");
    assert_eq!(train.open, false);
    assert_eq!(train.head, 12);
}

#[test]
fn domino_points_is_correct() {
    let tile = Domino::new(0, 0, 0);
    assert_eq!(tile.points(), 0);

    let tile = Domino::new(12, 9, 1);
    assert_eq!(tile.points(), 21);
}

#[test]
fn domino_points_with_zero_worth_is_correct() {
    let double_zero = Domino::new(0, 0, 0);
    let double_nine = Domino::new(9, 9, 1);
    assert_eq!(double_zero.points_with_zero_worth(0), 0);
    assert_eq!(double_nine.points_with_zero_worth(0), 18);
    assert_eq!(double_zero.points_with_zero_worth(50), 50);
    assert_eq!(double_nine.points_with_zero_worth(50), 18);
}

#[test]
fn create_bonepile_works() {
    let six_pile = BonePile::new(6);
    let twelve_pile = BonePile::new(12);
    let over_max = BonePile::new(50); // should still only go up to MAX_PIPS
    assert_eq!(six_pile.tiles.len(), 28);
    assert_eq!(twelve_pile.tiles.len(), 91);
    assert_eq!(over_max.tiles.len(), 190); // number of tiles in a double-18 (MAX_PIPS) set
}

#[test]
fn train_display_is_correct() {
    let private = Train::new("moon", false, 12);
    let mut public = Train::new("open", true, 12);
    let tile_12_1 = Domino::new(12, 1, 0);
    public.play(tile_12_1, "moon").unwrap();

    assert_eq!(private.text(), "[X]-moon-(12)");
    assert_eq!(public.text(), "[O]-open-(12)[12:1]");
}

#[test]
fn train_play_works() {
    let mut public = Train::new("open", true, 12);
    let mut private = Train::new("bonzo", false, 12);
    let d12_1 = Domino::new(12, 1, 0);
    let d2_12 = Domino::new(2, 12, 1); // this one will have to flip
    let d5_6 = Domino::new(5, 6, 2); // this one won't fit at all

    assert!(private.play(d12_1, "percy").is_err()); // closed private train, wrong player
    assert!(private.play(d12_1, "bonzo").is_ok()); // closed private train, player owns it
    assert!(private.tail == 1);
    assert!(private.tiles.len() == 1);

    assert!(public.play(d2_12, "anyone").is_ok());
    assert!(public.tail == 2); // this tile had to flip (2_12 -> 12_2) to play on the train
    assert!(public.tiles.len() == 1);

    assert!(public.play(d5_6, "anyone").is_err()); // wrong #s to play on tail of this train
}

#[test]
fn hand_display_works() {
    let mut hand = DominoHand::new("me");
    hand.tiles.push(Domino::new(1, 1, 1));
    assert_eq!(hand.text(), "me->[1:1]");
}

#[test]
fn hand_play_line_works() {
    // create a hand with 3 sequential dominos and an open/community train
    let mut hand = DominoHand::new("test");
    hand.tiles = vec![
        Domino::new(1, 2, 0),
        Domino::new(2, 3, 1),
        Domino::new(3, 4, 2),
    ];
    let mut train = Train::new("open", true, 1);

    let valid_sequence = vec![0, 1, 2]; // these domino ids should play in sequence
    let _result = hand.play_line(&valid_sequence, &mut train);
    assert!(hand.tiles.is_empty());
    assert_eq!(train.tiles.len(), 3);
    assert_eq!(train.tail, 4); // last tile should be [3:4]
}

#[test]
fn overdraw_leaves_pile_unchanged() {
    let mut pile = BonePile::new(6);
    let before: Vec<(u8, u8, usize)> = pile.tiles.iter().map(|t| t.as_tuple()).collect();
    assert!(pile.draw_tiles(29).is_none());
    let after: Vec<(u8, u8, usize)> = pile.tiles.iter().map(|t| t.as_tuple()).collect();
    assert_eq!(before, after);
    assert_eq!(pile.tiles.len(), 28);
}

#[test]
fn new_pile_holds_every_pair_once() {
    let pile = BonePile::new(6);
    let mut pairs: Vec<(u8, u8)> = pile.tiles.iter().map(|t| (t.left(), t.right())).collect();
    pairs.sort();
    let mut expected: Vec<(u8, u8)> = Vec::new();
    for a in 0u8..=6 {
        for b in a..=6 {
            expected.push((a, b));
        }
    }
    assert_eq!(pairs, expected);

    let mut ids: Vec<usize> = pile.tiles.iter().map(|t| t.id()).collect();
    ids.sort();
    let expected_ids: Vec<usize> = (0..28).collect();
    assert_eq!(ids, expected_ids);
}

#[test]
fn unconnected_tile_leaves_train_unchanged() {
    let mut train = Train::new("anyone", true, 9);
    train.play(Domino::new(9, 3, 0), "anyone").unwrap();
    let err = train.play(Domino::new(5, 6, 1), "anyone");
    assert_eq!(err, Err(GameError::TileUnconnected));
    assert_eq!(train.tiles.len(), 1);
    assert_eq!(train.tail, 3);
}

#[test]
fn closed_train_rejects_other_players_only() {
    let mut train = Train::new("A", false, 7);
    let tile = Domino::new(7, 2, 0);
    assert_eq!(train.play(tile, "B"), Err(GameError::TrainClosed));
    assert_eq!(train.tiles.len(), 0);
    assert_eq!(train.tail, 7);
    assert_eq!(train.play(tile, "A"), Ok(()));
    assert_eq!(train.tiles.len(), 1);
    assert_eq!(train.tail, 2);
}

#[test]
fn found_line_commits_onto_fresh_train() {
    let mut hand = DominoHand::new("solo");
    hand.tiles = vec![
        Domino::new(1, 2, 10),
        Domino::new(2, 3, 11),
        Domino::new(3, 4, 12),
        Domino::new(4, 1, 13),
        Domino::new(0, 1, 14),
        Domino::new(6, 6, 15),
    ];
    let line = hand.find_longest_from(1);
    assert_eq!(line.len(), 5);

    let mut train = Train::new("solo", false, 1);
    assert_eq!(hand.play_line(&line, &mut train), Ok(()));
    assert_eq!(train.tiles.len(), 5);
    assert_eq!(hand.tiles.len(), 1);
    assert_eq!(hand.tiles[0].id(), 15);
}

#[test]
fn search_returns_each_hand_id_at_most_once() {
    let mut hand = DominoHand::new("count");
    hand.tiles = vec![
        Domino::new(2, 2, 7),
        Domino::new(2, 2, 8),
        Domino::new(2, 5, 9),
    ];
    let line = hand.find_longest_from(2);
    assert_eq!(line.len(), 3);
    let mut seen = line.clone();
    seen.sort();
    seen.dedup();
    assert_eq!(seen.len(), line.len());
    for id in &line {
        assert!(hand.tiles.iter().filter(|t| t.id() == *id).count() == 1);
    }
}

#[test]
fn search_with_no_matching_tile_returns_empty_line() {
    let mut hand = DominoHand::new("empty");
    hand.tiles = vec![Domino::new(3, 4, 0)];
    let line = hand.find_longest_from(9);
    assert!(line.is_empty());
}

#[test]
fn play_line_stops_at_first_unconnected_tile() {
    let mut hand = DominoHand::new("partial");
    hand.tiles = vec![
        Domino::new(1, 2, 0),
        Domino::new(5, 6, 1),
        Domino::new(2, 3, 2),
    ];
    let mut train = Train::new("partial", true, 1);
    // id 1 does not connect after id 0, so the commit aborts there.
    let result = hand.play_line(&vec![0, 1, 2], &mut train);
    assert_eq!(result, Err(GameError::TileUnconnected));
    // The first tile stays placed; the failing tile left the hand; id 2 was
    // never attempted.
    assert_eq!(train.tiles.len(), 1);
    assert_eq!(train.tail, 2);
    assert_eq!(hand.tiles.len(), 1);
    assert_eq!(hand.tiles[0].id(), 2);
}

#[test]
fn three_digit_pips_render_fully() {
    let tile = Domino::new(200, 18, 1);
    assert_eq!(tile.text(), "[200:18]");
}
