use mahjong_rs::hand::{Hand, HandError, Meld, MeldFrom, MeldType};
use mahjong_rs::hand_info::hand_analyzer::HandAnalyzer;
use mahjong_rs::hand_info::winning_hand::WinningHandForm;
use mahjong_rs::tile::Tile;

fn tiles(indices: &[u32]) -> Vec<Tile> {
    indices.iter().map(|i| Tile::new(*i).unwrap()).collect()
}

fn indices(tiles: &[Tile]) -> Vec<u32> {
    tiles.iter().map(|t| t.get()).collect()
}

#[test]
fn tile_new_knows_34_kinds() {
    assert_eq!(Tile::LEN, 34);
    assert_eq!(Tile::new(Tile::M1).unwrap().get(), 0);
    assert_eq!(Tile::new(Tile::Z7).unwrap().get(), 33);
    assert!(Tile::new(34).is_none());
    assert!(Tile::new(u32::MAX).is_none());
}

#[test]
fn tile_in_writing() {
    assert_eq!(Tile::new(Tile::M1).unwrap().to_string(), "1m");
    assert_eq!(Tile::new(Tile::M9).unwrap().to_string(), "9m");
    assert_eq!(Tile::new(Tile::P5).unwrap().to_string(), "5p");
    assert_eq!(Tile::new(Tile::S3).unwrap().to_string(), "3s");
    assert_eq!(Tile::new(Tile::Z1).unwrap().to_string(), "1z");
    assert_eq!(Tile::new(Tile::Z7).unwrap().to_string(), "7z");
}

#[test]
fn tile_in_pictures() {
    assert_eq!(Tile::new(Tile::M1).unwrap().to_char(), '\u{1F007}');
    assert_eq!(Tile::new(Tile::M9).unwrap().to_char(), '\u{1F00F}');
    assert_eq!(Tile::new(Tile::P1).unwrap().to_char(), '\u{1F019}');
    assert_eq!(Tile::new(Tile::P9).unwrap().to_char(), '\u{1F021}');
    assert_eq!(Tile::new(Tile::S1).unwrap().to_char(), '\u{1F010}');
    assert_eq!(Tile::new(Tile::S9).unwrap().to_char(), '\u{1F018}');
    assert_eq!(Tile::new(Tile::Z1).unwrap().to_char(), '\u{1F000}');
    assert_eq!(Tile::new(Tile::Z4).unwrap().to_char(), '\u{1F003}');
    assert_eq!(Tile::new(Tile::Z5).unwrap().to_char(), '\u{1F006}');
    assert_eq!(Tile::new(Tile::Z6).unwrap().to_char(), '\u{1F005}');
    assert_eq!(Tile::new(Tile::Z7).unwrap().to_char(), '\u{1F004}');
}

#[test]
fn every_tile_has_its_own_picture_and_text() {
    let mut pictures = Vec::new();
    let mut texts = Vec::new();
    for i in 0..34 {
        let tile = Tile::new(i).unwrap();
        let picture = tile.to_char();
        assert!(('\u{1F000}'..='\u{1F021}').contains(&picture));
        assert!(!pictures.contains(&picture));
        pictures.push(picture);
        let text = tile.to_string();
        assert_eq!(text.chars().count(), 2);
        assert!(!texts.contains(&text));
        texts.push(text);
    }
}

#[test]
fn new_puts_the_tiles_in_order() {
    let hand = Hand::new(
        tiles(&[33, 0, 27, 9, 9, 18, 8, 26, 17, 1, 1, 30, 2]),
        Some(Tile::new(4).unwrap()),
    );
    assert_eq!(
        indices(&hand.ordered_tiles()),
        vec![0, 1, 1, 2, 8, 9, 9, 17, 18, 26, 27, 30, 33, 4]
    );
    assert_eq!(hand.to_string(), "1m2m2m3m9m1p1p9p1s9s1z4z7z 5m");
}

#[test]
fn new_without_a_drawn_tile() {
    let hand = Hand::new(tiles(&[0, 1, 2, 3, 4, 5, 6, 7, 8, 9, 10, 11, 12]), None);
    assert_eq!(
        indices(&hand.ordered_tiles()),
        vec![0, 1, 2, 3, 4, 5, 6, 7, 8, 9, 10, 11, 12]
    );
    assert_eq!(hand.to_string(), "1m2m3m4m5m6m7m8m9m1p2p3p4p");
}

#[test]
fn hand_in_pictures() {
    let hand = Hand::parse("123m456p789s1112z 2z").unwrap();
    assert_eq!(
        hand.to_emoji(),
        "\u{1F007}\u{1F008}\u{1F009}\u{1F01C}\u{1F01D}\u{1F01E}\u{1F016}\u{1F017}\u{1F018}\u{1F000}\u{1F000}\u{1F000}\u{1F001} \u{1F001}"
    );
    let concealed = Hand::parse("123m456p789s1112z").unwrap();
    assert_eq!(
        concealed.to_emoji(),
        "\u{1F007}\u{1F008}\u{1F009}\u{1F01C}\u{1F01D}\u{1F01E}\u{1F016}\u{1F017}\u{1F018}\u{1F000}\u{1F000}\u{1F000}\u{1F001}"
    );
}

#[test]
fn hand_in_writing() {
    let hand = Hand::parse("123m456p789s1112z 2z").unwrap();
    assert_eq!(hand.to_string(), "1m2m3m4p5p6p7s8s9s1z1z1z2z 2z");
}

#[test]
fn parse_reads_each_digit_with_the_next_suit_letter() {
    let hand = Hand::parse("2z111z987s654p321m 9p").unwrap();
    assert_eq!(
        indices(&hand.ordered_tiles()),
        vec![0, 1, 2, 12, 13, 14, 24, 25, 26, 27, 27, 27, 28, 17]
    );
    let split = Hand::parse("1m2m3m4p5p6p7s8s9s1z1z1z2z").unwrap();
    assert_eq!(
        indices(&split.ordered_tiles()),
        vec![0, 1, 2, 12, 13, 14, 24, 25, 26, 27, 27, 27, 28]
    );
}

#[test]
fn parse_refuses_what_names_no_tiles() {
    let refused = |text: &str| matches!(Hand::parse(text), Err(HandError::InvalidNotation));
    // a digit without a suit
    assert!(refused("123m456p789s1112"));
    // a letter that is no suit
    assert!(refused("123m456p789s1112x"));
    // rank 0, and honors above 7
    assert!(refused("023m456p789s1112z"));
    assert!(refused("123m456p789s1118z"));
    // a space without a drawn tile, two drawn tiles, two spaces
    assert!(refused("123m456p789s1112z "));
    assert!(refused("123m456p789s1112z 23z"));
    assert!(refused("123m456p789s1112z 2z 3z"));
    assert!(refused("123m456p789s1112z  2z"));
    // not the hand, but the drawn tile unreadable
    assert!(refused("123m456p789s1112z 2"));
}

#[test]
fn parse_refuses_a_hand_that_has_not_13_concealed_tiles() {
    let refused = |text: &str| matches!(Hand::parse(text), Err(HandError::InvalidHandSize));
    assert!(refused(""));
    assert!(refused("123m456p789s111z"));
    assert!(refused("123m456p789s11122z"));
    assert!(refused("123m456p789s111z 2z"));
    assert!(refused(" 2z"));
}

#[test]
fn with_melds_refuses_a_hand_that_has_not_13_concealed_tiles() {
    assert!(matches!(
        Hand::with_melds(tiles(&[0, 1, 2]), None, Vec::new()),
        Err(HandError::InvalidHandSize)
    ));
    assert!(matches!(
        Hand::with_melds(
            tiles(&[0, 1, 2, 3, 4, 5, 6, 7, 8, 9, 10, 11, 12, 13]),
            None,
            Vec::new()
        ),
        Err(HandError::InvalidHandSize)
    ));
}

#[test]
fn meld_has_three_tiles_or_four() {
    assert!(Meld::new(tiles(&[0, 1, 2]), MeldType::Chi, MeldFrom::Previous).is_some());
    assert!(Meld::new(tiles(&[5, 5, 5]), MeldType::Pon, MeldFrom::Opposite).is_some());
    assert!(Meld::new(tiles(&[5, 5, 5, 5]), MeldType::Kan, MeldFrom::Myself).is_some());
    assert!(Meld::new(tiles(&[5, 5, 5]), MeldType::Kan, MeldFrom::Folloing).is_none());
    assert!(Meld::new(tiles(&[5, 5, 5, 5]), MeldType::Pon, MeldFrom::Previous).is_none());
    assert!(Meld::new(tiles(&[0, 1]), MeldType::Chi, MeldFrom::Previous).is_none());
    // whether the tiles make the group is not looked at
    assert!(Meld::new(tiles(&[0, 9, 33]), MeldType::Chi, MeldFrom::Previous).is_some());
}

#[test]
fn the_tiles_of_melds_are_counted_with_the_hand() {
    let concealed = tiles(&[0, 0, 1, 1, 9, 9, 10, 10, 18, 18, 19, 19, 27]);
    let without = Hand::with_melds(concealed.clone(), None, Vec::new()).unwrap();
    // six pairs of six kinds and a seventh kind
    assert_eq!(
        HandAnalyzer::calc_by_form(&without, WinningHandForm::SevenPairs).shanten,
        0
    );
    // the meld brings the second east wind, and a pair of another kind
    let meld = Meld::new(tiles(&[27, 33, 33]), MeldType::Pon, MeldFrom::Opposite).unwrap();
    let with = Hand::with_melds(concealed.clone(), None, vec![meld]).unwrap();
    assert_eq!(
        HandAnalyzer::calc_by_form(&with, WinningHandForm::SevenPairs).shanten,
        -2
    );
    // melds are no part of the hand in writing
    assert_eq!(with.to_string(), "1m1m2m2m1p1p2p2p1s1s2s2s1z");
    let quad = Meld::new(tiles(&[30, 30, 30, 30]), MeldType::Kan, MeldFrom::Myself).unwrap();
    let kan = Hand::with_melds(concealed, Some(Tile::new(27).unwrap()), vec![quad]).unwrap();
    // seven pairs with the drawn tile, and the quad as one more kind held twice
    assert_eq!(
        HandAnalyzer::calc_by_form(&kan, WinningHandForm::SevenPairs).shanten,
        -2
    );
    // normal shape: seven pairs are seven blocks of two, and the quad holds a triplet
    assert_eq!(
        HandAnalyzer::calc_by_form(&kan, WinningHandForm::Normal).shanten,
        8 - 2 * 1 - 7
    );
}

#[test]
fn tiles_are_ordered_by_kind() {
    let low = Tile::new(Tile::M9).unwrap();
    let high = Tile::new(Tile::P1).unwrap();
    assert!(low < high);
    assert!(high > low);
    assert!(low <= Tile::new(Tile::M9).unwrap());
    assert_eq!(low, Tile::new(Tile::M9).unwrap());
    assert_ne!(low, high);
    let mut all = tiles(&[33, 0, 17, 9]);
    all.sort();
    assert_eq!(indices(&all), vec![0, 9, 17, 33]);
}

#[test]
fn tile_count_counts_every_tile_once() {
    assert_eq!(Hand::parse("123m456p789s1112z").unwrap().tile_count(), 13);
    assert_eq!(Hand::parse("123m456p789s1112z 2z").unwrap().tile_count(), 14);
    let concealed = tiles(&[0, 0, 1, 1, 9, 9, 10, 10, 18, 18, 19, 19, 27]);
    let pon = Meld::new(tiles(&[27, 33, 33]), MeldType::Pon, MeldFrom::Opposite).unwrap();
    let kan = Meld::new(tiles(&[30, 30, 30, 30]), MeldType::Kan, MeldFrom::Myself).unwrap();
    let hand = Hand::with_melds(concealed, Some(Tile::new(5).unwrap()), vec![pon, kan]).unwrap();
    assert_eq!(hand.tile_count(), 13 + 1 + 3 + 4);
}
