use mahjong_rs::hand::Hand;
use mahjong_rs::hand_info::hand_analyzer::HandAnalyzer;
use mahjong_rs::hand_info::winning_hand::WinningHandForm;

#[test]
fn hand_analyzer_win_by_seven_pairs() {
    let test_str = "1122m3344p5566s1z 1z";
    let test = Hand::parse(test_str).unwrap();
    assert_eq!(
        HandAnalyzer::calc_by_form(&test, WinningHandForm::SevenPairs).shanten,
        -1
    );
}

#[test]
fn hand_analyzer_win_by_thirteen_orphens() {
    let test_str = "19m19p19s1234567z 1m";
    let test = Hand::parse(test_str).unwrap();
    assert_eq!(
        HandAnalyzer::calc_by_form(&test, WinningHandForm::ThirteenOrphens).shanten,
        -1
    );
}

#[test]
fn hand_analyzer_zero_shanten_to_seven_pairs() {
    let test_str = "226699m99p228s66z 1z";
    let test = Hand::parse(test_str).unwrap();
    assert_eq!(
        HandAnalyzer::calc_by_form(&test, WinningHandForm::SevenPairs).shanten,
        0
    );
}

#[test]
fn zero_shanten_to_seven_pairs_2() {
    let test_str = "226699m99p222s66z 1z";
    let test = Hand::parse(test_str).unwrap();
    assert_eq!(
        HandAnalyzer::calc_by_form(&test, WinningHandForm::SevenPairs).shanten,
        0
    );
}

#[test]
fn hand_analyzer_zero_shanten_to_orphens() {
    let test_str = "19m19p11s1234567z 5m";
    let test = Hand::parse(test_str).unwrap();
    assert_eq!(
        HandAnalyzer::calc_by_form(&test, WinningHandForm::ThirteenOrphens).shanten,
        0
    );
}

#[test]
fn seven_pairs_with_4_same_tiles() {
    let test_str = "1122m3344p5555s1z 1z";
    let test = Hand::parse(test_str).unwrap();
    assert_eq!(
        HandAnalyzer::calc_by_form(&test, WinningHandForm::SevenPairs).shanten,
        1
    );
}

#[test]
fn win_by_riichi() {
    let test_str = "123m456p789s1112z 2z";
    let test = Hand::parse(test_str).unwrap();
    assert_eq!(
        HandAnalyzer::calc_by_form(&test, WinningHandForm::Normal).shanten,
        -1
    );
}

fn normal(text: &str) -> i32 {
    let hand = Hand::parse(text).unwrap();
    HandAnalyzer::calc_by_form(&hand, WinningHandForm::Normal).shanten
}

#[test]
fn calc_by_form_keeps_the_form() {
    let hand = Hand::parse("123m456p789s1112z 2z").unwrap();
    assert_eq!(
        HandAnalyzer::calc_by_form(&hand, WinningHandForm::SevenPairs).form,
        WinningHandForm::SevenPairs
    );
    assert_eq!(
        HandAnalyzer::calc_by_form(&hand, WinningHandForm::ThirteenOrphens).form,
        WinningHandForm::ThirteenOrphens
    );
    assert_eq!(
        HandAnalyzer::calc_by_form(&hand, WinningHandForm::Normal).form,
        WinningHandForm::Normal
    );
}

#[test]
fn normal_form_counts_two_for_a_block_of_three_and_one_for_a_block_of_two() {
    // thirteen single tiles that stand alone: nothing to take off 8
    assert_eq!(normal("147m147p147s1234z"), 8);
    // one pair
    assert_eq!(normal("147m147p147s1233z"), 7);
    // one triplet
    assert_eq!(normal("147m147p147s1333z"), 6);
    // one run of three
    assert_eq!(normal("123m147p147s1234z"), 6);
    // one adjacent pair
    assert_eq!(normal("127m147p147s1234z"), 7);
    // one gapped pair
    assert_eq!(normal("137m147p147s1234z"), 7);
}

#[test]
fn normal_form_nine_gates_is_complete_with_every_tile_of_the_suit() {
    assert_eq!(normal("1112345678999m 1m"), -1);
    assert_eq!(normal("1112345678999m 5m"), -1);
    assert_eq!(normal("1112345678999m 9m"), -1);
}

#[test]
fn normal_form_of_a_ready_hand_is_zero() {
    assert_eq!(normal("123456789m1234p 5s"), 0);
    assert_eq!(normal("123m456p789s1112z"), 0);
}

#[test]
fn normal_form_takes_overlapping_runs_apart() {
    // 112233m is two runs, 556677p two more, 99s the pair
    assert_eq!(normal("112233m556677p9s 9s"), -1);
    // 111222333m as three triplets or three runs, 789p, 55s
    assert_eq!(normal("111222333m789p5s 5s"), -1);
}

#[test]
fn normal_form_does_not_join_tiles_across_suits_or_honors() {
    // 89m and 1p do not make a run, nor 9p and 1s, nor 123z: what is left is
    // the adjacent pair 89m and the pair of 7z
    assert_eq!(normal("89m19p15s1234677z"), 8 - 1 - 1);
}

#[test]
fn normal_form_counts_a_fifth_block_of_two_as_well() {
    // four blocks of three and an adjacent pair come to -1
    assert_eq!(normal("111m222m333m444m5m 6m"), -1);
}

#[test]
fn two_calls_on_one_hand_agree() {
    let hand = Hand::parse("1112345678999m 5m").unwrap();
    let first = HandAnalyzer::calc(&hand);
    let second = HandAnalyzer::calc(&hand);
    assert_eq!(first.shanten, second.shanten);
    assert_eq!(first.form, second.form);
    assert_eq!(hand.to_string(), "1m1m1m2m3m4m5m6m7m8m9m9m9m 5m");
}

#[test]
fn calc_is_the_least_of_the_three_forms() {
    for text in [
        "1122m3344p5566s1z 1z",
        "19m19p19s1234567z 1m",
        "123m456p789s1112z 2z",
        "226699m99p228s66z 1z",
        "147m147p147s1234z",
        "1112345678999m 5m",
    ] {
        let hand = Hand::parse(text).unwrap();
        let sp = HandAnalyzer::calc_by_form(&hand, WinningHandForm::SevenPairs).shanten;
        let to = HandAnalyzer::calc_by_form(&hand, WinningHandForm::ThirteenOrphens).shanten;
        let normal = HandAnalyzer::calc_by_form(&hand, WinningHandForm::Normal).shanten;
        let all = HandAnalyzer::calc(&hand);
        assert_eq!(all.shanten, sp.min(to).min(normal));
        assert_eq!(
            all.shanten,
            HandAnalyzer::calc_by_form(&hand, all.form).shanten
        );
    }
}

#[test]
fn calc_names_the_nearest_form() {
    let pairs = HandAnalyzer::calc(&Hand::parse("1122m3344p5566s1z 1z").unwrap());
    assert_eq!(pairs.shanten, -1);
    assert_eq!(pairs.form, WinningHandForm::SevenPairs);
    let orphans = HandAnalyzer::calc(&Hand::parse("19m19p19s1234567z 1m").unwrap());
    assert_eq!(orphans.shanten, -1);
    assert_eq!(orphans.form, WinningHandForm::ThirteenOrphens);
    let normal = HandAnalyzer::calc(&Hand::parse("123m456p789s1112z 2z").unwrap());
    assert_eq!(normal.shanten, -1);
    assert_eq!(normal.form, WinningHandForm::Normal);
}

#[test]
fn calc_prefers_seven_pairs_among_equals() {
    // 112233m445566p7s 7s is complete both as seven pairs and as four runs and a pair
    let both = HandAnalyzer::calc(&Hand::parse("112233m445566p7s 7s").unwrap());
    assert_eq!(both.shanten, -1);
    assert_eq!(both.form, WinningHandForm::SevenPairs);
}

#[test]
fn seven_pairs_formula() {
    let by = |text: &str| {
        HandAnalyzer::calc_by_form(&Hand::parse(text).unwrap(), WinningHandForm::SevenPairs).shanten
    };
    // 13 kinds, no pair: 7 - 0 + 0 - 1
    assert_eq!(by("147m147p147s1234z"), 6);
    // 4 kinds, 3 of them held twice or more: 7 - 3 + 3 - 1
    assert_eq!(by("1111m2222p3333s4z"), 6);
    // a third and a fourth tile of a kind add no pair
    assert_eq!(by("1122m3344p5566s1z 1z"), -1);
    assert_eq!(by("1122m3344p5556s1z 1z"), 0);
    assert_eq!(by("1122m3344p5555s1z 1z"), 1);
}

#[test]
fn thirteen_orphans_formula() {
    let by = |text: &str| {
        HandAnalyzer::calc_by_form(&Hand::parse(text).unwrap(), WinningHandForm::ThirteenOrphens)
            .shanten
    };
    // no terminal, no honor: 14 - 0 - 0 - 1
    assert_eq!(by("2345678m234567p"), 13);
    // all thirteen, none twice
    assert_eq!(by("19m19p19s1234567z"), 0);
    // twelve kinds, one of them twice, and a tile that is no orphan
    assert_eq!(by("19m19p11s1234567z 5m"), 0);
    // a pair of a kind that is no orphan does not count
    assert_eq!(by("19m19p1s1234567z5m 5m"), 1);
}

#[test]
fn results_compare_by_the_number() {
    let hand = Hand::parse("1122m3344p5566s1z 1z").unwrap();
    let sp = HandAnalyzer::calc_by_form(&hand, WinningHandForm::SevenPairs);
    let to = HandAnalyzer::calc_by_form(&hand, WinningHandForm::ThirteenOrphens);
    assert!(sp < to);
    assert!(sp != to);
    let again = HandAnalyzer {
        shanten: -1,
        form: WinningHandForm::Normal,
    };
    assert!(sp == again);
}

#[test]
fn seven_pairs_never_worse_with_a_new_kind_or_a_second_copy() {
    let by = |text: &str| {
        HandAnalyzer::calc_by_form(&Hand::parse(text).unwrap(), WinningHandForm::SevenPairs).shanten
    };
    // a first tile of a seventh kind
    assert_eq!(by("1111m2222p3333s4z"), 6);
    assert_eq!(by("1111m2222p3333s4z 5z"), 5);
    // a single tile given up for the second tile of a kind held once
    assert_eq!(by("1122m3344p55s678m"), 1);
    assert_eq!(by("1122m3344p55s677m"), 0);
}

#[test]
fn thirteen_orphans_complete_with_any_orphan_twice() {
    let by = |text: &str| {
        HandAnalyzer::calc_by_form(&Hand::parse(text).unwrap(), WinningHandForm::ThirteenOrphens)
            .shanten
    };
    for drawn in ["1m", "9m", "1p", "9p", "1s", "9s", "1z", "2z", "3z", "4z", "5z", "6z", "7z"] {
        assert_eq!(by(&format!("19m19p19s1234567z {}", drawn)), -1);
    }
    for drawn in ["2m", "5p", "8s"] {
        assert_eq!(by(&format!("19m19p19s1234567z {}", drawn)), 0);
    }
}

#[test]
fn normal_form_sets_lone_blocks_aside() {
    // two runs on the same three kinds, a lone triplet of honors, lone single tiles
    assert_eq!(normal("112233m9p5s111z47z"), 8 - 2 * 3);
    // a fourth tile of a lone triplet is left over as a single tile
    assert_eq!(normal("1111m5p9s1234567z 5s"), 8 - 2);
    // a run with a tile next to it does not stand alone, and is found by the search
    assert_eq!(normal("1234m9p5s1234567z"), 8 - 2);
    assert_eq!(normal("1245m9p5s1234567z"), 8 - 1 - 1);
}

#[test]
fn normal_form_weighs_a_triplet_against_runs() {
    // 1112m3m: the triplet and the adjacent pair 23m, or the run and the pair 11m
    assert_eq!(normal("11123m159p159s12z"), 8 - 2 - 1);
    // 111m 234m 567m 888m 99m... as 11 123 456 78 899 or as triplets and runs
    assert_eq!(normal("1112345678889m 9m"), -1);
    // 3334455m: 345m 345m 3m or 333m 45m 45m
    assert_eq!(normal("3334455m19p19s12z"), 8 - 2 * 2);
}
