use mahjong_rs::hand::Hand;
use mahjong_rs::hand_info::winning_hand::WinningHandForm;
use mahjong_rs::shanten::shanten::Shanten;

#[test]
fn shanten_win_by_seven_pairs() {
    let test_str = "1122m3344p5566s1z 1z";
    let test = Hand::parse(test_str).unwrap();
    assert_eq!(
        Shanten::calc_by_form(&test, WinningHandForm::SevenPairs).num,
        -1
    );
}

#[test]
fn shanten_win_by_thirteen_orphens() {
    let test_str = "19m19p19s1234567z 1m";
    let test = Hand::parse(test_str).unwrap();
    assert_eq!(
        Shanten::calc_by_form(&test, WinningHandForm::ThirteenOrphens).num,
        -1
    );
}

#[test]
fn shanten_zero_shanten_to_seven_pairs() {
    let test_str = "226699m99p228s66z 1z";
    let test = Hand::parse(test_str).unwrap();
    assert_eq!(
        Shanten::calc_by_form(&test, WinningHandForm::SevenPairs).num,
        0
    );
}

#[test]
fn shanten_zero_shanten_to_orphens() {
    let test_str = "19m19p11s1234567z 5m";
    let test = Hand::parse(test_str).unwrap();
    assert_eq!(
        Shanten::calc_by_form(&test, WinningHandForm::ThirteenOrphens).num,
        0
    );
}

#[test]
fn shanten_normal_form_is_complete() {
    let test = Hand::parse("123m456p789s1112z 2z").unwrap();
    assert_eq!(Shanten::calc_by_form(&test, WinningHandForm::Normal).num, -1);
}

#[test]
fn shanten_calc_is_the_least_of_the_three_forms() {
    let hand = Hand::parse("19m19p11s1234567z 5m").unwrap();
    let all = Shanten::calc(&hand);
    assert_eq!(all.num, 0);
    assert_eq!(all.form, WinningHandForm::ThirteenOrphens);
    assert_eq!(
        Shanten::calc_by_form(&hand, WinningHandForm::SevenPairs).num,
        5
    );
    assert_eq!(Shanten::calc_by_form(&hand, WinningHandForm::Normal).num, 7);
}

#[test]
fn shanten_numbers_compare_by_the_number() {
    let low = Shanten {
        num: 0,
        form: WinningHandForm::Normal,
    };
    let high = Shanten {
        num: 3,
        form: WinningHandForm::SevenPairs,
    };
    let same = Shanten {
        num: 0,
        form: WinningHandForm::SevenPairs,
    };
    assert!(low < high);
    assert!(high > low);
    assert!(low == same);
    assert!(low <= same);
}
