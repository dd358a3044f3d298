use optimus::card::{str2cards, strvec2cards};
use optimus::hand::cards2bitmap;
use optimus::strength::{hand_strength, rank_strength, FastHandTable, PokerRank};

#[test]
fn tests_hand_comparisons() {
    // define the hands we'll be using
    let royal_flush = str2cards("JdAsJsKsQsTs2c");
    let royal_flush2 = str2cards("JdAcJcKcQcTc2c");
    let straight_flush = str2cards("7d2c8dJd9d3dTd");
    let full_house = str2cards("AsJdQsJc2cAcAh");
    let same_full_house = str2cards("AsJs2sJc2cAcAh");
    let better_full_house = str2cards("2d9sQdQsAcAhAs");
    let full_house3 = str2cards("3d3h3c2c2d");
    let full_house2 = str2cards("3d3h2c2h2d");
    let flush = str2cards("Jh2c2h3h7hAs9h");
    let same_flush = str2cards("Jh2c2h3h7h2s9h");
    let better_flush = str2cards("Jh2cAh3h7hTs9h");
    let straight = str2cards("Ah2s3d5c4c");
    let better_straight = str2cards("6h2s3d5c4c");
    let trips = str2cards("5d4c6d6h6c");
    let two_pair = str2cards("6d5c5hAhAc");
    let better_two_pair = str2cards("TdThAdAc6h");
    let pair = str2cards("Ah2d2s3c5c");
    let ace_pair = str2cards("AcAs2s3d6c");
    let better_kicker = str2cards("AcAsTs3d6c");
    let high_card = str2cards("KhAhQh2h3s");
    let other_high_card = str2cards("KsAsQs2h3s");

    // Get strengths
    let royal_flush = hand_strength(&royal_flush);
    let royal_flush2 = hand_strength(&royal_flush2);
    let straight_flush = hand_strength(&straight_flush);
    let full_house = hand_strength(&full_house);
    let full_house2 = hand_strength(&full_house2);
    let full_house3 = hand_strength(&full_house3);
    let same_full_house = hand_strength(&same_full_house);
    let better_full_house = hand_strength(&better_full_house);
    let flush = hand_strength(&flush);
    let same_flush = hand_strength(&same_flush);
    let better_flush = hand_strength(&better_flush);
    let straight = hand_strength(&straight);
    let better_straight = hand_strength(&better_straight);
    let trips = hand_strength(&trips);
    let two_pair = hand_strength(&two_pair);
    let better_two_pair = hand_strength(&better_two_pair);
    let pair = hand_strength(&pair);
    let ace_pair = hand_strength(&ace_pair);
    let better_kicker = hand_strength(&better_kicker);
    let high_card = hand_strength(&high_card);
    let other_high_card = hand_strength(&other_high_card);

    // Test different hand type comparisons
    assert!(royal_flush > straight_flush);
    assert!(royal_flush > trips);
    assert!(straight_flush > full_house);
    assert!(trips > two_pair);
    assert!(high_card < pair);
    assert!(straight < flush);

    // Test rank levels within hands
    assert!(better_two_pair > two_pair);
    assert!(better_flush > flush);
    assert!(better_kicker > ace_pair);
    assert!(better_straight > straight);
    assert!(better_full_house > full_house);
    assert!(full_house3 > full_house2);
    assert!(full_house > full_house3);

    // Test for ties
    assert_eq!(royal_flush, royal_flush2);
    assert_eq!(same_full_house, full_house);
    assert_eq!(other_high_card, high_card);
    assert_eq!(same_flush, flush);
}

fn fast_hand_strength(hand: Vec<&str>, table: &FastHandTable) -> i32 {
    table.hand_strength(&strvec2cards(&hand))
}

#[test]
fn fast_hand_evaluation() {
    // define the hands we'll be using
    let royal_flush = vec!["Jd", "As", "Js", "Ks", "Qs", "Ts", "2c"];
    let royal_flush2 = vec!["Jd", "Ac", "Jc", "Kc", "Qc", "Tc", "2c"];
    let straight_flush = vec!["7d", "2c", "8d", "Jd", "9d", "3d", "Td"];
    let four = vec!["2h", "2c", "3d", "5c", "7d", "2d", "2s"];
    let full_house = vec!["As", "Jd", "Qs", "Jc", "2c", "Ac", "Ah"];
    let same_full_house = vec!["As", "Js", "2s", "Jc", "2c", "Ac", "Ah"];
    let better_full_house = vec!["2d", "9s", "Qd", "Qs", "Ac", "Ah", "As"];

    // The table holds the strengths of the hands it is asked about.
    let mut table = FastHandTable::empty();
    for hand in [
        &royal_flush,
        &royal_flush2,
        &straight_flush,
        &four,
        &full_house,
        &same_full_house,
        &better_full_house,
    ] {
        table.add_hand(&strvec2cards(hand));
    }

    // Get strengths
    let royal_flush = fast_hand_strength(royal_flush, &table);
    let royal_flush2 = fast_hand_strength(royal_flush2, &table);
    let straight_flush = fast_hand_strength(straight_flush, &table);
    let four = fast_hand_strength(four, &table);
    let full_house = fast_hand_strength(full_house, &table);
    let same_full_house = fast_hand_strength(same_full_house, &table);
    let better_full_house = fast_hand_strength(better_full_house, &table);

    // Test comparisons
    assert!(royal_flush > straight_flush);
    assert!(royal_flush > four);
    assert!(straight_flush > better_full_house);
    assert!(better_full_house > full_house);

    // Test for ties
    assert_eq!(royal_flush, royal_flush2);
    assert_eq!(same_full_house, full_house);
}

#[test]
fn high_pair_beats_low_pair() {
    let human = str2cards("TdTc9c5s4d6hJd");
    let cpu = str2cards("As4s9c5s4d6hJd");
    assert!(hand_strength(&human) > hand_strength(&cpu));

    let human = str2cards("TdTc9c6hJd");
    let cpu = str2cards("As4s9c4dJd");
    assert!(hand_strength(&human) > hand_strength(&cpu));

    let human = str2cards("9cTcTdJd6h");
    let cpu = str2cards("4cJc4dAd9h");
    assert!(hand_strength(&human) > hand_strength(&cpu));
}

#[test]
fn rank_strength_values() {
    assert_eq!(rank_strength(PokerRank::HighCard(7)), 7);
    assert_eq!(rank_strength(PokerRank::OnePair(5)), 100_000_005);
    assert_eq!(rank_strength(PokerRank::FullHouse(3)), 600_000_003);
    assert_eq!(rank_strength(PokerRank::StraightFlush(0)), 800_000_000);
}

#[test]
fn hand_strength_kinds() {
    // A hand's kind is its strength divided by 100 000 000.
    assert_eq!(hand_strength(&str2cards("KhAhQh2h3s")) / 100_000_000, 0);
    assert_eq!(hand_strength(&str2cards("Ah2d2s3c5c")) / 100_000_000, 1);
    assert_eq!(hand_strength(&str2cards("5d4c6d6h6c")) / 100_000_000, 3);
    assert_eq!(hand_strength(&str2cards("6h2s3d5c4c")) / 100_000_000, 4);
    assert_eq!(hand_strength(&str2cards("2h2c3d5c7d2d2s")) / 100_000_000, 7);
}

#[test]
fn table_lookup_matches_evaluation() {
    let cards = str2cards("2d9sQdQsAcAhAs");
    let mut table = FastHandTable::empty();
    table.add_hand(&cards);
    assert_eq!(table.hand_strength(&cards), hand_strength(&cards));
    assert_eq!(table.strengths().len(), 1);
    // The lookup does not depend on the order of the cards.
    assert_eq!(table.hand_strength(&str2cards("AsAhAcQsQd9s2d")), hand_strength(&cards));
}

#[test]
fn table_lookup_in_any_order() {
    let mut table = FastHandTable::empty();
    let hand = str2cards("JdAsJsKsQsTs2c");
    table.add_hand(&hand);
    assert!(table.can_look_up(&str2cards("2cTsQsKsJsAsJd")));
    assert!(!table.can_look_up(&str2cards("2cTsQsKsJsAs3d")));
    assert_eq!(table.hand_strength(&str2cards("AsKsQsJsTsJd2c")), hand_strength(&hand));
    assert_eq!(hand_strength(&str2cards("2cJdTsQsKsJsAs")), hand_strength(&hand));
    assert_eq!(cards2bitmap(&str2cards("2cJdTsQsKsJsAs")), cards2bitmap(&hand));
}
