use optimus::canonical::saved_lines_ok;
use optimus::card::{cards2str, deck, deepcopy, is_cards_text, rank_str, str2cards, strvec2cards, Card, CLUBS, DIAMONDS};
use optimus::hand::{card, cards2bitmap, cards2hand, hand2cards, hand2str, len, rank, str2hand, suit};

#[test]
fn tests_uint_hands() {
    let hand: u64 = str2hand("Ac2d7h9cTd2s8c");
    assert_eq!(suit(card(hand, 0)), CLUBS);
    assert_eq!(rank(card(hand, 0)), 14);
    assert_eq!(suit(card(hand, 1)), DIAMONDS);
    assert_eq!(rank(card(hand, 1)), 2);
    assert_eq!(suit(card(hand, 4)), DIAMONDS);
    assert_eq!(rank(card(hand, 4)), 10);
    assert_eq!(suit(card(hand, 6)), CLUBS);
    assert_eq!(rank(card(hand, 6)), 8);
    assert_eq!(len(hand), 7);
    assert_eq!(hand2str(str2hand("9d8c7c6s5hQh")), "9d8c7c6s5hQh");

    let cards = vec![
        Card::new("8d"),
        Card::new("7c"),
        Card::new("2d"),
        Card::new("9c"),
        Card::new("Qd"),
        Card::new("Ah"),
    ];
    assert_eq!(hand2cards(cards2hand(&cards)), cards);
}

#[test]
fn card_bitmap() {
    let hand = vec!["2d", "9s", "Qd", "Qs", "Ac", "Ah", "As"];

    /*     filler       clubs           diamonds      hearts        spades
     *
     *    |            |23456789TJQKA|23456789TJQKA|23456789TJQKA|23456789TJQKA|
     *    |000000000000|0000000000001|1000000000100|0000000000001|0000000100101|
     */
    let expected = 0b0000000000000000000000001100000000010000000000000010000000100101;
    assert_eq!(cards2bitmap(&strvec2cards(&hand)), expected);
}

#[test]
fn card_new_reads_rank_and_suit() {
    assert_eq!(Card::new("Td"), Card { rank: 10, suit: 1 });
    assert_eq!(Card::new("As"), Card { rank: 14, suit: 3 });
    assert_eq!(Card::new("2c"), Card { rank: 2, suit: 0 });
    assert_eq!(Card::new("Kh"), Card { rank: 13, suit: 2 });
    // Characters after the second are ignored.
    assert_eq!(Card::new("Qhx"), Card { rank: 12, suit: 2 });
}

#[test]
fn card_names() {
    assert_eq!(Card { rank: 10, suit: 1 }.to_string(), "Td");
    assert_eq!(Card { rank: 14, suit: 3 }.to_string(), "As");
    assert_eq!(rank_str(9), "9");
    assert_eq!(rank_str(11), "J");
    assert_eq!(rank_str(14), "A");
}

#[test]
fn cards_order_by_rank_then_suit() {
    assert!(Card::new("2s") < Card::new("3c"));
    assert!(Card::new("Tc") < Card::new("Td"));
    assert!(Card::new("Ac") > Card::new("Ks"));
}

#[test]
fn deck_holds_every_card_once() {
    let d = deck();
    assert_eq!(d.len(), 52);
    assert_eq!(d[0], Card { rank: 2, suit: 0 });
    assert_eq!(d[1], Card { rank: 2, suit: 1 });
    assert_eq!(d[4], Card { rank: 3, suit: 0 });
    assert_eq!(d[51], Card { rank: 14, suit: 3 });
    for i in 0..d.len() {
        for j in i + 1..d.len() {
            assert_ne!(d[i], d[j]);
        }
    }
}

#[test]
fn cards_text_roundtrip() {
    let cards = str2cards("AsKd2c");
    assert_eq!(cards, vec![Card::new("As"), Card::new("Kd"), Card::new("2c")]);
    assert_eq!(cards2str(&cards), "AsKd2c");
    assert_eq!(cards2str(&str2cards("9d8c7c6s5hQhTd")), "9d8c7c6s5hQhTd");
    assert_eq!(str2cards(""), Vec::<Card>::new());
}

#[test]
fn strvec_and_deepcopy() {
    let cards = strvec2cards(&["Jd", "3h"]);
    assert_eq!(cards, vec![Card { rank: 11, suit: 1 }, Card { rank: 3, suit: 2 }]);
    let refs: Vec<&Card> = cards.iter().collect();
    assert_eq!(deepcopy(&refs), cards);
}

#[test]
fn compact_hand_layout() {
    // Each card takes one byte, 15 * suit + rank, from the least significant byte up.
    assert_eq!(str2hand("Ac"), 14);
    assert_eq!(str2hand("2d"), 17);
    assert_eq!(str2hand("Ac2d"), 14 + (17 << 8));
    assert_eq!(cards2hand(&str2cards("Ac2d")), 14 + (17 << 8));
    assert_eq!(len(0), 0);
    assert_eq!(len(str2hand("Ac2d7h")), 3);
    assert_eq!(hand2cards(0), Vec::<Card>::new());
    assert_eq!(hand2str(cards2hand(&str2cards("KsQh"))), "KsQh");
}

#[test]
fn card_byte_split() {
    assert_eq!(card(str2hand("Ac2d7h"), 2), 15 * 2 + 7);
    assert_eq!(suit(37), 2);
    assert_eq!(rank(37), 7);
    assert_eq!(suit(-37), -2);
    assert_eq!(rank(-37), -7);
}

#[test]
fn bitmap_bits() {
    assert_eq!(cards2bitmap(&str2cards("As")), 1);
    assert_eq!(cards2bitmap(&str2cards("2c")), 1 << 51);
    assert_eq!(cards2bitmap(&str2cards("Ah")), 1 << 13);
    assert_eq!(cards2bitmap(&[]), 0);
}

#[test]
fn bitmap_has_one_bit_per_card() {
    let cards = str2cards("2c3d4h5s6cAhKs");
    let bitmap = cards2bitmap(&cards);
    assert_eq!(bitmap.count_ones(), 7);
    assert!(bitmap < 1 << 52);
    assert_eq!(cards2bitmap(&deck()).count_ones(), 52);
}

#[test]
fn text_and_cards_give_the_same_hand() {
    for text in ["", "As", "2c7h", "AsKdQhJcTs", "2h8sKd4c4sTcTd", "2c3c4c5c6c7c8c9c"] {
        assert_eq!(str2hand(text), cards2hand(&str2cards(text)));
    }
}

#[test]
fn card_text_checks() {
    assert!(is_cards_text(""));
    assert!(is_cards_text("AsKd"));
    assert!(is_cards_text("2c3d4h5s6c7d8h9sTcJdQhKs"));
    assert!(!is_cards_text("AsK"));
    assert!(!is_cards_text("1c"));
    assert!(!is_cards_text("Ax"));
    assert!(!is_cards_text("as"));
    let good = vec![String::from("AsKd2c"), String::from("2c3d4h5s6c7d8h9s")];
    assert!(saved_lines_ok(&good));
    let too_long = vec![String::from("2c3d4h5s6c7d8h9sTc")];
    assert!(!saved_lines_ok(&too_long));
    let bad = vec![String::from("AsKd"), String::from("AsKx")];
    assert!(!saved_lines_ok(&bad));
}
