use std::collections::HashSet;

use optimus::abstraction::{
    bucket_sizes, buckets_match, isomorphic_preflop_hands, preflop_hand_name, smallest_bucket, Abstraction,
};
use optimus::canonical::load_flop_isomorphic;
use optimus::counting::get_hand_counts;
use optimus::card::{cards2str, str2cards, Card};
use optimus::hand::{cards2hand, str2hand};
use optimus::infoset::{board_length, get_hand, InfoSet};
use optimus::history::ActionHistory;
use optimus::iso::{isomorphic_hand, sort_isomorphic};
use std::collections::HashMap;

#[test]
fn isomorphic_hand_example() {
    let hand: Vec<Card> = str2cards("2h8sKd4c4sTcTd");
    let expected_result = str2cards("8c2s4c4dTdThKh");
    let result: Vec<Card> = isomorphic_hand(&hand, true).to_vec();
    assert_eq!(result, expected_result, "{}", cards2str(&result));
}

#[test]
fn isomorphic_hand_ignores_order_and_suit_names() {
    let a = isomorphic_hand(&str2cards("AhKhQs2h3d"), true);
    let b = isomorphic_hand(&str2cards("KsAsQd3h2s"), true);
    assert_eq!(a, b);
    assert_eq!(cards2str(&a), "KcAc2c3dQh");
    // Without streets the hole cards mix with the board.
    let c = isomorphic_hand(&str2cards("2h3hAhKhQs"), false);
    assert_eq!(cards2str(&c), "2c3cKcAcQd");
}

#[test]
fn sort_isomorphic_orders_by_suit_then_rank() {
    let sorted = sort_isomorphic(&str2cards("Kd2cAs3c5h"), true);
    assert_eq!(cards2str(&sorted), "2cKd3c5hAs");
    let sorted = sort_isomorphic(&str2cards("Kd2cAs3c5h"), false);
    assert_eq!(cards2str(&sorted), "2c3cKd5hAs");
}

#[test]
fn test_preflop_buckets() {
    let abstraction = Abstraction::new(HashMap::new(), HashMap::new(), HashMap::new());
    let preflop_hands = isomorphic_preflop_hands();
    let buckets: Vec<i32> = preflop_hands.iter().map(|h| abstraction.bin(h)).collect();
    let buckets_set: HashSet<i32> = buckets.iter().map(|b| b.clone()).collect();
    assert_eq!(buckets.len(), buckets_set.len());
    assert_eq!(buckets.len(), 169);
    assert!(buckets.iter().all(|b| 0 <= *b && *b < 169));
}

#[test]
fn preflop_bins_of_classes() {
    let abstraction = Abstraction::new(HashMap::new(), HashMap::new(), HashMap::new());
    // Pairs and suitedness decide the class, suits do not.
    assert_eq!(abstraction.bin(&str2cards("AsKs")), abstraction.bin(&str2cards("KhAh")));
    assert_ne!(abstraction.bin(&str2cards("AsKs")), abstraction.bin(&str2cards("AsKd")));
    assert_eq!(abstraction.bin(&str2cards("2c2d")), 0);
    assert_eq!(abstraction.bin(&str2cards("2c3c")), 1);
    assert_eq!(abstraction.bin(&str2cards("2c3d")), 13);
}

#[test]
fn postflop_bins_come_from_the_flop_table() {
    let mut flop = HashMap::new();
    let key = cards2hand(&str2cards("KhAh2c9dTs"));
    flop.insert(key, 7);
    let abstraction = Abstraction::new(flop, HashMap::new(), HashMap::new());
    // Hole cards and flop cards in any order share the key.
    assert_eq!(abstraction.bin(&str2cards("AhKhTs9d2c")), 7);
    assert_eq!(abstraction.bin(&str2cards("KhAh9d2cTsJs")), 7);
}

#[test]
fn abstraction_tells_which_hands_it_buckets() {
    let mut flop = HashMap::new();
    flop.insert(cards2hand(&str2cards("KhAh2c9dTs")), 7);
    let abstraction = Abstraction::new(flop, HashMap::new(), HashMap::new());
    assert!(abstraction.can_bin(&str2cards("2c3d")));
    assert!(!abstraction.can_bin(&str2cards("2c3d4h")));
    assert!(!abstraction.can_bin(&str2cards("2c3d4h5s")));
    assert!(abstraction.can_bin(&str2cards("AhKhTs9d2c")));
    assert!(abstraction.can_bin(&str2cards("KhAh9d2cTsJs")));
    assert!(!abstraction.can_bin(&str2cards("AhKhTs9d3c")));
}

#[test]
fn infoset_made_only_where_defined() {
    let mut flop = HashMap::new();
    flop.insert(cards2hand(&str2cards("KcKh2c3d4h")), 3);
    let abstraction = Abstraction::new(flop, HashMap::new(), HashMap::new());
    let preflop = ActionHistory::new();
    let hole = str2cards("KhKc");
    let made = InfoSet::try_from_hand(&hole, &[], &preflop, &abstraction).unwrap();
    assert_eq!(made.card_bucket, abstraction.bin(&hole));
    let on_flop = ActionHistory::from_strings(vec!["Call 100", "Call 100"]);
    let made = InfoSet::try_from_hand(&hole, &str2cards("4h3d2c"), &on_flop, &abstraction).unwrap();
    assert_eq!(made.card_bucket, 3);
    // Too few board cards for the flop.
    assert!(InfoSet::try_from_hand(&hole, &str2cards("4h3d"), &on_flop, &abstraction).is_none());
    // A flop that the table does not hold.
    assert!(InfoSet::try_from_hand(&hole, &str2cards("4h3d5c"), &on_flop, &abstraction).is_none());
}

#[test]
fn infoset_sees_the_players_cards() {
    let deck = str2cards("AsAdKcKh2c3d4h5s6c");
    let mut flop = HashMap::new();
    flop.insert(cards2hand(&str2cards("KcKh2c3d4h")), 3);
    let abstraction = Abstraction::new(flop, HashMap::new(), HashMap::new());
    let history = ActionHistory::from_strings(vec!["Call 100", "Call 100"]);
    // On the flop the opponent is to act, with KcKh.
    let infoset = InfoSet::from_deck(&deck, &history, &abstraction);
    assert_eq!(infoset.card_bucket, 3);
    assert_eq!(infoset.history, history);
    let same = InfoSet::from_hand(&str2cards("KhKc"), &str2cards("4h3d2c5s6c"), &history, &abstraction);
    assert_eq!(same.card_bucket, 3);
    assert_eq!(get_hand(&deck, 0, 0), str2cards("AsAd"));
    assert_eq!(get_hand(&deck, 1, 2), str2cards("KcKh2c3d4h5s"));
    assert_eq!(board_length(3), 5);
    assert_eq!(board_length(1), 3);
}

#[test]
fn saved_isomorphic_hands_are_read() {
    let lines = vec!["AcKd2h3s4c".to_string(), "2c3c4c5c6c".to_string(), "AcKd2h3s4c".to_string()];
    let set = load_flop_isomorphic(Some(lines.as_slice()));
    let expected: HashSet<u64> = [str2hand("AcKd2h3s4c"), str2hand("2c3c4c5c6c")].into_iter().collect();
    assert_eq!(set, expected);
}

#[test]
fn isomorphic_hand_ignores_order_within_streets() {
    let a = isomorphic_hand(&str2cards("2h8sKd4c4sTcTd"), true);
    let b = isomorphic_hand(&str2cards("8s2hTdTc4s4cKd"), true);
    assert_eq!(a, b);
}

#[test]
fn preflop_hands_without_blockers() {
    let all = optimus::canonical::non_blocking_preflop_hands(&[]);
    assert_eq!(all.len(), 1326);
    assert_eq!(all[0], (Card::new("2c"), Card::new("2d")));
    assert_eq!(all[1325], (Card::new("Ah"), Card::new("As")));
    let board = str2cards("AsKd2c7h9s");
    let open = optimus::canonical::non_blocking_preflop_hands(&board);
    assert_eq!(open.len(), 1081);
    assert!(open.iter().all(|(a, b)| !board.contains(a) && !board.contains(b)));
    assert_eq!(open[0], (Card::new("2d"), Card::new("2h")));
}

#[test]
fn isomorphic_hand_ignores_suit_names() {
    // Hearts -> spades, spades -> clubs, clubs -> diamonds, diamonds -> hearts.
    let a = isomorphic_hand(&str2cards("2h8sKd4c4sTcTd"), true);
    let b = isomorphic_hand(&str2cards("2s8cKh4d4cTdTh"), true);
    assert_eq!(a, b);
    let c = isomorphic_hand(&str2cards("AhKh2c3d7s"), false);
    let d = isomorphic_hand(&str2cards("AsKs2d3h7c"), false);
    assert_eq!(c, d);
}

#[test]
fn starting_hand_counts() {
    let counts: HashMap<u64, i32> = get_hand_counts(2);
    assert_eq!(counts.len(), 169);
    assert_eq!(counts.values().map(|c| *c as i64).sum::<i64>(), 1326);
    let code = |s: &str| cards2hand(&isomorphic_hand(&str2cards(s), true));
    assert_eq!(counts[&code("2c2d")], 6);
    assert_eq!(counts[&code("AhKh")], 4);
    assert_eq!(counts[&code("AhKs")], 12);
    assert_eq!(counts[&code("KsAh")], 12);
}

#[test]
fn one_card_board_counts() {
    let counts: HashMap<u64, i32> = get_hand_counts(3);
    assert_eq!(counts.values().map(|c| *c as i64).sum::<i64>(), 1326 * 50);
    let code = |s: &str| cards2hand(&isomorphic_hand(&str2cards(s), true));
    // Two deuces in the hole and a third on the board: 6 hole pairs, 2 deuces left.
    assert_eq!(counts[&code("2c2d2h")], 12);
    // The same three deuces with only one in the hole are another class.
    assert!(counts[&code("2c3d2h")] > 0);
    assert!(counts.values().all(|c| *c >= 1 && *c <= 24));
}

#[test]
fn expanding_needs_every_flop_key() {
    let abstraction = Abstraction::new(HashMap::new(), HashMap::new(), HashMap::new());
    assert!(abstraction.expand_abstraction_keys().is_none());
    let mut flop = HashMap::new();
    // The first flop hand dealt: deuces of clubs and diamonds, then the other two deuces and
    // the three of clubs.
    flop.insert(str2hand("2c2d2h2s3c"), 3);
    let abstraction = Abstraction::new(flop, HashMap::new(), HashMap::new());
    assert!(abstraction.expand_abstraction_keys().is_none());
}

#[test]
fn loaded_buckets_must_match() {
    let mut table: HashMap<u64, i32> = HashMap::new();
    assert!(!buckets_match(&table, 20));
    table.insert(1, 0);
    table.insert(2, 12);
    assert!(buckets_match(&table, 20));
    assert!(buckets_match(&table, 22));
    assert!(!buckets_match(&table, 23));
    table.insert(3, -1);
    assert!(!buckets_match(&table, 20));
    let mut no_zero: HashMap<u64, i32> = HashMap::new();
    no_zero.insert(5, 15);
    assert!(!buckets_match(&no_zero, 20));
}

#[test]
fn bucket_sizes_count_hands() {
    let mut table: HashMap<u64, i32> = HashMap::new();
    table.insert(10, 0);
    table.insert(11, 2);
    table.insert(12, 2);
    table.insert(13, 3);
    let sizes = bucket_sizes(&table, 5);
    assert_eq!(sizes, vec![1, 0, 2, 1, 0]);
    assert_eq!(smallest_bucket(&sizes), Some(1));
    assert_eq!(smallest_bucket(&[0, 0]), None);
    assert_eq!(smallest_bucket(&[4, 0, 3, 7]), Some(3));
}

#[test]
fn preflop_chart_names() {
    assert_eq!(preflop_hand_name(&str2cards("AsKs")), "AKs");
    assert_eq!(preflop_hand_name(&str2cards("7c2d")), "72o");
    assert_eq!(preflop_hand_name(&str2cards("TcTd")), "TTo");
}

#[test]
fn isomorphic_hand_is_idempotent() {
    for text in ["2h8sKd4c4sTcTd", "AhKhQs2h3d", "7c7d", "AsKdQhJc9s"] {
        for streets in [true, false] {
            let once = isomorphic_hand(&str2cards(text), streets);
            let twice = isomorphic_hand(&once, streets);
            assert_eq!(once, twice);
        }
    }
}
