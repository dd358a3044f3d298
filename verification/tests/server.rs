use optimus::card::{str2cards, Card};
use optimus::history::{ActionHistory, ActionType, Amount};
use optimus::server::{card_names_ok, history_info, parse_cards, parse_history, records_ok, ActionRecord};
use optimus::strength::FastHandTable;
use optimus::utility::{restore_skipped, terminal_utility_half_chips};

fn record(action: &str, amount: Amount) -> ActionRecord {
    ActionRecord { action: action.to_string(), amount }
}

fn names(cards: &[&str]) -> Vec<String> {
    cards.iter().map(|c| c.to_string()).collect()
}

#[test]
fn parse_cards_skips_face_down() {
    let cards = parse_cards(&names(&["5d", "7c", "Jh", "back", "back"]));
    assert_eq!(cards, vec![Card::new("5d"), Card::new("7c"), Card::new("Jh")]);
    assert_eq!(parse_cards(&names(&["back"])), Vec::<Card>::new());
    assert_eq!(parse_cards(&[]), Vec::<Card>::new());
}

#[test]
fn parse_history_reads_checks_as_calls() {
    let history = parse_history(&[record("Bet", 300), record("Call", 300), record("Check", 0)]);
    let actions = history.get_actions();
    assert_eq!(actions.len(), 3);
    assert_eq!(actions[0].action, ActionType::Bet);
    assert_eq!(actions[1].action, ActionType::Call);
    assert_eq!(actions[2].action, ActionType::Call);
    assert_eq!(actions[2].amount, 0);
    assert_eq!(history, ActionHistory::from_strings(vec!["Bet 300", "Call 300", "Call 0"]));
}

#[test]
fn history_info_during_a_hand() {
    let table = FastHandTable::empty();
    let info = history_info(
        &[record("Call", 100), record("Check", 100)],
        &names(&["As", "Ad"]),
        &names(&["back", "back"]),
        &names(&["2c", "3c", "4d", "back", "back"]),
        &table,
    );
    assert_eq!(info.pot, 200);
    assert_eq!(info.street, "flop");
    assert_eq!(info.call_amount, 0);
    assert_eq!(info.min_bet_amount, 0);
    assert_eq!(info.all_in_amount, 19900);
    assert_eq!(info.whose_turn, "opponent");
    assert_eq!(info.dealer_stack, 19900);
    assert_eq!(info.opponent_stack, 19900);
    assert_eq!(info.winnings_half_chips, 0);

    let info = history_info(&[], &names(&["As", "Ad"]), &names(&[]), &names(&[]), &table);
    assert_eq!(info.pot, 100);
    assert_eq!(info.street, "preflop");
    assert_eq!(info.call_amount, 100);
    assert_eq!(info.min_bet_amount, 100);
    assert_eq!(info.all_in_amount, 20000);
    assert_eq!(info.whose_turn, "dealer");
    assert_eq!(info.dealer_stack, 19950);
    assert_eq!(info.opponent_stack, 19900);
}

#[test]
fn history_info_at_showdown() {
    let dealer = ["As", "Ad"];
    let opponent = ["2c", "7h"];
    let board = ["Ks", "Kd", "Kh", "3c", "4d"];
    let mut table = FastHandTable::empty();
    table.add_hand(&str2cards("AsAdKsKdKh3c4d"));
    table.add_hand(&str2cards("2c7hKsKdKh3c4d"));
    let info = history_info(
        &[record("Call", 100), record("Bet", 20000), record("Call", 19900)],
        &names(&dealer),
        &names(&opponent),
        &names(&board),
        &table,
    );
    assert_eq!(info.street, "showdown");
    assert_eq!(info.pot, 40000);
    assert_eq!(info.dealer_stack, 0);
    assert_eq!(info.opponent_stack, 0);
    // The dealer's full house wins half of the pot: 20000 chips.
    assert_eq!(info.winnings_half_chips, 40000);
}

#[test]
fn showdown_utility_is_zero_sum() {
    let history = ActionHistory::from_strings(vec!["Call 100", "Call 100", "Call 0", "Call 0", "Call 0", "Call 0", "Call 0", "Call 0"]);
    let board = str2cards("Ks9d8h3c4d");
    let mut table = FastHandTable::empty();
    table.add_hand(&str2cards("AsAdKs9d8h3c4d"));
    table.add_hand(&str2cards("2c7hKs9d8h3c4d"));
    table.add_hand(&str2cards("AhAcKs9d8h3c4d"));
    let aces = str2cards("AsAd");
    let other_aces = str2cards("AhAc");
    let junk = str2cards("2c7h");
    let won = terminal_utility_half_chips(&aces, &junk, &board, &history, 0, &table);
    let lost = terminal_utility_half_chips(&junk, &aces, &board, &history, 1, &table);
    assert_eq!(won, 200);
    assert_eq!(won + lost, 0);
    let tie = terminal_utility_half_chips(&aces, &other_aces, &board, &history, 0, &table);
    assert_eq!(tie, 0);
}

#[test]
fn restore_skipped_fills_the_gaps() {
    assert_eq!(restore_skipped(5, &[1, 3], &[10.0, 20.0, 30.0], 0.0), vec![10.0, 0.0, 20.0, 0.0, 30.0]);
    assert_eq!(restore_skipped(3, &[], &[1, 2, 3], 0), vec![1, 2, 3]);
    assert_eq!(restore_skipped(2, &[0, 1], &[], 7), vec![7, 7]);
    assert_eq!(restore_skipped(0, &[], &[9], 0), Vec::<i32>::new());
}

#[test]
fn table_from_saved_strengths() {
    let mut saved = std::collections::HashMap::new();
    saved.insert(5u64, 42);
    let table = FastHandTable::new(Some(saved.clone()));
    assert_eq!(table.strengths(), &saved);
}

#[test]
fn interface_input_checks() {
    let names = |v: &[&str]| v.iter().map(|s| s.to_string()).collect::<Vec<String>>();
    assert!(card_names_ok(&names(&["5d", "back", "Jh"])));
    assert!(!card_names_ok(&names(&["5x"])));
    assert!(!card_names_ok(&names(&["b"])));
    assert!(records_ok(&[record("Bet", 250), record("Call", 250)]));
    assert!(records_ok(&[record("Call", 100), record("Check", 100)]));
    assert!(!records_ok(&[record("Raise", 250)]));
    assert!(!records_ok(&[record("Call", 40)]));
}
