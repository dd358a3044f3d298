use optimus::card::deck;
use optimus::history::{
    find_closest_log, Action, ActionHistory, ActionType, Amount, BetSize, GameConfig, DEALER, FLOP, OPPONENT,
    PREFLOP, SHOWDOWN,
};
use optimus::server::deck_utility_half_chips;
use optimus::strength::FastHandTable;

fn bet(amount: Amount) -> Action {
    Action { action: ActionType::Bet, amount }
}

fn call(amount: Amount) -> Action {
    Action { action: ActionType::Call, amount }
}

fn fold() -> Action {
    Action { action: ActionType::Fold, amount: 0 }
}

/// Half pot, pot, twice the pot and all in, on every street.
fn bet_abstraction() -> Vec<Vec<BetSize>> {
    let row = vec![
        BetSize::PotFraction(1, 2),
        BetSize::PotFraction(1, 1),
        BetSize::PotFraction(2, 1),
        BetSize::AllIn,
    ];
    vec![row.clone(), row.clone(), row.clone(), row]
}

fn history_of(actions: &[Action]) -> ActionHistory {
    let mut history = ActionHistory::new();
    for a in actions {
        history.add(a);
    }
    history
}

#[test]
fn history_all_in_size_allowed() {
    let actions: Vec<Action> = vec![bet(200), bet(1250), call(1050), call(0), bet(750), bet(18650)];
    let mut history = ActionHistory::new();
    for a in actions {
        history.add(&a);
    }
    assert!(history.is_legal_next_action(&Action {
        action: ActionType::Bet,
        amount: 18000
    }));
}

#[test]
fn action_translation_all_in() {
    let actions = vec![bet(200), call(200), bet(19750), bet(19800)];
    let mut history = ActionHistory::new();
    for a in actions {
        history.add(&a);
    }
    history.translate(&bet_abstraction());
}

#[test]
fn limp_is_call_not_bet() {
    let history = ActionHistory::new();
    let bet_abstraction: Vec<Vec<BetSize>> = vec![vec![BetSize::PotFraction(1, 1)]];
    // assumes that bet_abstraction contains POT on preflop
    let big_blind = GameConfig::standard().big_blind;
    let call = Action { action: ActionType::Call, amount: big_blind };
    let bet = Action { action: ActionType::Bet, amount: big_blind };
    let next_actions = history.next_actions(&bet_abstraction);
    assert!(next_actions.contains(&call));
    assert!(!next_actions.contains(&bet));
}

#[test]
fn next_actions_are_sorted() {
    // Tests that the next actions are returned in the correct order
    let history = ActionHistory::from_strings(vec!["Call 100", "Call 100"]);
    let next_actions = history.next_actions(&bet_abstraction());
    // Order should be:
    // 1. Bet sizes in increasing order
    // 2. Check/Call
    // 3. Fold
    assert_eq!(next_actions[next_actions.len() - 1], Action { action: ActionType::Call, amount: 0 });
}

#[test]
fn next_actions_sort_bets_by_amount() {
    // The row lists the all-in before the half pot; the bets still come out by amount.
    let row = vec![BetSize::AllIn, BetSize::PotFraction(1, 2)];
    let abstraction = vec![row.clone(), row.clone(), row.clone(), row];
    let history = ActionHistory::from_strings(vec!["Call 100", "Call 100"]);
    let next_actions = history.next_actions(&abstraction);
    assert_eq!(next_actions.to_vec(), vec![bet(100), bet(19900), call(0)]);
}

#[test]
fn next_actions_listed_only_where_defined() {
    let history = ActionHistory::from_strings(vec!["Call 100", "Call 100"]);
    let listed = history.try_next_actions(&bet_abstraction()).unwrap();
    assert_eq!(listed, history.next_actions(&bet_abstraction()));
    // A bet size with a zero denominator.
    let zero = vec![vec![BetSize::PotFraction(1, 0)]; 4];
    assert!(!optimus::history::bet_abstraction_is_valid(&zero));
    assert!(history.try_next_actions(&zero).is_none());
    assert!(optimus::history::bet_abstraction_is_valid(&bet_abstraction()));
    // No row of bet sizes for the flop.
    let preflop_only = vec![vec![BetSize::AllIn]];
    assert!(history.try_next_actions(&preflop_only).is_none());
    assert!(ActionHistory::new().try_next_actions(&preflop_only).is_some());
    // A hand that is over lists nothing, whatever the rows.
    assert!(history_of(&[fold()]).try_next_actions(&preflop_only).unwrap().is_empty());
}

#[test]
fn all_in_call() {
    let mut history = ActionHistory::new();
    history.add(&Action { action: ActionType::Bet, amount: 20000 });
    assert!(!history.is_legal_next_action(&Action { action: ActionType::Bet, amount: 20000 }));
}

#[test]
fn terminal_utility_blinds() {
    let table = FastHandTable::empty();
    let history = ActionHistory::from_strings(vec!["Call 100", "Fold 0"]);
    let util = deck_utility_half_chips(&deck(), &history, DEALER, &table) as f64 / 2.0;
    assert_eq!(util, 100.0);
    let util = deck_utility_half_chips(&deck(), &history, OPPONENT, &table) as f64 / 2.0;
    assert_eq!(util, -100.0);

    let history = ActionHistory::from_strings(vec!["Fold 0"]);
    let util = deck_utility_half_chips(&deck(), &history, DEALER, &table) as f64 / 2.0;
    assert_eq!(util, -50.0);
    let util = deck_utility_half_chips(&deck(), &history, OPPONENT, &table) as f64 / 2.0;
    assert_eq!(util, 50.0);
}

#[test]
fn more_action_translation() {
    let history = ActionHistory::from_strings(vec![
        // Preflop
        "Bet 200",  // 250
        "Bet 1000", // 1250
        "Call 800", // 1000
        // Flop
        "Call 0",    // 0
        "Bet 1000",  // 1250
        "Bet 3000",  // 3750
        "Call 2000", // 2500
        // Turn
        "Bet 4000",  // 5000
        "Call 4000", // 5000
        // River
        "Bet 8000",
        "Bet 12000",
    ]);
    history.translate(&bet_abstraction());
}

#[test]
fn blinds_stack_sizes() {
    let history = ActionHistory::new();
    let config = GameConfig::standard();
    assert_eq!(
        history.stack_sizes(),
        [config.stack_size - config.small_blind, config.stack_size - config.big_blind]
    );
}

#[test]
fn all_in_showdown_street() {
    let history = ActionHistory::from_strings(vec!["Call 100", "Bet 20000", "Call 19900"]);
    assert_eq!(history.street, SHOWDOWN);
}

#[test]
fn streets_end_when_bets_are_equal() {
    let mut history = ActionHistory::new();
    assert_eq!(history.street(), PREFLOP);
    assert_eq!(history.player(), DEALER);
    assert_eq!(history.to_call(), 100);
    assert_eq!(history.pot(), 100);
    history.add(&call(100));
    assert_eq!(history.street(), PREFLOP);
    assert_eq!(history.player(), OPPONENT);
    assert_eq!(history.to_call(), 100);
    history.add(&call(100));
    assert_eq!(history.street(), FLOP);
    assert_eq!(history.player(), OPPONENT);
    assert_eq!(history.to_call(), 0);
    assert_eq!(history.min_bet(), 0);
    assert_eq!(history.max_bet(), 19900);
    assert_eq!(history.pot(), 200);
    assert_eq!(history.stack_sizes(), [19900, 19900]);
    assert!(!history.hand_over());
}

#[test]
fn min_bet_doubles_the_last_bet() {
    let history = history_of(&[bet(300)]);
    assert_eq!(history.min_bet(), 600);
    assert_eq!(history.to_call(), 300);
    assert!(!history.is_legal_next_action(&bet(500)));
    assert!(history.is_legal_next_action(&bet(600)));
    assert!(history.is_legal_next_action(&call(300)));
    assert!(!history.is_legal_next_action(&call(200)));
    assert!(history.is_legal_next_action(&fold()));
    // Nothing to call: folding is not allowed.
    let checked = history_of(&[call(100), call(100)]);
    assert!(!checked.is_legal_next_action(&fold()));
}

#[test]
fn hand_over_after_fold_or_last_street() {
    assert!(history_of(&[fold()]).hand_over());
    assert!(!ActionHistory::new().hand_over());
    let history = ActionHistory::from_strings(vec![
        "Call 100", "Call 100", "Call 0", "Call 0", "Call 0", "Call 0", "Call 0", "Call 0",
    ]);
    assert_eq!(history.street(), 4);
    assert!(history.hand_over());
    let river = history.without_last_action();
    assert_eq!(river.street(), 3);
    assert!(!river.hand_over());
}

#[test]
fn history_last_and_copies() {
    let history = history_of(&[bet(300), call(300)]);
    assert_eq!(history.last_action(), Some(call(300)));
    assert_eq!(ActionHistory::new().last_action(), None);
    assert!(ActionHistory::new().is_empty());
    assert!(!history.is_empty());
    assert_eq!(history.get_actions(), vec![bet(300), call(300)]);
    assert_eq!(history.duplicate(), history);
    let shorter = history.without_last_action();
    assert_eq!(shorter.get_actions(), vec![bet(300)]);
    // Taking the last action away and adding it back gives the same history.
    let mut again = shorter.duplicate();
    again.add(&call(300));
    assert_eq!(again, history);
}

#[test]
fn long_history_keeps_every_action() {
    // Eleven actions: more than the history keeps inline.
    let texts = vec![
        "Bet 200", "Bet 1000", "Call 800", "Call 0", "Bet 1000", "Bet 3000", "Call 2000", "Bet 4000", "Call 4000",
        "Bet 8000", "Bet 12000",
    ];
    let history = ActionHistory::from_strings(texts.clone());
    let actions = history.get_actions();
    assert_eq!(actions.len(), 11);
    assert_eq!(actions[0], bet(200));
    assert_eq!(actions[10], bet(12000));
    assert_eq!(history.clone(), history);
    assert_eq!(history.duplicate(), history);
    assert_eq!(history.without_last_action().get_actions(), actions[..10].to_vec());
    assert_eq!(
        history.to_string(),
        "bet 200,bet 1000,call 800,call 0,bet 1000,bet 3000,call 2000,bet 4000,call 4000,bet 8000,bet 12000,"
    );
}

#[test]
fn history_text() {
    let history = ActionHistory::from_strings(vec!["Bet 200", "Call 200"]);
    assert_eq!(history.to_string(), "bet 200,call 200,");
    assert_eq!(bet(250).to_string(), "bet 250");
    assert_eq!(fold().to_string(), "fold 0");
    assert_eq!(call(0).to_string(), "call 0");
    assert_eq!(ActionHistory::new().to_string(), "");
}

#[test]
fn from_strings_reads_amounts() {
    let history = ActionHistory::from_strings(vec!["Bet +250", "Fold 0"]);
    assert_eq!(history.get_actions(), vec![bet(250), fold()]);
}

#[test]
fn next_actions_of_the_abstraction() {
    let history = ActionHistory::from_strings(vec!["Call 100", "Call 100"]);
    let next = history.next_actions(&bet_abstraction());
    assert_eq!(next.to_vec(), vec![bet(100), bet(200), bet(400), bet(19900), call(0)]);
    // Preflop: the half-pot and pot bets are below the minimum or equal to the call.
    let next = ActionHistory::new().next_actions(&bet_abstraction());
    assert_eq!(next.to_vec(), vec![bet(200), bet(20000), call(100), fold()]);
    // No actions once the hand is over.
    assert!(history_of(&[fold()]).next_actions(&bet_abstraction()).is_empty());
}

#[test]
fn adjust_action_to_history() {
    let history = history_of(&[bet(300)]);
    assert_eq!(history.adjust_action(&call(1000)), call(300));
    assert_eq!(history.adjust_action(&bet(100)), bet(600));
    assert_eq!(history.adjust_action(&bet(30000)), bet(20000));
    assert_eq!(history.adjust_action(&bet(700)), bet(700));
    assert_eq!(history.adjust_action(&fold()), fold());
}

#[test]
fn translate_maps_bets_onto_the_abstraction() {
    let history = history_of(&[bet(250), call(250)]);
    let translated = history.translate(&bet_abstraction());
    // Preflop the abstraction bets 200 or goes all in: 250 becomes 200.
    assert_eq!(translated.get_actions(), vec![bet(200), call(200)]);
    assert_eq!(translated.street(), history.street());
    // An all-in bet stays all in.
    let history = history_of(&[bet(20000)]);
    assert_eq!(history.translate(&bet_abstraction()).get_actions(), vec![bet(20000)]);
}

#[test]
fn closest_in_log_space() {
    assert_eq!(find_closest_log(vec![100, 200, 400], 250), 200);
    assert_eq!(find_closest_log(vec![100, 200, 400], 340), 400);
    assert_eq!(find_closest_log(vec![100, 200, 400], 0), 0);
    assert_eq!(find_closest_log(vec![0, 0], 300), 0);
    assert_eq!(find_closest_log(vec![0, 500], 300), 500);
    // Equally close: the first one stays.
    assert_eq!(find_closest_log(vec![100, 400], 200), 100);
}

#[test]
fn custom_game_config() {
    let config = GameConfig { stack_size: 1000, big_blind: 20, small_blind: 10, last_street: FLOP };
    let mut history = ActionHistory::with_config(config);
    assert_eq!(history.config(), config);
    assert_eq!(history.stack_sizes(), [990, 980]);
    history.add(&call(20));
    history.add(&call(20));
    history.add(&call(0));
    history.add(&call(0));
    assert_eq!(history.street(), 2);
    assert!(history.hand_over());
}

#[test]
fn chips_are_conserved() {
    let history = history_of(&[bet(300), bet(900), call(600)]);
    let stacks = history.stack_sizes();
    assert_eq!(stacks[0] as u32 + stacks[1] as u32 + history.pot() as u32, 40000);
}

#[test]
fn can_add_checks_every_condition() {
    let history = ActionHistory::new();
    let call = |amount| Action { action: ActionType::Call, amount };
    assert!(history.can_add(&call(100)));
    assert!(!history.can_add(&call(50)));
    assert!(history.can_add(&bet(250)));
    assert!(!history.can_add(&bet(100)));
    assert!(!history.can_add(&bet(50)));
    assert!(!history.can_add(&bet(60000)));
    assert!(!history.can_add(&Action { action: ActionType::Fold, amount: 0 }) || history.to_call() != 0);
}

#[test]
fn try_translate_and_fold_with_chips() {
    // A history that translates.
    let history = ActionHistory::from_strings(vec!["Bet 200", "Bet 1000", "Call 800"]);
    let translated = history.try_translate(&bet_abstraction()).unwrap();
    assert_eq!(translated.street(), history.street());
    assert_eq!(translated.get_actions().len(), 3);
    // A fold that puts chips in: the untranslated stacks become equal and the street ends, while
    // the translated fold puts none in, so the translated history stays on the preflop.
    let mut with_chips = ActionHistory::new();
    with_chips.add(&bet(250));
    with_chips.add(&Action { action: ActionType::Fold, amount: 250 });
    assert_eq!(with_chips.street(), FLOP);
    let translated = with_chips.try_translate(&bet_abstraction()).unwrap();
    assert_eq!(translated.street(), PREFLOP);
}

#[test]
fn without_last_action_adds_back() {
    let history = ActionHistory::from_strings(vec!["Bet 200", "Bet 1000", "Call 800", "Bet 500"]);
    let last = history.last_action().unwrap();
    let mut shorter = history.without_last_action();
    assert_eq!(shorter.get_actions().len(), 3);
    assert!(shorter.can_add(&last));
    shorter.add(&last);
    assert_eq!(shorter.get_actions(), history.get_actions());
    assert_eq!(shorter.street(), history.street());
}
