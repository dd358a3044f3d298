use vstd::prelude::*;
use crate::card::{Card, is_rank_char, is_suit_char, rank_of_char, suit_of_char, text_card};
use crate::history::{
    Action, ActionHistory, ActionType, Amount, DEALER, GameConfig, HistoryView, OPPONENT, RIVER,
    legal_seq, str_equal, valid_seq,
};
use crate::infoset::{get_hand, get_hand_defined, hand_of};
use crate::strength::FastHandTable;
use crate::utility::{ended_by_fold, lookup_defined, table_strength, terminal_utility_half_chips, terminal_value};

verus! {

/// The name the interface gives a card that is dealt face down.
pub open spec fn face_down_name() -> Seq<char> {
    seq!['b', 'a', 'c', 'k']
}

/// Each name is "back" or names a card by its first two characters.
pub open spec fn card_names_valid(names: Seq<String>) -> bool {
    forall|i: int| 0 <= i < names.len() && (#[trigger] names[i])@ != face_down_name() ==> {
        &&& names[i]@.len() >= 2
        &&& rank_of_char(names[i]@[0]) is Some
        &&& suit_of_char(names[i]@[1]) is Some
    }
}

/// Whether each name is "back" or names a card (see `card_names_valid`).
pub fn card_names_ok(names: &[String]) -> (res: bool)
    ensures
        res == card_names_valid(names@),
{
    let back = "back";
    proof {
        reveal_strlit("back");
        assert(back@ =~= face_down_name());
    }
    for i in 0..names.len()
        invariant
            back@ == face_down_name(),
            forall|j: int| 0 <= j < i && (#[trigger] names@[j])@ != face_down_name() ==> {
                &&& names@[j]@.len() >= 2
                &&& rank_of_char(names@[j]@[0]) is Some
                &&& suit_of_char(names@[j]@[1]) is Some
            },
    {
        let name = names[i].as_str();
        if !str_equal(name, back) {
            let ok = name.unicode_len() >= 2 && is_rank_char(name.get_char(0)) && is_suit_char(name.get_char(1));
            if !ok {
                assert(!card_names_valid(names@)) by {
                    assert(names@[i as int]@ != face_down_name());
                }
                return false;
            }
        }
    }
    true
}

/// The cards that the names show, in order, leaving out the cards dealt face down.
pub open spec fn shown_cards(names: Seq<String>) -> Seq<Card>
    decreases names.len(),
{
    if names.len() == 0 {
        Seq::empty()
    } else {
        let prev = shown_cards(names.drop_last());
        if names.last()@ == face_down_name() { prev } else { prev.push(text_card(names.last()@, 0)) }
    }
}

/// Reads cards named as in ["5d", "7c", "Jh", "back", "back"], leaving out those dealt face
/// down.
pub fn parse_cards(cards: &[String]) -> (res: Vec<Card>)
    requires
        card_names_valid(cards@),
    ensures
        res@ == shown_cards(cards@),
        forall|i: int| 0 <= i < res@.len() ==> (#[trigger] res@[i]).valid(),
{
    let back = "back";
    proof {
        reveal_strlit("back");
        assert(back@ =~= face_down_name());
    }
    let mut result: Vec<Card> = Vec::new();
    for i in 0..cards.len()
        invariant
            back@ == face_down_name(),
            card_names_valid(cards@),
            result@ == shown_cards(cards@.take(i as int)),
            forall|k: int| 0 <= k < result@.len() ==> (#[trigger] result@[k]).valid(),
    {
        proof {
            assert(cards@.take(i + 1).drop_last() =~= cards@.take(i as int));
            assert(cards@.take(i + 1).last() == cards@[i as int]);
        }
        if !str_equal(cards[i].as_str(), back) {
            let card = Card::new(cards[i].as_str());
            result.push(card);
        }
    }
    proof { assert(cards@.take(cards@.len() as int) =~= cards@); }
    result
}

/// An action as the interface sends it: a word ("Bet", "Call", "Check" or "Fold") and an amount.
#[derive(Debug)]
pub struct ActionRecord {
    pub action: String,
    pub amount: Amount,
}

/// The action type that the interface's word names; "Check" is a call.
pub open spec fn record_action_type(w: Seq<char>) -> Option<ActionType> {
    if w == seq!['B', 'e', 't'] {
        Some(ActionType::Bet)
    } else if w == seq!['C', 'a', 'l', 'l'] || w == seq!['C', 'h', 'e', 'c', 'k'] {
        Some(ActionType::Call)
    } else if w == seq!['F', 'o', 'l', 'd'] {
        Some(ActionType::Fold)
    } else {
        None
    }
}

/// The actions of the records, each with the type its word names.
pub open spec fn record_actions(records: Seq<ActionRecord>) -> Seq<Action> {
    Seq::new(records.len(), |i: int| Action {
        action: record_action_type(records[i].action@).unwrap(),
        amount: records[i].amount,
    })
}

/// Every record names an action type.
pub open spec fn records_valid(records: Seq<ActionRecord>) -> bool {
    forall|i: int| 0 <= i < records.len() ==> (#[trigger] record_action_type(records[i].action@)) is Some
}

/// The action type that the interface's word names.
fn read_action_type(word: &str) -> (res: Option<ActionType>)
    ensures
        res == record_action_type(word@),
{
    proof {
        reveal_strlit("Bet");
        reveal_strlit("Call");
        reveal_strlit("Check");
        reveal_strlit("Fold");
        assert("Bet"@ =~= seq!['B', 'e', 't']);
        assert("Call"@ =~= seq!['C', 'a', 'l', 'l']);
        assert("Check"@ =~= seq!['C', 'h', 'e', 'c', 'k']);
        assert("Fold"@ =~= seq!['F', 'o', 'l', 'd']);
    }
    if str_equal(word, "Bet") {
        Some(ActionType::Bet)
    } else if str_equal(word, "Call") || str_equal(word, "Check") {
        Some(ActionType::Call)
    } else if str_equal(word, "Fold") {
        Some(ActionType::Fold)
    } else {
        None
    }
}

/// Whether the interface's actions make a history of the standard game: each names an action,
/// and each can be added after the ones before it.
pub fn records_ok(h: &[ActionRecord]) -> (res: bool)
    ensures
        res == (records_valid(h@)
            && valid_seq(GameConfig::standard_spec(), record_actions(h@))
            && legal_seq(GameConfig::standard_spec(), record_actions(h@))),
{
    let mut history = ActionHistory::new();
    let ghost acts = record_actions(h@);
    let ghost cfg = GameConfig::standard_spec();
    proof { assert(acts.take(0) =~= Seq::<Action>::empty()); }
    for i in 0..h.len()
        invariant
            acts == record_actions(h@),
            cfg == GameConfig::standard_spec(),
            forall|j: int| 0 <= j < i ==> (#[trigger] record_action_type(h@[j].action@)) is Some,
            valid_seq(cfg, acts.take(i as int)),
            legal_seq(cfg, acts.take(i as int)),
            history.wf(),
            history@ == (HistoryView { config: cfg, actions: acts.take(i as int) }),
    {
        let kind = read_action_type(h[i].action.as_str());
        match kind {
            None => {
                assert(!records_valid(h@)) by {
                    assert(!(record_action_type(h@[i as int].action@) is Some));
                }
                return false;
            },
            Some(t) => {
                let action = Action { action: t, amount: h[i].amount };
                assert(action == acts[i as int]);
                if !history.can_add(&action) {
                    proof {
                        if records_valid(h@) && valid_seq(cfg, acts) && legal_seq(cfg, acts) {
                            crate::history::lemma_valid_prefix(cfg, acts, i as int);
                            crate::history::lemma_legal_prefix(cfg, acts, i as int);
                        }
                    }
                    return false;
                }
                let ghost before = acts.take(i as int);
                history.add(&action);
                proof {
                    let after = acts.take(i + 1);
                    assert(after.drop_last() =~= before);
                    assert(after.last() == action);
                    assert(before.push(action) =~= after);
                }
            },
        }
    }
    proof { assert(acts.take(acts.len() as int) =~= acts); }
    true
}

/// The history of the standard game that the interface's actions make.
pub fn parse_history(h: &[ActionRecord]) -> (res: ActionHistory)
    requires
        records_valid(h@),
        valid_seq(GameConfig::standard_spec(), record_actions(h@)),
        legal_seq(GameConfig::standard_spec(), record_actions(h@)),
    ensures
        res.wf(),
        res@ == (HistoryView { config: GameConfig::standard_spec(), actions: record_actions(h@) }),
{
    let mut history = ActionHistory::new();
    let ghost acts = record_actions(h@);
    proof { assert(acts.take(0) =~= Seq::<Action>::empty()); }
    for i in 0..h.len()
        invariant
            acts == record_actions(h@),
            records_valid(h@),
            valid_seq(GameConfig::standard_spec(), acts),
            legal_seq(GameConfig::standard_spec(), acts),
            history.wf(),
            history@ == (HistoryView { config: GameConfig::standard_spec(), actions: acts.take(i as int) }),
    {
        let kind = read_action_type(h[i].action.as_str());
        proof {
            assert(record_action_type(h@[i as int].action@) is Some);
            crate::history::lemma_valid_prefix(GameConfig::standard_spec(), acts, i as int);
            crate::history::lemma_legal_prefix(GameConfig::standard_spec(), acts, i as int);
            assert(acts.take(i as int).push(acts[i as int]) =~= acts.take(i + 1));
        }
        let action = Action { action: kind.unwrap(), amount: h[i].amount };
        history.add(&action);
    }
    proof { assert(acts.take(acts.len() as int) =~= acts); }
    history
}

/// The hole cards of a player and the five board cards of a dealt deck: the dealer's two
/// cards, the opponent's two, then the board.
pub open spec fn deck_hands(deck: Seq<Card>, player: int) -> (Seq<Card>, Seq<Card>, Seq<Card>) {
    (hand_of(deck, player, 0), hand_of(deck, 1 - player, 0), deck.subrange(4, 9))
}

/// The utility of a finished hand, dealt from the deck, for `player`, in half chips.
pub open spec fn deck_utility(table: Map<u64, i32>, deck: Seq<Card>, h: HistoryView, player: int) -> int {
    let (hole, opp, board) = deck_hands(deck, player);
    terminal_value(h, player, table_strength(table, hole + board), table_strength(table, opp + board))
}

/// The table can evaluate both players' hands at a showdown of this deck.
pub open spec fn deck_lookup_defined(table: Map<u64, i32>, deck: Seq<Card>, h: HistoryView) -> bool {
    !ended_by_fold(h) ==> {
        &&& lookup_defined(table, hand_of(deck, 0, 0) + deck.subrange(4, 9))
        &&& lookup_defined(table, hand_of(deck, 1, 0) + deck.subrange(4, 9))
    }
}

/// The utility of a finished hand for `player` (DEALER or OPPONENT), in half chips, when the
/// deck holds the dealer's two cards, the opponent's two and the five board cards.
pub fn deck_utility_half_chips(deck: &[Card], history: &ActionHistory, player: usize, table: &FastHandTable) -> (res: i32)
    requires
        history.wf(),
        history@.actions.len() > 0,
        player <= 1,
        deck@.len() >= 9,
        deck_lookup_defined(table@, deck@, history@),
    ensures
        res == deck_utility(table@, deck@, history@, player as int),
{
    proof {
        assert(get_hand_defined(deck@, player as int, 0));
        assert(get_hand_defined(deck@, 1 - player, 0));
    }
    let hole = get_hand(deck, player, 0);
    let opp = get_hand(deck, 1 - player, 0);
    let mut board: Vec<Card> = Vec::new();
    for i in 4..9
        invariant
            deck@.len() >= 9,
            board@ == deck@.subrange(4, i as int),
    {
        board.push(deck[i]);
        proof { assert(deck@.subrange(4, i + 1) =~= deck@.subrange(4, i as int).push(deck@[i as int])); }
    }
    terminal_utility_half_chips(hole.as_slice(), opp.as_slice(), board.as_slice(), history, player, table)
}

/// What the interface shows of a history: the pot, the street, what calling costs, the
/// smallest bet, the chips of the player to act, whose turn it is, the stacks, and the
/// dealer's winnings in half chips once the hand is over (0 before).
#[derive(Debug)]
pub struct HistoryInfo {
    pub pot: Amount,
    pub street: String,
    pub call_amount: Amount,
    pub min_bet_amount: Amount,
    pub all_in_amount: Amount,
    pub whose_turn: String,
    pub dealer_stack: Amount,
    pub opponent_stack: Amount,
    pub winnings_half_chips: i32,
}

/// The name of a street.
pub open spec fn street_name(street: int) -> Seq<char> {
    if street == 0 {
        seq!['p', 'r', 'e', 'f', 'l', 'o', 'p']
    } else if street == 1 {
        seq!['f', 'l', 'o', 'p']
    } else if street == 2 {
        seq!['t', 'u', 'r', 'n']
    } else if street == 3 {
        seq!['r', 'i', 'v', 'e', 'r']
    } else {
        seq!['s', 'h', 'o', 'w', 'd', 'o', 'w', 'n']
    }
}

/// The name of a player.
pub open spec fn player_name(player: int) -> Seq<char> {
    if player == 0 { seq!['d', 'e', 'a', 'l', 'e', 'r'] } else { seq!['o', 'p', 'p', 'o', 'n', 'e', 'n', 't'] }
}

/// A string literal holding the name of a street.
fn street_text(street: usize) -> (s: &'static str)
    requires
        street <= 4,
    ensures
        s@ == street_name(street as int),
{
    proof {
        reveal_strlit("preflop");
        reveal_strlit("flop");
        reveal_strlit("turn");
        reveal_strlit("river");
        reveal_strlit("showdown");
        assert("preflop"@ =~= street_name(0));
        assert("flop"@ =~= street_name(1));
        assert("turn"@ =~= street_name(2));
        assert("river"@ =~= street_name(3));
        assert("showdown"@ =~= street_name(4));
    }
    match street {
        0 => "preflop",
        1 => "flop",
        2 => "turn",
        3 => "river",
        _ => "showdown",
    }
}

/// A string literal holding the name of a player.
fn player_text(player: usize) -> (s: &'static str)
    requires
        player <= 1,
    ensures
        s@ == player_name(player as int),
{
    proof {
        reveal_strlit("dealer");
        reveal_strlit("opponent");
        assert("dealer"@ =~= player_name(0));
        assert("opponent"@ =~= player_name(1));
    }
    if player == 0 { "dealer" } else { "opponent" }
}

/// What the interface shows of the history that its actions make, with the dealer's, the
/// opponent's and the board's card names (the winnings, once the hand is over, are those of the
/// dealer, the cards being dealt in that order).
pub fn history_info(
    actions: &[ActionRecord],
    dealer_cards: &[String],
    opponent_cards: &[String],
    board_cards: &[String],
    table: &FastHandTable,
) -> (res: HistoryInfo)
    requires
        records_valid(actions@),
        valid_seq(GameConfig::standard_spec(), record_actions(actions@)),
        legal_seq(GameConfig::standard_spec(), record_actions(actions@)),
        ({
            let h = HistoryView { config: GameConfig::standard_spec(), actions: record_actions(actions@) };
            &&& h.state().street <= 4
            &&& h.to_call_defined()
            &&& h.hand_over() ==> {
                let deck = shown_cards(dealer_cards@) + shown_cards(opponent_cards@) + shown_cards(board_cards@);
                &&& card_names_valid(dealer_cards@)
                &&& card_names_valid(opponent_cards@)
                &&& card_names_valid(board_cards@)
                &&& h.actions.len() > 0
                &&& deck.len() >= 9
                &&& deck_lookup_defined(table@, deck, h)
            }
        }),
    ensures
        ({
            let h = HistoryView { config: GameConfig::standard_spec(), actions: record_actions(actions@) };
            let deck = shown_cards(dealer_cards@) + shown_cards(opponent_cards@) + shown_cards(board_cards@);
            &&& res.pot == h.pot()
            &&& res.street@ == street_name(h.state().street)
            &&& res.call_amount == h.to_call()
            &&& res.min_bet_amount == h.min_bet()
            &&& res.all_in_amount == h.max_bet()
            &&& res.whose_turn@ == player_name(h.state().player)
            &&& res.dealer_stack == h.stack_sizes().0
            &&& res.opponent_stack == h.stack_sizes().1
            &&& res.winnings_half_chips == if h.hand_over() { deck_utility(table@, deck, h, DEALER as int) } else { 0 }
        }),
{
    let history = parse_history(actions);
    proof { history.lemma_wf(); }
    let street = String::from_str(street_text(history.street()));
    let whose_turn = String::from_str(player_text(history.player()));
    let stacks = history.stack_sizes();
    let mut winnings: i32 = 0;
    if history.hand_over() {
        let mut cards: Vec<Card> = parse_cards(dealer_cards);
        let opp = parse_cards(opponent_cards);
        let board = parse_cards(board_cards);
        let ghost d0 = cards@;
        for i in 0..opp.len()
            invariant
                cards@ == d0 + opp@.take(i as int),
        {
            cards.push(opp[i]);
            proof { assert(opp@.take(i + 1) =~= opp@.take(i as int).push(opp@[i as int])); }
        }
        proof { assert(opp@.take(opp@.len() as int) =~= opp@); }
        let ghost d1 = cards@;
        for i in 0..board.len()
            invariant
                cards@ == d1 + board@.take(i as int),
        {
            cards.push(board[i]);
            proof { assert(board@.take(i + 1) =~= board@.take(i as int).push(board@[i as int])); }
        }
        proof { assert(board@.take(board@.len() as int) =~= board@); }
        winnings = deck_utility_half_chips(cards.as_slice(), &history, DEALER, table);
    }
    HistoryInfo {
        pot: history.pot(),
        street,
        call_amount: history.to_call(),
        min_bet_amount: history.min_bet(),
        all_in_amount: history.max_bet(),
        whose_turn,
        dealer_stack: stacks[DEALER],
        opponent_stack: stacks[OPPONENT],
        winnings_half_chips: winnings,
    }
}

} // verus!
