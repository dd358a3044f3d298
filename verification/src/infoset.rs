use vstd::prelude::*;
use crate::abstraction::{Abstraction, preflop_bin_of};
use crate::card::{Card, CLUBS, DIAMONDS};
use crate::inline_vec::{ActionList, action_list_items};
use crate::history::{
    Action, ActionHistory, BetSize, DEALER, FLOP, HistoryView, OPPONENT, PREFLOP, RIVER, TURN,
    valid_bet_abstraction,
};

verus! {

/// How many board cards are dealt on a street (PREFLOP to RIVER).
pub open spec fn board_len(street: int) -> int {
    if street == PREFLOP { 0 } else if street == FLOP { 3 } else if street == TURN { 4 } else { 5 }
}

/// How many board cards are dealt on a street.
pub fn board_length(street: usize) -> (res: usize)
    requires
        street <= RIVER,
    ensures
        res == board_len(street as int),
{
    match street {
        PREFLOP => 0,
        FLOP => 3,
        TURN => 4,
        _ => 5,
    }
}

/// The cards a player sees: the deck holds the dealer's two hole cards, then the opponent's,
/// then the five board cards.
pub open spec fn hand_of(deck: Seq<Card>, player: int, street: int) -> Seq<Card> {
    let hole = deck.subrange(2 * player, 2 * player + 2);
    if street == PREFLOP { hole } else { hole + deck.subrange(4, 4 + board_len(street)) }
}

/// `get_hand` computes without panic: a known player and street, and a deck long enough.
pub open spec fn get_hand_defined(deck: Seq<Card>, player: int, street: int) -> bool {
    &&& player == DEALER || player == OPPONENT
    &&& 0 <= street <= RIVER
    &&& deck.len() >= 2 * player + 2
    &&& street != PREFLOP ==> deck.len() >= 4 + board_len(street)
}

/// The hole cards of a player followed by the board cards of a street.
pub fn get_hand(deck: &[Card], player: usize, street: usize) -> (res: Vec<Card>)
    requires
        get_hand_defined(deck@, player as int, street as int),
    ensures
        res@ == hand_of(deck@, player as int, street as int),
{
    let start: usize = if player == DEALER { 0 } else { 2 };
    let board = board_length(street);
    let mut result: Vec<Card> = Vec::new();
    result.push(deck[start]);
    result.push(deck[start + 1]);
    if street != PREFLOP {
        proof { assert(deck@.subrange(4, 4) =~= Seq::<Card>::empty()); }
        for i in 0..board
            invariant
                street <= RIVER,
                board == board_len(street as int),
                deck@.len() >= 4 + board,
                result@ == seq![deck@[start as int], deck@[start + 1]] + deck@.subrange(4, 4 + i),
        {
            result.push(deck[4 + i]);
            proof {
                assert(deck@.subrange(4, 4 + i + 1) =~= deck@.subrange(4, 4 + i).push(deck@[4 + i]));
            }
        }
    }
    proof {
        assert(deck@.subrange(2 * player, 2 * player + 2) =~= seq![deck@[start as int], deck@[start + 1]]);
    }
    result
}

/// `InfoSet::from_hand` computes without panic: a street up to the river, the board cards of
/// that street, and cards that the abstraction can bucket.
pub open spec fn from_hand_defined(hole: Seq<Card>, board: Seq<Card>, h: HistoryView, abstraction: &Abstraction) -> bool {
    &&& h.state().street <= RIVER
    &&& board.len() >= board_len(h.state().street)
    &&& abstraction.bin_defined(hole + board.take(board_len(h.state().street)))
}

/// The hole cards followed by the first `n` board cards.
fn seen_cards(hole: &[Card], board: &[Card], n: usize) -> (res: Vec<Card>)
    requires
        n <= board@.len(),
    ensures
        res@ == hole@ + board@.take(n as int),
{
    let mut hand: Vec<Card> = Vec::new();
    for i in 0..hole.len()
        invariant
            hand@ == hole@.take(i as int),
    {
        hand.push(hole[i]);
        proof { assert(hole@.take(i + 1) =~= hole@.take(i as int).push(hole@[i as int])); }
    }
    proof { assert(hole@.take(hole@.len() as int) =~= hole@); }
    for i in 0..n
        invariant
            n <= board@.len(),
            hand@ == hole@ + board@.take(i as int),
    {
        hand.push(board[i]);
        proof { assert(board@.take(i + 1) =~= board@.take(i as int).push(board@[i as int])); }
    }
    hand
}

/// An information set: what a player knows at a decision point, the betting history and the
/// abstraction bucket of the cards the player sees.
#[derive(Debug, PartialEq, Eq, Hash, Clone)]
pub struct InfoSet {
    pub history: ActionHistory,
    pub card_bucket: i32,
}

impl InfoSet {
    /// The information set of the player to act, whose cards are dealt from the deck.
    pub fn from_deck(deck: &[Card], history: &ActionHistory, abstraction: &Abstraction) -> (res: InfoSet)
        requires
            history.wf(),
            get_hand_defined(deck@, history@.state().player, history@.state().street),
            abstraction.bin_defined(hand_of(deck@, history@.state().player, history@.state().street)),
        ensures
            res.history.wf(),
            res.history@ == history@,
            res.card_bucket == abstraction.bin_of(hand_of(deck@, history@.state().player, history@.state().street)),
    {
        let cards = get_hand(deck, history.player(), history.street());
        let card_bucket = abstraction.bin(cards.as_slice());
        InfoSet { history: history.duplicate(), card_bucket }
    }

    /// The information set of a player with the given hole cards, who sees the board cards of
    /// the current street.
    pub fn from_hand(hole: &[Card], board: &[Card], history: &ActionHistory, abstraction: &Abstraction) -> (res: InfoSet)
        requires
            history.wf(),
            from_hand_defined(hole@, board@, history@, abstraction),
        ensures
            res.history.wf(),
            res.history@ == history@,
            res.card_bucket == abstraction.bin_of(hole@ + board@.take(board_len(history@.state().street))),
    {
        let n = board_length(history.street());
        let hand = seen_cards(hole, board, n);
        let card_bucket = abstraction.bin(hand.as_slice());
        InfoSet { history: history.duplicate(), card_bucket }
    }

    /// The information set of `from_hand`, or none when `from_hand` cannot make one: past the
    /// river, with too few board cards, or with cards that the abstraction cannot bucket.
    pub fn try_from_hand(hole: &[Card], board: &[Card], history: &ActionHistory, abstraction: &Abstraction)
        -> (res: Option<InfoSet>)
        requires
            history.wf(),
        ensures
            res is Some <==> from_hand_defined(hole@, board@, history@, abstraction),
            res matches Some(i) ==> {
                &&& i.history.wf()
                &&& i.history@ == history@
                &&& i.card_bucket == abstraction.bin_of(hole@ + board@.take(board_len(history@.state().street)))
            },
    {
        if history.street() > RIVER {
            return None;
        }
        let n = board_length(history.street());
        if board.len() < n {
            return None;
        }
        let hand = seen_cards(hole, board, n);
        if !abstraction.can_bin(hand.as_slice()) {
            return None;
        }
        Some(InfoSet::from_hand(hole, board, history, abstraction))
    }

    /// The next actions of the abstract game at this information set.
    pub fn next_actions(&self, bet_abstraction: &[Vec<BetSize>]) -> (res: ActionList)
        requires
            self.history.wf(),
            valid_bet_abstraction(bet_abstraction@),
            self.history@.next_actions_defined(bet_abstraction@),
        ensures
            action_list_items(res) == self.history@.next_actions(bet_abstraction@),
    {
        self.history.next_actions(bet_abstraction)
    }
}

} // verus!
