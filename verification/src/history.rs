use vstd::prelude::*;
use vstd::string::*;
use std::ops::Deref;
use crate::inline_vec::{ActionList, ActionLog, action_list_from_vec, action_list_items, log_items, log_new, log_push, log_slice};

verus! {

pub type Amount = u16;

pub const PREFLOP: usize = 0;
pub const FLOP: usize = 1;
pub const TURN: usize = 2;
pub const RIVER: usize = 3;
pub const SHOWDOWN: usize = 4;

pub const DEALER: usize = 0;
pub const OPPONENT: usize = 1;

/// Upper limit on the number of actions available at a decision point of the abstract game.
pub const NUM_ACTIONS: usize = 5;

#[derive(Debug, PartialEq, Eq, Hash, Clone, Copy, Structural)]
pub enum ActionType {
    Fold,
    Call,
    Bet,
}

/// An action and the chips it puts into the pot.
#[derive(Debug, PartialEq, Eq, Hash, Clone, Copy, Structural)]
pub struct Action {
    pub action: ActionType,
    pub amount: Amount,
}

/// The fold action.
pub fn fold() -> (res: Action)
    ensures
        res == (Action { action: ActionType::Fold, amount: 0 }),
{
    Action { action: ActionType::Fold, amount: 0 }
}

/// The parameters of the game: chips each player starts with, the blinds, and the last street
/// that is played before the showdown (FLOP, TURN or RIVER).
#[derive(Debug, PartialEq, Eq, Hash, Clone, Copy, Structural)]
pub struct GameConfig {
    pub stack_size: Amount,
    pub big_blind: Amount,
    pub small_blind: Amount,
    pub last_street: usize,
}

impl GameConfig {
    /// The pot (twice a stack) fits in an Amount, the blinds fit in a stack, and the last street
    /// is the flop, the turn or the river.
    pub open spec fn valid(self) -> bool {
        &&& 2 * self.stack_size <= u16::MAX
        &&& self.big_blind <= self.stack_size
        &&& self.small_blind <= self.stack_size
        &&& FLOP <= self.last_street <= RIVER
    }

    /// Heads-up no-limit hold'em with 20000 chips per player and blinds of 50 and 100.
    pub open spec fn standard_spec() -> GameConfig {
        GameConfig { stack_size: 20000, big_blind: 100, small_blind: 50, last_street: RIVER }
    }

    /// Heads-up no-limit hold'em with 20000 chips per player and blinds of 50 and 100.
    pub fn standard() -> (res: GameConfig)
        ensures
            res == GameConfig::standard_spec(),
            res.valid(),
    {
        GameConfig { stack_size: 20000, big_blind: 100, small_blind: 50, last_street: RIVER }
    }
}

/// The betting state after some actions: the stacks (which leave out the blinds), the street,
/// the player to act and the number of actions on the current street.
pub struct BettingState {
    pub stack0: int,
    pub stack1: int,
    pub street: int,
    pub player: int,
    pub street_len: int,
}

pub open spec fn stack_of(st: BettingState, p: int) -> int {
    if p == 0 { st.stack0 } else { st.stack1 }
}

pub open spec fn initial_state(cfg: GameConfig) -> BettingState {
    BettingState {
        stack0: cfg.stack_size as int,
        stack1: cfg.stack_size as int,
        street: PREFLOP as int,
        player: DEALER as int,
        street_len: 0,
    }
}

/// The betting state after one more action: the player to act pays the action's amount, the turn
/// passes to the other player, and the street ends once both have acted and the stacks are equal
/// (the opponent acts first on the next street); when both stacks are empty it is showdown.
pub open spec fn step(st: BettingState, a: Action) -> BettingState {
    let s0 = if st.player == 0 { st.stack0 - a.amount } else { st.stack0 };
    let s1 = if st.player == 0 { st.stack1 } else { st.stack1 - a.amount };
    let len = st.street_len + 1;
    let ends = s0 == s1 && len >= 2;
    let street = if ends { st.street + 1 } else { st.street };
    BettingState {
        stack0: s0,
        stack1: s1,
        street: if s0 == 0 && s1 == 0 { SHOWDOWN as int } else { street },
        player: if ends { OPPONENT as int } else { 1 - st.player },
        street_len: if ends { 0 } else { len },
    }
}

/// The betting state after a sequence of actions.
pub open spec fn replay(cfg: GameConfig, acts: Seq<Action>) -> BettingState
    decreases acts.len(),
{
    if acts.len() == 0 {
        initial_state(cfg)
    } else {
        step(replay(cfg, acts.drop_last()), acts.last())
    }
}

/// `add` can apply the action without overflow: the player can pay the amount, and the street
/// counters do not overflow.
pub open spec fn can_step(st: BettingState, a: Action) -> bool {
    &&& a.amount <= stack_of(st, st.player)
    &&& st.street_len < 255
    &&& st.street < usize::MAX
}

/// Every action of the sequence can be applied after the ones before it.
pub open spec fn valid_seq(cfg: GameConfig, acts: Seq<Action>) -> bool
    decreases acts.len(),
{
    if acts.len() == 0 {
        true
    } else {
        valid_seq(cfg, acts.drop_last()) && can_step(replay(cfg, acts.drop_last()), acts.last())
    }
}

/// Every action of the sequence is allowed after the ones before it: what calling costs is
/// defined there and the action is legal.
pub open spec fn legal_seq(cfg: GameConfig, acts: Seq<Action>) -> bool
    decreases acts.len(),
{
    if acts.len() == 0 {
        true
    } else {
        let prev = HistoryView { config: cfg, actions: acts.drop_last() };
        legal_seq(cfg, acts.drop_last()) && prev.to_call_defined() && prev.is_legal(acts.last())
    }
}

/// How an amount of chips is chosen for a bet in a bet abstraction.
#[derive(Debug, PartialEq, Eq, Clone, Copy, Structural)]
pub enum BetSize {
    /// All the chips the player has left.
    AllIn,
    /// The fraction `numerator / denominator` of the pot.
    PotFraction(u32, u32),
}

/// The bet size options of each street, with no zero denominator.
pub open spec fn valid_bet_abstraction(abs: Seq<Vec<BetSize>>) -> bool {
    forall|s: int, i: int| 0 <= s < abs.len() && 0 <= i < abs[s]@.len() ==>
        (#[trigger] abs[s]@[i] matches BetSize::PotFraction(_, d) ==> d > 0)
}

/// The amount of a bet of the given size: the fraction of the pot rounded down and capped at
/// the largest Amount, or the whole stack.
pub open spec fn bet_amount(b: BetSize, pot: int, stack: int) -> int {
    match b {
        BetSize::AllIn => stack,
        BetSize::PotFraction(n, d) => {
            let a = (n as int * pot) / (d as int);
            if a > u16::MAX { u16::MAX as int } else { a }
        }
    }
}

/// The bets of a row of bet sizes, in increasing amount, each amount once.
pub open spec fn bet_candidates(row: Seq<BetSize>, pot: int, stack: int) -> Seq<Action>
    decreases row.len(),
{
    if row.len() == 0 {
        Seq::empty()
    } else {
        let prev = bet_candidates(row.drop_last(), pot, stack);
        insert_bet(prev, Action { action: ActionType::Bet, amount: bet_amount(row.last(), pot, stack) as u16 })
    }
}

/// The next actions of a hand that is not over: bets of strictly increasing amounts, then the
/// call (the check, when there is nothing to call), then the fold when there is something to
/// call.
pub open spec fn bets_call_fold(res: Seq<Action>, h: HistoryView) -> bool {
    exists|k: int| 0 <= k < res.len() && #[trigger] increasing_bets(res.take(k))
        && res[k] == (Action { action: ActionType::Call, amount: h.to_call() as u16 })
        && if h.to_call() != 0 {
            res.len() == k + 2 && res[k + 1] == (Action { action: ActionType::Fold, amount: 0 })
        } else {
            res.len() == k + 1
        }
}

/// Bets whose amounts strictly increase.
pub open spec fn increasing_bets(s: Seq<Action>) -> bool {
    &&& forall|i: int| 0 <= i < s.len() ==> (#[trigger] s[i]).action == ActionType::Bet
    &&& forall|i: int, j: int| 0 <= i < j < s.len() ==> s[i].amount < s[j].amount
}

/// Inserts a bet among bets of increasing amounts, in its place, unless a bet of that amount is
/// already there.
pub open spec fn insert_bet(s: Seq<Action>, a: Action) -> Seq<Action>
    decreases s.len(),
{
    if s.len() == 0 {
        seq![a]
    } else if s[0].amount == a.amount {
        s
    } else if a.amount < s[0].amount {
        seq![a] + s
    } else {
        seq![s[0]] + insert_bet(s.drop_first(), a)
    }
}

/// The actions of a sequence that are legal next actions of the history, in order.
pub open spec fn keep_legal(h: HistoryView, cands: Seq<Action>) -> Seq<Action>
    decreases cands.len(),
{
    if cands.len() == 0 {
        Seq::empty()
    } else {
        let prev = keep_legal(h, cands.drop_last());
        if h.is_legal(cands.last()) { prev.push(cands.last()) } else { prev }
    }
}

/// The abstract value of a history: the game parameters and the actions taken.
pub struct HistoryView {
    pub config: GameConfig,
    pub actions: Seq<Action>,
}

impl HistoryView {
    pub open spec fn state(self) -> BettingState {
        replay(self.config, self.actions)
    }

    pub open spec fn valid(self) -> bool {
        self.config.valid() && valid_seq(self.config, self.actions)
    }

    pub open spec fn push(self, a: Action) -> HistoryView {
        HistoryView { config: self.config, actions: self.actions.push(a) }
    }

    pub open spec fn last_action(self) -> Option<Action> {
        if self.actions.len() == 0 { None } else { Some(self.actions.last()) }
    }

    /// The stacks with the blinds taken from a player who has not acted yet.
    pub open spec fn stack_sizes(self) -> (int, int) {
        let st = self.state();
        (
            if st.stack0 == self.config.stack_size { st.stack0 - self.config.small_blind } else { st.stack0 },
            if st.stack1 == self.config.stack_size { st.stack1 - self.config.big_blind } else { st.stack1 },
        )
    }

    /// The chips both players have put in, or the big blind when that is zero.
    pub open spec fn pot(self) -> int {
        let st = self.state();
        let p = 2 * self.config.stack_size - st.stack0 - st.stack1;
        if p == 0 { self.config.big_blind as int } else { p }
    }

    /// `to_call` computes without underflow: before the first action, or when the player to act
    /// has at least as many chips as the other player.
    pub open spec fn to_call_defined(self) -> bool {
        let st = self.state();
        self.actions.len() == 0 || stack_of(st, st.player) >= stack_of(st, 1 - st.player)
    }

    /// The chips needed to call: the big blind before the first action, else the difference of
    /// the stacks (0 to check).
    pub open spec fn to_call(self) -> int {
        let st = self.state();
        if st.street == PREFLOP && self.actions.len() == 0 {
            self.config.big_blind as int
        } else {
            stack_of(st, st.player) - stack_of(st, 1 - st.player)
        }
    }

    /// The chips of the player to act.
    pub open spec fn max_bet(self) -> int {
        stack_of(self.state(), self.state().player)
    }

    /// The smallest bet: the big blind before the first action, nothing at the start of a
    /// street, else twice the last amount, or all the chips when that is more.
    pub open spec fn min_bet(self) -> int {
        if self.actions.len() == 0 {
            self.config.big_blind as int
        } else if self.state().street_len == 0 {
            0
        } else {
            let a = self.actions.last().amount;
            if 2 * a > self.max_bet() { self.max_bet() } else { 2 * a }
        }
    }

    /// A bet must differ from the call and lie between the smallest and the largest bet; a call
    /// must pay exactly what calling costs; folding is allowed when there is something to call.
    pub open spec fn is_legal(self, a: Action) -> bool {
        match a.action {
            ActionType::Bet => a.amount != self.to_call() && self.min_bet() <= a.amount
                && a.amount <= self.max_bet(),
            ActionType::Call => a.amount == self.to_call(),
            ActionType::Fold => self.to_call() != 0,
        }
    }

    /// The hand is over after a fold, when both players are all in, or after the last street.
    pub open spec fn hand_over(self) -> bool {
        ||| (self.actions.len() > 0 && self.actions.last().action == ActionType::Fold)
        ||| self.stack_sizes() == (0int, 0int)
        ||| self.state().street > self.config.last_street
    }

    /// The next actions of the abstract game: the bets of this street's sizes (each amount
    /// once, in increasing amount), then the call and the fold, keeping only the legal ones;
    /// none when the hand is over.
    pub open spec fn next_actions(self, abs: Seq<Vec<BetSize>>) -> Seq<Action> {
        if self.hand_over() {
            Seq::empty()
        } else {
            let st = self.state();
            let cands = bet_candidates(abs[st.street]@, self.pot(), stack_of(st, st.player))
                .push(Action { action: ActionType::Call, amount: self.to_call() as u16 })
                .push(Action { action: ActionType::Fold, amount: 0 });
            keep_legal(self, cands)
        }
    }

    /// `next_actions` computes without panic on this history and abstraction.
    pub open spec fn next_actions_defined(self, abs: Seq<Vec<BetSize>>) -> bool {
        self.hand_over() || (self.to_call_defined() && self.state().street < abs.len())
    }
}

/// A betting history of one hand: the actions taken so far and the state they lead to.
#[derive(Debug, PartialEq, Eq, Hash, Clone)]
pub struct ActionHistory {
    history: ActionLog,
    last_action: Option<Action>,
    current_street_length: u8,
    stacks: [Amount; 2],
    pub street: usize,
    pub player: usize,
    config: GameConfig,
}

impl View for ActionHistory {
    type V = HistoryView;

    closed spec fn view(&self) -> HistoryView {
        HistoryView { config: self.config, actions: log_items(self.history) }
    }
}

/// The betting state of a valid sequence stays in range.
pub proof fn lemma_replay_range(cfg: GameConfig, acts: Seq<Action>)
    requires
        cfg.valid(),
        valid_seq(cfg, acts),
    ensures
        0 <= replay(cfg, acts).stack0 <= cfg.stack_size,
        0 <= replay(cfg, acts).stack1 <= cfg.stack_size,
        replay(cfg, acts).player == 0 || replay(cfg, acts).player == 1,
        0 <= replay(cfg, acts).street <= usize::MAX,
        0 <= replay(cfg, acts).street_len <= 255,
        forall|i: int| 0 <= i < acts.len() ==> (#[trigger] acts[i]).amount <= cfg.stack_size,
    decreases acts.len(),
{
    if acts.len() > 0 {
        lemma_replay_range(cfg, acts.drop_last());
        assert forall|i: int| 0 <= i < acts.len() implies (#[trigger] acts[i]).amount <= cfg.stack_size by {
            if i < acts.len() - 1 {
                assert(acts.drop_last()[i] == acts[i]);
            }
        }
    }
}

impl ActionHistory {
    /// The fields hold the state that the actions lead to.
    pub closed spec fn wf(&self) -> bool {
        let st = self@.state();
        &&& self@.valid()
        &&& legal_seq(self@.config, self@.actions)
        &&& self.stacks[0] == st.stack0
        &&& self.stacks[1] == st.stack1
        &&& self.street == st.street
        &&& self.player == st.player
        &&& self.current_street_length == st.street_len
        &&& self.last_action == self@.last_action()
    }

    /// What a well-formed history tells: its actions were played legally, and the state they
    /// lead to is in range (`street` and `player` give its street and player to act).
    pub proof fn lemma_wf(&self)
        requires
            self.wf(),
        ensures
            self@.valid(),
            legal_seq(self@.config, self@.actions),
            self@.state().player == 0 || self@.state().player == 1,
            0 <= self@.state().stack0 <= self@.config.stack_size,
            0 <= self@.state().stack1 <= self@.config.stack_size,
    {
        lemma_replay_range(self@.config, self@.actions);
    }

    /// An empty history of the standard game.
    pub fn new() -> (res: ActionHistory)
        ensures
            res.wf(),
            res@.config == GameConfig::standard_spec(),
            res@.actions == Seq::<Action>::empty(),
    {
        ActionHistory::with_config(GameConfig::standard())
    }

    /// An empty history of the game with the given parameters.
    pub fn with_config(config: GameConfig) -> (res: ActionHistory)
        requires
            config.valid(),
        ensures
            res.wf(),
            res@.config == config,
            res@.actions == Seq::<Action>::empty(),
    {
        ActionHistory {
            history: log_new(),
            last_action: None,
            current_street_length: 0,
            stacks: [config.stack_size, config.stack_size],
            street: PREFLOP,
            player: DEALER,
            config,
        }
    }

    /// The current street (PREFLOP to SHOWDOWN, or past the last street).
    pub fn street(&self) -> (res: usize)
        requires
            self.wf(),
        ensures
            res == self@.state().street,
    {
        self.street
    }

    /// The player to act (DEALER or OPPONENT).
    pub fn player(&self) -> (res: usize)
        requires
            self.wf(),
        ensures
            res == self@.state().player,
    {
        self.player
    }

    /// The parameters of the game.
    pub fn config(&self) -> (res: GameConfig)
        ensures
            res == self@.config,
    {
        self.config
    }

    /// Adds a legal action to the history and updates the state.
    pub fn add(&mut self, action: &Action)
        requires
            old(self).wf(),
            old(self)@.to_call_defined(),
            old(self)@.is_legal(*action),
            can_step(old(self)@.state(), *action),
        ensures
            final(self).wf(),
            final(self)@ == old(self)@.push(*action),
    {
        proof { self.lemma_wf(); }
        let action = *action;
        let ghost old_view = self@;
        if self.player == 0 {
            self.stacks[0] = self.stacks[0] - action.amount;
        } else {
            self.stacks[1] = self.stacks[1] - action.amount;
        }
        self.player = 1 - self.player;
        self.last_action = Some(action);
        log_push(&mut self.history, action);
        self.current_street_length = self.current_street_length + 1;
        if self.stacks[0] == self.stacks[1] && self.current_street_length >= 2 {
            self.street = self.street + 1;
            self.current_street_length = 0;
            self.player = OPPONENT;
        }
        if self.stacks[0] == 0 && self.stacks[1] == 0 {
            self.street = SHOWDOWN;
        }
        proof {
            assert(self@.actions.drop_last() =~= old_view.actions);
            assert(self@ == old_view.push(action));
        }
    }

    /// The last action, if there is one.
    pub fn last_action(&self) -> (res: Option<Action>)
        requires
            self.wf(),
        ensures
            res == self@.last_action(),
    {
        self.last_action
    }

    /// The stacks with the blinds taken from a player who has not acted yet.
    pub fn stack_sizes(&self) -> (res: [Amount; 2])
        requires
            self.wf(),
        ensures
            res[0] == self@.stack_sizes().0,
            res[1] == self@.stack_sizes().1,
    {
        proof { self.lemma_wf(); }
        let mut stacks = self.stacks;
        if stacks[DEALER] == self.config.stack_size {
            stacks[DEALER] = stacks[DEALER] - self.config.small_blind;
        }
        if stacks[OPPONENT] == self.config.stack_size {
            stacks[OPPONENT] = stacks[OPPONENT] - self.config.big_blind;
        }
        stacks
    }

    /// Returns true if the hand is over: someone has folded, both players are all in, or the
    /// last street has been played.
    pub fn hand_over(&self) -> (res: bool)
        requires
            self.wf(),
        ensures
            res == self@.hand_over(),
    {
        match &self.last_action {
            None => {},
            Some(action) => {
                if action.action == ActionType::Fold {
                    return true;
                }
            },
        }
        let stacks = self.stack_sizes();
        if stacks[0] == 0 && stacks[1] == 0 {
            return true;
        }
        if self.street > self.config.last_street {
            return true;
        }
        false
    }

    /// The chips in the pot, or the big blind when there are none.
    pub fn pot(&self) -> (res: Amount)
        requires
            self.wf(),
        ensures
            res == self@.pot(),
    {
        proof { self.lemma_wf(); }
        let pot = 2 * self.config.stack_size - self.stacks[0] - self.stacks[1];
        if pot == 0 {
            self.config.big_blind
        } else {
            pot
        }
    }

    /// Whether `to_call` computes without underflow: before the first action, or when the
    /// player to act has at least as many chips as the other player.
    pub fn to_call_is_defined(&self) -> (res: bool)
        requires
            self.wf(),
        ensures
            res == self@.to_call_defined(),
    {
        proof { self.lemma_wf(); }
        log_slice(&self.history).len() == 0 || self.stacks[self.player] >= self.stacks[1 - self.player]
    }

    /// The amount needed to call, so 0 for checking.
    pub fn to_call(&self) -> (res: Amount)
        requires
            self.wf(),
            self@.to_call_defined(),
        ensures
            res == self@.to_call(),
    {
        proof { self.lemma_wf(); }
        if self.street == PREFLOP && log_slice(&self.history).len() == 0 {
            self.config.big_blind
        } else {
            self.stacks[self.player] - self.stacks[1 - self.player]
        }
    }

    /// The smallest bet.
    pub fn min_bet(&self) -> (res: Amount)
        requires
            self.wf(),
        ensures
            res == self@.min_bet(),
    {
        proof {
            self.lemma_wf();
            lemma_replay_range(self@.config, self@.actions);
        }
        if log_slice(&self.history).len() == 0 {
            self.config.big_blind
        } else if self.current_street_length == 0 {
            0
        } else {
            let last_action = self.last_action.unwrap();
            proof {
                assert(last_action == self@.actions[self@.actions.len() - 1]);
            }
            if 2 * last_action.amount > self.max_bet() {
                self.max_bet()
            } else {
                2 * last_action.amount
            }
        }
    }

    /// The largest bet: all the chips of the player to act.
    pub fn max_bet(&self) -> (res: Amount)
        requires
            self.wf(),
        ensures
            res == self@.max_bet(),
    {
        proof { self.lemma_wf(); }
        self.stacks[self.player]
    }

    pub fn is_legal_next_action(&self, action: &Action) -> (res: bool)
        requires
            self.wf(),
            self@.to_call_defined(),
        ensures
            res == self@.is_legal(*action),
    {
        match action.action {
            ActionType::Bet => {
                let not_call = action.amount != self.to_call();
                let size_ok = (action.amount >= self.min_bet()) && (action.amount <= self.max_bet());
                size_ok && not_call
            },
            ActionType::Call => action.amount == self.to_call(),
            ActionType::Fold => self.to_call() != 0,
        }
    }

    /// Whether `add` takes the action: what calling costs is defined, the action is legal, and
    /// the player to act can pay it without a counter overflowing.
    pub fn can_add(&self, action: &Action) -> (res: bool)
        requires
            self.wf(),
        ensures
            res == (self@.to_call_defined() && self@.is_legal(*action) && can_step(self@.state(), *action)),
    {
        proof { self.lemma_wf(); }
        if !self.to_call_is_defined() {
            return false;
        }
        if !self.is_legal_next_action(action) {
            return false;
        }
        action.amount <= self.stacks[self.player] && self.current_street_length < 255 && self.street < usize::MAX
    }

    pub fn is_empty(&self) -> (res: bool)
        requires
            self.wf(),
        ensures
            res == (self@.actions.len() == 0),
    {
        log_slice(&self.history).len() == 0
    }

    /// The actions taken so far.
    pub fn get_actions(&self) -> (res: Vec<Action>)
        ensures
            res@ == self@.actions,
    {
        let actions = log_slice(&self.history);
        let mut result: Vec<Action> = Vec::with_capacity(actions.len());
        for i in 0..actions.len()
            invariant
                actions@ == self@.actions,
                result@ == self@.actions.take(i as int),
        {
            result.push(actions[i]);
            proof {
                assert(self@.actions.take(i + 1) =~= self@.actions.take(i as int).push(actions@[i as int]));
            }
        }
        proof { assert(self@.actions.take(self@.actions.len() as int) =~= self@.actions); }
        result
    }

    /// A copy of the history.
    pub fn duplicate(&self) -> (res: ActionHistory)
        requires
            self.wf(),
        ensures
            res.wf(),
            res@ == self@,
    {
        ActionHistory {
            history: self.history.clone(),
            last_action: self.last_action,
            current_street_length: self.current_street_length,
            stacks: self.stacks,
            street: self.street,
            player: self.player,
            config: self.config,
        }
    }

    /// The possible next actions allowed by the bet abstraction: the bet sizes of the current
    /// street (each amount once, in increasing amount), then the call and the fold, keeping
    /// only the legal actions; none when the hand is over.
    pub fn next_actions(&self, bet_abstraction: &[Vec<BetSize>]) -> (res: ActionList)
        requires
            self.wf(),
            valid_bet_abstraction(bet_abstraction@),
            self@.next_actions_defined(bet_abstraction@),
        ensures
            action_list_items(res) == self@.next_actions(bet_abstraction@),
            !self@.hand_over() ==> bets_call_fold(action_list_items(res), self@),
    {
        if self.hand_over() {
            return action_list_from_vec(Vec::new());
        }
        proof {
            self.lemma_wf();
            crate::history_laws::law_next_actions_order(self@, bet_abstraction@);
        }
        let pot = self.pot();
        let stack = self.stacks[self.player];
        let row = &bet_abstraction[self.street];
        let mut candidate_actions: Vec<Action> = Vec::with_capacity(NUM_ACTIONS);
        for i in 0..row.len()
            invariant
                0 <= self@.state().street < bet_abstraction@.len(),
                row@ == bet_abstraction@[self@.state().street]@,
                valid_bet_abstraction(bet_abstraction@),
                candidate_actions@ == bet_candidates(row@.take(i as int), pot as int, stack as int),
        {
            let bet_size: Amount = match row[i] {
                BetSize::AllIn => stack,
                BetSize::PotFraction(n, d) => {
                    proof {
                        lemma_fraction_denominator(bet_abstraction@, self@.state().street, i as int);
                        assert(n as u64 * pot as u64 <= 0xFFFF_FFFF * 0xFFFF) by (nonlinear_arith)
                            requires n <= 0xFFFF_FFFFu32, pot <= 0xFFFFu16;
                    }
                    let a: u64 = (n as u64 * pot as u64) / (d as u64);
                    if a > 65535 {
                        65535
                    } else {
                        a as u16
                    }
                },
            };
            let action = Action { action: ActionType::Bet, amount: bet_size };
            proof {
                assert(row@.take(i + 1).drop_last() =~= row@.take(i as int));
                assert(bet_size == bet_amount(row@[i as int], pot as int, stack as int));
            }
            insert_bet_exec(&mut candidate_actions, action);
        }
        proof { assert(row@.take(row@.len() as int) =~= row@); }
        candidate_actions.push(Action { action: ActionType::Call, amount: self.to_call() });
        candidate_actions.push(fold());
        let mut result: Vec<Action> = Vec::with_capacity(NUM_ACTIONS);
        for j in 0..candidate_actions.len()
            invariant
                self.wf(),
                self@.to_call_defined(),
                result@ == keep_legal(self@, candidate_actions@.take(j as int)),
        {
            let a = candidate_actions[j];
            proof { assert(candidate_actions@.take(j + 1).drop_last() =~= candidate_actions@.take(j as int)); }
            if self.is_legal_next_action(&a) {
                result.push(a);
            }
        }
        proof { assert(candidate_actions@.take(candidate_actions@.len() as int) =~= candidate_actions@); }
        action_list_from_vec(result)
    }

    /// The next actions of `next_actions`, or none when `next_actions` cannot list them: a bet
    /// size with a zero denominator, a street with no row of bet sizes, or a stack below the
    /// opponent's.
    pub fn try_next_actions(&self, bet_abstraction: &[Vec<BetSize>]) -> (res: Option<ActionList>)
        requires
            self.wf(),
        ensures
            res is Some <==> valid_bet_abstraction(bet_abstraction@)
                && self@.next_actions_defined(bet_abstraction@),
            res matches Some(v) ==> action_list_items(v) == self@.next_actions(bet_abstraction@),
    {
        if !bet_abstraction_is_valid(bet_abstraction) {
            return None;
        }
        if !self.hand_over() && !(self.to_call_is_defined() && self.street() < bet_abstraction.len()) {
            return None;
        }
        Some(self.next_actions(bet_abstraction))
    }

    /// The history without its last action, replayed from the start.
    pub fn without_last_action(&self) -> (res: ActionHistory)
        requires
            self.wf(),
            self@.actions.len() > 0,
        ensures
            res.wf(),
            res@ == (HistoryView { config: self@.config, actions: self@.actions.drop_last() }),
            res@.to_call_defined(),
            res@.is_legal(self@.actions.last()),
            can_step(res@.state(), self@.actions.last()),
            res@.push(self@.actions.last()) == self@,
    {
        proof {
            self.lemma_wf();
            crate::history_laws::law_without_last_then_add(self@);
        }
        let actions = log_slice(&self.history);
        let n = actions.len() - 1;
        let mut history = ActionHistory::with_config(self.config);
        proof { assert(self@.actions.take(0) =~= Seq::<Action>::empty()); }
        for i in 0..n
            invariant
                actions@ == self@.actions,
                n == self@.actions.len() - 1,
                self@.valid(),
                legal_seq(self@.config, self@.actions),
                history.wf(),
                history@ == (HistoryView { config: self@.config, actions: self@.actions.take(i as int) }),
        {
            proof {
                lemma_valid_prefix(self@.config, self@.actions, i as int);
                lemma_legal_prefix(self@.config, self@.actions, i as int);
                assert(self@.actions.take(i as int).push(self@.actions[i as int]) =~= self@.actions.take(i + 1));
            }
            history.add(&actions[i]);
        }
        proof { assert(self@.actions.take(n as int) =~= self@.actions.drop_last()); }
        history
    }

    /// Adjusts an action of the abstract game to this history: a call pays what calling costs
    /// here, and a bet is brought between the smallest and the largest bet.
    pub fn adjust_action(&self, action: &Action) -> (res: Action)
        requires
            self.wf(),
            action.action == ActionType::Call ==> self@.to_call_defined(),
        ensures
            res == adjusted_action(self@, *action),
    {
        let mut adjusted = *action;
        if action.action == ActionType::Call {
            adjusted.amount = self.to_call();
        } else if action.action == ActionType::Bet {
            if action.amount > self.max_bet() {
                adjusted.amount = self.max_bet();
            } else if action.amount < self.min_bet() {
                adjusted.amount = self.min_bet();
            }
        }
        adjusted
    }

    /// Maps the history onto the given bet abstraction: each fold stays a fold, each call calls
    /// in the translated history, an all-in bet goes all in, and any other bet becomes the bet
    /// of the abstraction closest to it in log space, leaving out the all-in bet (or, when that
    /// is the only bet, the all-in amount less a big blind). None when a translated action could
    /// not be taken in the translated history.
    pub fn try_translate(&self, bet_abstraction: &[Vec<BetSize>]) -> (res: Option<ActionHistory>)
        requires
            self.wf(),
            valid_bet_abstraction(bet_abstraction@),
        ensures
            res is Some <==> translate_defined(self@.config, self@.actions, bet_abstraction@),
            res matches Some(t) ==> t.wf() && t@ == translated_view(self@.config, self@.actions, bet_abstraction@),
    {
        proof { self.lemma_wf(); }
        let config = self.config;
        let mut translated = ActionHistory::with_config(config);
        let mut untranslated = ActionHistory::with_config(config);
        let actions = self.get_actions();
        proof { assert(actions@.take(0) =~= Seq::<Action>::empty()); }
        for i in 0..actions.len()
            invariant
                actions@ == self@.actions,
                self@.valid(),
                legal_seq(config, actions@),
                valid_bet_abstraction(bet_abstraction@),
                translate_defined(config, actions@.take(i as int), bet_abstraction@),
                config == self@.config,
                translated.wf(),
                untranslated.wf(),
                translated@.config == config,
                translated@ == translated_view(config, actions@.take(i as int), bet_abstraction@),
                untranslated@ == (HistoryView { config, actions: actions@.take(i as int) }),
        {
            let action = actions[i];
            let ghost pre = actions@.take(i as int);
            let ghost next = actions@.take(i + 1);
            proof {
                lemma_valid_prefix(config, actions@, i as int);
                lemma_legal_prefix(config, actions@, i as int);
                assert(next.drop_last() =~= pre);
                assert(next.last() == action);
                assert(translated_view(config, next.drop_last(), bet_abstraction@) == translated@);
                assert((HistoryView { config, actions: next.drop_last() }) == untranslated@);
                if translate_defined(config, actions@, bet_abstraction@) {
                    lemma_translate_defined_prefix(config, actions@, bet_abstraction@, i + 1);
                }
            }
            if !(translated.hand_over() || (translated.to_call_is_defined() && translated.street() < bet_abstraction.len())) {
                return None;
            }
            if !translated.to_call_is_defined() {
                return None;
            }
            let translated_action_list = translated.next_actions(bet_abstraction);
            let translated_next_actions: &[Action] = translated_action_list.deref();
            let translated_action = if action.action == ActionType::Fold {
                fold()
            } else if action.action == ActionType::Call {
                Action { action: ActionType::Call, amount: translated.to_call() }
            } else {
                if action.amount == untranslated.max_bet() {
                    Action { action: ActionType::Bet, amount: translated.max_bet() }
                } else {
                    let max_bet = translated.max_bet();
                    let mut candidate_bets: Vec<Amount> = Vec::new();
                    for j in 0..translated_next_actions.len()
                        invariant
                            candidate_bets@ == bets_below(translated_next_actions@.take(j as int), max_bet as int),
                    {
                        let a = translated_next_actions[j];
                        proof {
                            assert(translated_next_actions@.take(j + 1).drop_last() =~= translated_next_actions@.take(j as int));
                        }
                        if a.action == ActionType::Bet && a.amount != max_bet {
                            candidate_bets.push(a.amount);
                        }
                    }
                    proof {
                        assert(translated_next_actions@.take(translated_next_actions@.len() as int) =~= translated_next_actions@);
                    }
                    if candidate_bets.len() == 0 {
                        if max_bet < config.big_blind {
                            return None;
                        }
                        candidate_bets.push(max_bet - config.big_blind);
                        proof {
                            assert(candidate_bets@ =~= seq![(translated@.max_bet() - translated@.config.big_blind) as u16]);
                        }
                    }
                    let closest_bet_size = find_closest_log(candidate_bets, action.amount);
                    Action { action: ActionType::Bet, amount: closest_bet_size }
                }
            };
            proof {
                assert(translated_action == translate_action(translated@, untranslated@, action, bet_abstraction@));
            }
            if !translated.can_add(&translated_action) {
                return None;
            }
            translated.add(&translated_action);
            untranslated.add(&action);
            proof {
                assert(untranslated@.actions =~= next);
                assert(translate_defined(config, next, bet_abstraction@));
            }
        }
        proof { assert(actions@.take(actions@.len() as int) =~= actions@); }
        Some(translated)
    }

    /// Translates the history onto the bet abstraction (see `try_translate`), when it can be
    /// translated.
    pub fn translate(&self, bet_abstraction: &[Vec<BetSize>]) -> (res: ActionHistory)
        requires
            self.wf(),
            valid_bet_abstraction(bet_abstraction@),
            translate_defined(self@.config, self@.actions, bet_abstraction@),
        ensures
            res.wf(),
            res@ == translated_view(self@.config, self@.actions, bet_abstraction@),
    {
        self.try_translate(bet_abstraction).unwrap()
    }

    /// The actions as text, each followed by a comma, as in "bet 250,call 250,".
    pub fn to_string(&self) -> (res: String)
        requires
            self.wf(),
        ensures
            res@ == history_text(self@.actions),
    {
        let actions = log_slice(&self.history);
        let mut result = String::new();
        for i in 0..actions.len()
            invariant
                actions@ == self@.actions,
                result@ == history_text(self@.actions.take(i as int)),
        {
            let text = actions[i].to_string();
            result.append(text.as_str());
            result.append(",");
            proof {
                reveal_strlit(",");
                assert(self@.actions.take(i + 1).drop_last() =~= self@.actions.take(i as int));
            }
        }
        proof { assert(self@.actions.take(self@.actions.len() as int) =~= self@.actions); }
        result
    }
}

/// The action adjusted to a history: see `ActionHistory::adjust_action`.
pub open spec fn adjusted_action(h: HistoryView, a: Action) -> Action {
    match a.action {
        ActionType::Call => Action { action: ActionType::Call, amount: h.to_call() as u16 },
        ActionType::Bet => if a.amount > h.max_bet() {
            Action { action: ActionType::Bet, amount: h.max_bet() as u16 }
        } else if a.amount < h.min_bet() {
            Action { action: ActionType::Bet, amount: h.min_bet() as u16 }
        } else {
            a
        },
        ActionType::Fold => a,
    }
}

/// The amounts of the bets of a sequence of actions other than the given amount.
pub open spec fn bets_below(acts: Seq<Action>, max_bet: int) -> Seq<u16>
    decreases acts.len(),
{
    if acts.len() == 0 {
        Seq::empty()
    } else {
        let prev = bets_below(acts.drop_last(), max_bet);
        let a = acts.last();
        if a.action == ActionType::Bet && a.amount != max_bet { prev.push(a.amount) } else { prev }
    }
}

/// The action of the translated history `tr` for the action `a` taken after the history `un`.
pub open spec fn translate_action(tr: HistoryView, un: HistoryView, a: Action, abs: Seq<Vec<BetSize>>) -> Action {
    match a.action {
        ActionType::Fold => Action { action: ActionType::Fold, amount: 0 },
        ActionType::Call => Action { action: ActionType::Call, amount: tr.to_call() as u16 },
        ActionType::Bet => if a.amount == un.max_bet() {
            Action { action: ActionType::Bet, amount: tr.max_bet() as u16 }
        } else {
            let cands = bets_below(tr.next_actions(abs), tr.max_bet());
            let cands = if cands.len() == 0 {
                seq![(tr.max_bet() - tr.config.big_blind) as u16]
            } else {
                cands
            };
            Action { action: ActionType::Bet, amount: closest_log(cands, a.amount as int) as u16 }
        },
    }
}

/// The translated history of a sequence of actions.
pub open spec fn translated_view(cfg: GameConfig, acts: Seq<Action>, abs: Seq<Vec<BetSize>>) -> HistoryView
    decreases acts.len(),
{
    if acts.len() == 0 {
        HistoryView { config: cfg, actions: Seq::empty() }
    } else {
        let tr = translated_view(cfg, acts.drop_last(), abs);
        let un = HistoryView { config: cfg, actions: acts.drop_last() };
        tr.push(translate_action(tr, un, acts.last(), abs))
    }
}

/// `translate` computes without panic: at every action the translated history can list its next
/// actions, compute what it needs, and take the translated action.
pub open spec fn translate_defined(cfg: GameConfig, acts: Seq<Action>, abs: Seq<Vec<BetSize>>) -> bool
    decreases acts.len(),
{
    if acts.len() == 0 {
        true
    } else {
        let tr = translated_view(cfg, acts.drop_last(), abs);
        let un = HistoryView { config: cfg, actions: acts.drop_last() };
        let a = acts.last();
        &&& translate_defined(cfg, acts.drop_last(), abs)
        &&& tr.next_actions_defined(abs)
        &&& (a.action == ActionType::Call ==> tr.to_call_defined())
        &&& (a.action == ActionType::Bet && a.amount != un.max_bet()
            && bets_below(tr.next_actions(abs), tr.max_bet()).len() == 0
            ==> tr.max_bet() >= tr.config.big_blind)
        &&& tr.to_call_defined()
        &&& tr.is_legal(translate_action(tr, un, a, abs))
        &&& can_step(tr.state(), translate_action(tr, un, a, abs))
    }
}

proof fn lemma_translate_defined_prefix(cfg: GameConfig, acts: Seq<Action>, abs: Seq<Vec<BetSize>>, i: int)
    requires
        0 <= i <= acts.len(),
        translate_defined(cfg, acts, abs),
    ensures
        translate_defined(cfg, acts.take(i), abs),
    decreases acts.len() - i,
{
    if i < acts.len() {
        lemma_translate_defined_prefix(cfg, acts, abs, i + 1);
        assert(acts.take(i + 1).drop_last() =~= acts.take(i));
    } else {
        assert(acts.take(i) =~= acts);
    }
}

/// The prefixes of a valid sequence are valid, and each next action can be applied.
pub proof fn lemma_valid_prefix(cfg: GameConfig, acts: Seq<Action>, i: int)
    requires
        0 <= i < acts.len(),
        valid_seq(cfg, acts),
    ensures
        valid_seq(cfg, acts.take(i)),
        can_step(replay(cfg, acts.take(i)), acts[i]),
    decreases acts.len() - i,
{
    if i < acts.len() - 1 {
        lemma_valid_prefix(cfg, acts.drop_last(), i);
        assert(acts.drop_last().take(i) =~= acts.take(i));
    } else {
        assert(acts.drop_last() =~= acts.take(i));
    }
}

/// The prefixes of a legal sequence are legal, and each next action is allowed after them.
pub proof fn lemma_legal_prefix(cfg: GameConfig, acts: Seq<Action>, i: int)
    requires
        0 <= i < acts.len(),
        legal_seq(cfg, acts),
    ensures
        legal_seq(cfg, acts.take(i)),
        (HistoryView { config: cfg, actions: acts.take(i) }).to_call_defined(),
        (HistoryView { config: cfg, actions: acts.take(i) }).is_legal(acts[i]),
    decreases acts.len() - i,
{
    if i < acts.len() - 1 {
        lemma_legal_prefix(cfg, acts.drop_last(), i);
        assert(acts.drop_last().take(i) =~= acts.take(i));
    } else {
        assert(acts.drop_last() =~= acts.take(i));
    }
}

/// Whether no bet size of the rows has a zero denominator.
pub fn bet_abstraction_is_valid(abs: &[Vec<BetSize>]) -> (res: bool)
    ensures
        res == valid_bet_abstraction(abs@),
{
    for s in 0..abs.len()
        invariant
            forall|t: int, i: int| 0 <= t < s && 0 <= i < abs@[t]@.len() ==>
                (#[trigger] abs@[t]@[i] matches BetSize::PotFraction(_, d) ==> d > 0),
    {
        let row = &abs[s];
        for i in 0..row.len()
            invariant
                s < abs@.len(),
                row@ == abs@[s as int]@,
                forall|t: int, j: int| 0 <= t < s && 0 <= j < abs@[t]@.len() ==>
                    (#[trigger] abs@[t]@[j] matches BetSize::PotFraction(_, d) ==> d > 0),
                forall|j: int| 0 <= j < i ==>
                    (#[trigger] row@[j] matches BetSize::PotFraction(_, d) ==> d > 0),
        {
            if let BetSize::PotFraction(_, d) = row[i] {
                if d == 0 {
                    proof { assert(abs@[s as int]@[i as int] matches BetSize::PotFraction(_, d) && d == 0); }
                    return false;
                }
            }
        }
    }
    true
}

proof fn lemma_fraction_denominator(abs: Seq<Vec<BetSize>>, s: int, i: int)
    requires
        valid_bet_abstraction(abs),
        0 <= s < abs.len(),
        0 <= i < abs[s]@.len(),
    ensures
        abs[s]@[i] matches BetSize::PotFraction(_, d) ==> d > 0,
{
}

/// Inserts a bet among bets of increasing amounts (see `insert_bet`).
fn insert_bet_exec(v: &mut Vec<Action>, a: Action)
    ensures
        final(v)@ == insert_bet(old(v)@, a),
{
    let ghost s = v@;
    let mut i: usize = 0;
    proof { assert(s.take(0) + s.skip(0) =~= s); assert(s.skip(0) =~= s); assert(s.take(0) + insert_bet(s.skip(0), a) =~= insert_bet(s, a)); }
    while i < v.len()
        invariant
            i <= v@.len(),
            v@ == s,
            s == old(v)@,
            insert_bet(s, a) == s.take(i as int) + insert_bet(s.skip(i as int), a),
        decreases v@.len() - i,
    {
        let ghost t = s.skip(i as int);
        proof { assert(t[0] == s[i as int]); }
        if v[i].amount == a.amount {
            proof {
                assert(t.len() > 0);
                assert(insert_bet(t, a) == t);
                assert(s.take(i as int) + t =~= s);
            }
            return;
        }
        if a.amount < v[i].amount {
            v.insert(i, a);
            proof {
                assert(t.len() > 0);
                assert(insert_bet(t, a) == seq![a] + t);
                assert(s.insert(i as int, a) =~= s.take(i as int) + (seq![a] + t));
            }
            return;
        }
        proof {
            assert(t.len() > 0);
            assert(t.drop_first() =~= s.skip(i + 1));
            assert(insert_bet(t, a) == seq![t[0]] + insert_bet(t.drop_first(), a));
            assert(s.take(i + 1) =~= s.take(i as int).push(s[i as int]));
            assert(s.take(i as int) + (seq![s[i as int]] + insert_bet(s.skip(i + 1), a))
                =~= s.take(i + 1) + insert_bet(s.skip(i + 1), a));
        }
        i = i + 1;
    }
    proof {
        assert(s.skip(i as int) =~= Seq::<Action>::empty());
        assert(s.take(i as int) =~= s);
    }
    v.push(a);
}

/// `a` is strictly closer to `n` than `b` in log space (for positive amounts):
/// |ln a - ln n| < |ln b - ln n|, that is max(a, n) / min(a, n) < max(b, n) / min(b, n).
pub open spec fn log_closer(a: int, b: int, n: int) -> bool {
    let (a_hi, a_lo) = if a >= n { (a, n) } else { (n, a) };
    let (b_hi, b_lo) = if b >= n { (b, n) } else { (n, b) };
    a_hi * b_lo < b_hi * a_lo
}

/// The first positive amount of `v` that is closest to `n` in log space; 0 when `n` is 0 or no
/// amount is positive (the logarithm of 0 is minus infinity).
pub open spec fn closest_log(v: Seq<u16>, n: int) -> int
    decreases v.len(),
{
    if v.len() == 0 {
        0
    } else {
        let prev = closest_log(v.drop_last(), n);
        let c = v.last() as int;
        if n > 0 && c > 0 && (prev == 0 || log_closer(c, prev, n)) { c } else { prev }
    }
}

/// Returns the element of `v` which is closest in log space to `n`.
pub fn find_closest_log(v: Vec<Amount>, n: Amount) -> (res: Amount)
    requires
        v@.len() > 0,
    ensures
        res == closest_log(v@, n as int),
{
    let mut closest_v: Amount = 0;
    for i in 0..v.len()
        invariant
            closest_v == closest_log(v@.take(i as int), n as int),
    {
        let candidate = v[i];
        proof { assert(v@.take(i + 1).drop_last() =~= v@.take(i as int)); }
        if n > 0 && candidate > 0 {
            let (c_hi, c_lo): (u64, u64) = if candidate >= n { (candidate as u64, n as u64) } else { (n as u64, candidate as u64) };
            let (b_hi, b_lo): (u64, u64) = if closest_v >= n { (closest_v as u64, n as u64) } else { (n as u64, closest_v as u64) };
            proof {
                assert(c_hi * b_lo <= 65535 * 65535) by (nonlinear_arith)
                    requires c_hi <= 65535, b_lo <= 65535;
                assert(b_hi * c_lo <= 65535 * 65535) by (nonlinear_arith)
                    requires b_hi <= 65535, c_lo <= 65535;
            }
            if closest_v == 0 || c_hi * b_lo < b_hi * c_lo {
                closest_v = candidate;
            }
        }
    }
    proof { assert(v@.take(v@.len() as int) =~= v@); }
    closest_v
}

/// The text of an action, as in "bet 250".
pub open spec fn action_text(a: Action) -> Seq<char> {
    let word = match a.action {
        ActionType::Fold => seq!['f', 'o', 'l', 'd'],
        ActionType::Call => seq!['c', 'a', 'l', 'l'],
        ActionType::Bet => seq!['b', 'e', 't'],
    };
    word + seq![' '] + decimal_text(a.amount as nat)
}

/// The text of a history: each action followed by a comma.
pub open spec fn history_text(acts: Seq<Action>) -> Seq<char>
    decreases acts.len(),
{
    if acts.len() == 0 {
        Seq::empty()
    } else {
        history_text(acts.drop_last()) + action_text(acts.last()) + seq![',']
    }
}

/// The character of a decimal digit.
pub open spec fn digit_char(d: nat) -> char {
    if d == 0 { '0' } else if d == 1 { '1' } else if d == 2 { '2' } else if d == 3 { '3' }
    else if d == 4 { '4' } else if d == 5 { '5' } else if d == 6 { '6' } else if d == 7 { '7' }
    else if d == 8 { '8' } else { '9' }
}

/// The decimal digits of a number, without leading zeros.
pub open spec fn decimal_text(n: nat) -> Seq<char>
    decreases n,
{
    if n < 10 {
        seq![digit_char(n)]
    } else {
        decimal_text(n / 10) + seq![digit_char(n % 10)]
    }
}

/// A string literal holding one decimal digit.
fn digit_text(d: u16) -> (s: &'static str)
    requires
        d < 10,
    ensures
        s@ == seq![digit_char(d as nat)],
{
    proof {
        reveal_strlit("0"); reveal_strlit("1"); reveal_strlit("2"); reveal_strlit("3");
        reveal_strlit("4"); reveal_strlit("5"); reveal_strlit("6"); reveal_strlit("7");
        reveal_strlit("8"); reveal_strlit("9");
    }
    match d {
        0 => "0",
        1 => "1",
        2 => "2",
        3 => "3",
        4 => "4",
        5 => "5",
        6 => "6",
        7 => "7",
        8 => "8",
        _ => "9",
    }
}

/// Appends the decimal digits of a number.
fn append_decimal(s: &mut String, n: u16)
    ensures
        final(s)@ == old(s)@ + decimal_text(n as nat),
    decreases n,
{
    if n >= 10 {
        append_decimal(s, n / 10);
    }
    s.append(digit_text(n % 10));
}

impl Action {
    /// The action as text, as in "bet 250".
    pub fn to_string(&self) -> (res: String)
        ensures
            res@ == action_text(*self),
    {
        proof {
            reveal_strlit("fold "); reveal_strlit("call "); reveal_strlit("bet ");
        }
        let word = match self.action {
            ActionType::Fold => "fold ",
            ActionType::Call => "call ",
            ActionType::Bet => "bet ",
        };
        let mut result = String::from_str(word);
        append_decimal(&mut result, self.amount);
        proof {
            let w = match self.action {
                ActionType::Fold => seq!['f', 'o', 'l', 'd'],
                ActionType::Call => seq!['c', 'a', 'l', 'l'],
                ActionType::Bet => seq!['b', 'e', 't'],
            };
            assert(word@ =~= w + seq![' ']);
        }
        result
    }
}


/// The index of the first space of a text, or its length when it has none.
pub open spec fn first_space(s: Seq<char>) -> nat
    decreases s.len(),
{
    if s.len() == 0 {
        0
    } else if s[0] == ' ' {
        0
    } else {
        1 + first_space(s.drop_first())
    }
}

/// The value of a text of decimal digits.
pub open spec fn digits_value(d: Seq<char>) -> nat
    decreases d.len(),
{
    if d.len() == 0 {
        0
    } else {
        digits_value(d.drop_last()) * 10 + ((d.last() as u32) - ('0' as u32)) as nat
    }
}

pub open spec fn is_digit(c: char) -> bool {
    '0' <= c && c <= '9'
}

/// A u16 written in decimal, as `str::parse::<u16>` reads it: an optional '+' followed by at
/// least one digit, of value at most 65535.
pub open spec fn parse_u16(t: Seq<char>) -> Option<u16> {
    let d = unsigned_digits(t);
    if d.len() > 0 && (forall|i: int| 0 <= i < d.len() ==> is_digit(#[trigger] d[i])) && digits_value(d) <= u16::MAX {
        Some(digits_value(d) as u16)
    } else {
        None
    }
}

/// The text without its leading '+', if it has one.
pub open spec fn unsigned_digits(t: Seq<char>) -> Seq<char> {
    if t.len() > 0 && t[0] == '+' { t.drop_first() } else { t }
}

/// The action type that a word names.
pub open spec fn word_action(w: Seq<char>) -> Option<ActionType> {
    if w == seq!['B', 'e', 't'] {
        Some(ActionType::Bet)
    } else if w == seq!['C', 'a', 'l', 'l'] {
        Some(ActionType::Call)
    } else if w == seq!['F', 'o', 'l', 'd'] {
        Some(ActionType::Fold)
    } else {
        None
    }
}

/// The action that a text such as "Bet 200" names: the words are separated by single spaces,
/// the first names the action and the second its amount (later words are ignored).
pub open spec fn parse_action(s: Seq<char>) -> Option<Action> {
    let i = first_space(s);
    if i >= s.len() {
        None
    } else {
        let rest = s.skip((i + 1) as int);
        let t = rest.take(first_space(rest) as int);
        match (word_action(s.take(i as int)), parse_u16(t)) {
            (Some(action), Some(amount)) => Some(Action { action, amount }),
            _ => None,
        }
    }
}

/// The actions that a list of texts names.
pub open spec fn parse_actions(ss: Seq<&str>) -> Seq<Action> {
    Seq::new(ss.len(), |i: int| parse_action(ss[i]@).unwrap())
}

proof fn lemma_first_space(s: Seq<char>)
    ensures
        first_space(s) <= s.len(),
        forall|j: int| 0 <= j < first_space(s) ==> s[j] != ' ',
        first_space(s) < s.len() ==> s[first_space(s) as int] == ' ',
    decreases s.len(),
{
    if s.len() > 0 && s[0] != ' ' {
        lemma_first_space(s.drop_first());
        assert forall|j: int| 0 <= j < first_space(s) implies s[j] != ' ' by {
            if j > 0 {
                assert(s[j] == s.drop_first()[j - 1]);
            }
        }
    }
}

proof fn lemma_first_space_char(s: Seq<char>, i: nat)
    requires
        i <= s.len(),
        forall|j: int| 0 <= j < i ==> s[j] != ' ',
        i < s.len() ==> s[i as int] == ' ',
    ensures
        first_space(s) == i,
    decreases s.len(),
{
    if i > 0 {
        assert forall|j: int| 0 <= j < i - 1 implies s.drop_first()[j] != ' ' by {
            assert(s.drop_first()[j] == s[j + 1]);
        }
        lemma_first_space_char(s.drop_first(), (i - 1) as nat);
    }
}

/// Reads the value of the digits `s[from..to]`, or None when it is not a u16 as `parse_u16`
/// reads it.
fn parse_amount(s: &str, from: usize, to: usize) -> (res: Option<u16>)
    requires
        from <= to <= s@.len(),
    ensures
        res == parse_u16(s@.subrange(from as int, to as int)),
{
    let ghost t = s@.subrange(from as int, to as int);
    let mut start = from;
    if from < to && s.get_char(from) == '+' {
        start = from + 1;
    }
    let ghost d = s@.subrange(start as int, to as int);
    proof {
        if t.len() > 0 && t[0] == '+' {
            assert(d =~= t.drop_first());
        } else {
            assert(d =~= t);
        }
    }
    if start >= to {
        return None;
    }
    let mut value: u32 = 0;
    let mut i = start;
    while i < to
        invariant
            from <= start <= i <= to <= s@.len(),
            d == s@.subrange(start as int, to as int),
            t == s@.subrange(from as int, to as int),
            d == unsigned_digits(t),
            d.len() > 0,
            value == digits_value(d.take(i - start)),
            value <= u16::MAX,
            forall|j: int| 0 <= j < i - start ==> is_digit(#[trigger] d[j]),
        decreases to - i,
    {
        let c = s.get_char(i);
        proof {
            assert(d.take(i - start + 1).drop_last() =~= d.take(i - start));
            assert(d[i - start] == c);
        }
        if !('0' <= c && c <= '9') {
            proof { assert(!is_digit(d[i - start])); }
            return None;
        }
        let digit = (c as u32) - ('0' as u32);
        value = value * 10 + digit;
        proof {
            assert(d.take(i - start + 1).last() == c);
            assert(value == digits_value(d.take(i - start + 1)));
        }
        if value > 65535 {
            proof {
                if forall|j: int| 0 <= j < d.len() ==> is_digit(#[trigger] d[j]) {
                    lemma_digits_value_grows(d, (i - start + 1) as int);
                }
            }
            return None;
        }
        i = i + 1;
    }
    proof { assert(d.take(to - start) =~= d); }
    Some(value as u16)
}

/// A longer prefix of digits has at least the value of a shorter one.
proof fn lemma_digits_value_grows(d: Seq<char>, k: int)
    requires
        0 <= k <= d.len(),
        forall|j: int| 0 <= j < d.len() ==> is_digit(#[trigger] d[j]),
    ensures
        digits_value(d.take(k)) <= digits_value(d),
    decreases d.len() - k,
{
    if k < d.len() {
        lemma_digits_value_grows(d, k + 1);
        assert(d.take(k + 1).drop_last() =~= d.take(k));
        assert(is_digit(d[k]));
    } else {
        assert(d.take(k) =~= d);
    }
}

/// Reads an action such as "Bet 200", or None when the text names none.
fn read_action(s: &str) -> (res: Option<Action>)
    ensures
        res == parse_action(s@),
{
    let n = s.unicode_len();
    proof { lemma_first_space(s@); }
    let mut i: usize = 0;
    while i < n && s.get_char(i) != ' '
        invariant
            n == s@.len(),
            i <= n,
            forall|j: int| 0 <= j < i ==> s@[j] != ' ',
        decreases n - i,
    {
        i = i + 1;
    }
    proof { lemma_first_space_char(s@, i as nat); }
    if i >= n {
        return None;
    }
    let mut k: usize = i + 1;
    let ghost rest = s@.skip(i + 1);
    while k < n && s.get_char(k) != ' '
        invariant
            n == s@.len(),
            i + 1 <= k <= n,
            rest == s@.skip(i + 1),
            forall|j: int| 0 <= j < k - (i + 1) ==> rest[j] != ' ',
        decreases n - k,
    {
        proof { assert(rest[k - (i + 1)] == s@[k as int]); }
        k = k + 1;
    }
    proof {
        if k < n {
            assert(rest[k - (i + 1)] == s@[k as int]);
        }
        lemma_first_space_char(rest, (k - (i + 1)) as nat);
        assert(rest.take(first_space(rest) as int) =~= s@.subrange(i + 1, k as int));
    }
    let amount = parse_amount(s, i + 1, k);
    let word = s.substring_char(0, i);
    proof {
        reveal_strlit("Bet"); reveal_strlit("Call"); reveal_strlit("Fold");
        assert(word@ =~= s@.take(i as int));
        assert("Bet"@ =~= seq!['B', 'e', 't']);
        assert("Call"@ =~= seq!['C', 'a', 'l', 'l']);
        assert("Fold"@ =~= seq!['F', 'o', 'l', 'd']);
        assert(first_space(s@) == i);
    }
    let action = if str_equal(word, "Bet") {
        ActionType::Bet
    } else if str_equal(word, "Call") {
        ActionType::Call
    } else if str_equal(word, "Fold") {
        ActionType::Fold
    } else {
        return None;
    };
    match amount {
        Some(amount) => Some(Action { action, amount }),
        None => None,
    }
}

/// Whether two texts are equal.
pub(crate) fn str_equal(a: &str, b: &str) -> (res: bool)
    ensures
        res == (a@ == b@),
{
    let n = a.unicode_len();
    if n != b.unicode_len() {
        return false;
    }
    for i in 0..n
        invariant
            n == a@.len(),
            n == b@.len(),
            forall|j: int| 0 <= j < i ==> a@[j] == b@[j],
    {
        if a.get_char(i) != b.get_char(i) {
            return false;
        }
    }
    proof { assert(a@ =~= b@); }
    true
}

impl ActionHistory {
    /// A history of the standard game from texts such as "Bet 200" and "Call 200".
    pub fn from_strings(actions: Vec<&str>) -> (res: ActionHistory)
        requires
            forall|i: int| 0 <= i < actions@.len() ==> (#[trigger] parse_action(actions@[i]@)) is Some,
            valid_seq(GameConfig::standard_spec(), parse_actions(actions@)),
            legal_seq(GameConfig::standard_spec(), parse_actions(actions@)),
        ensures
            res.wf(),
            res@ == (HistoryView { config: GameConfig::standard_spec(), actions: parse_actions(actions@) }),
    {
        let mut history = ActionHistory::new();
        let ghost acts = parse_actions(actions@);
        proof { assert(acts.take(0) =~= Seq::<Action>::empty()); }
        for i in 0..actions.len()
            invariant
                acts == parse_actions(actions@),
                forall|i: int| 0 <= i < actions@.len() ==> (#[trigger] parse_action(actions@[i]@)) is Some,
                valid_seq(GameConfig::standard_spec(), acts),
                legal_seq(GameConfig::standard_spec(), acts),
                history.wf(),
                history@ == (HistoryView { config: GameConfig::standard_spec(), actions: acts.take(i as int) }),
        {
            let action = read_action(actions[i]);
            proof {
                assert(parse_action(actions@[i as int]@) is Some);
                lemma_valid_prefix(GameConfig::standard_spec(), acts, i as int);
                lemma_legal_prefix(GameConfig::standard_spec(), acts, i as int);
                assert(acts.take(i as int).push(acts[i as int]) =~= acts.take(i + 1));
            }
            let action = action.unwrap();
            history.add(&action);
        }
        proof { assert(acts.take(acts.len() as int) =~= acts); }
        history
    }
}

} // verus!
