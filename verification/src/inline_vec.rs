//! smallvec's `SmallVec`, a vector that holds its first items inline, where the library keeps
//! short runs of items: the actions of a history, the next actions of a history and the cards of
//! a hand. Each kind is a struct of its own around the vector; what it holds has a name, and each
//! method that the library calls has a wrapper whose contract says what the method does to that
//! sequence. (`SmallVec` itself cannot stand in a verified signature: its parameter is bound by
//! smallvec's own trait `Array`, which Verus does not know.)

use vstd::prelude::*;
use smallvec::SmallVec;
use crate::card::Card;
use crate::history::{Action, NUM_ACTIONS};

verus! {

/// The actions taken in a hand, in a `SmallVec` with room for ten inline.
#[verifier::external_body]
#[derive(Debug, PartialEq, Eq, Hash)]
pub struct ActionLog {
    actions: SmallVec<[Action; 10]>,
}

impl Clone for ActionLog {
    /// `SmallVec::clone`: a log of the same actions.
    #[verifier::external_body]
    fn clone(&self) -> (res: Self)
        ensures
            log_items(res) == log_items(*self),
    {
        ActionLog { actions: self.actions.clone() }
    }
}

/// The actions that a log holds, in order.
pub uninterp spec fn log_items(v: ActionLog) -> Seq<Action>;

/// `SmallVec::with_capacity(10)`: an empty log (ten actions fit inline, so nothing is
/// allocated).
#[verifier::external_body]
pub(crate) fn log_new() -> (res: ActionLog)
    ensures
        log_items(res) == Seq::<Action>::empty(),
{
    ActionLog { actions: SmallVec::with_capacity(10) }
}

/// `SmallVec::push`: appends the action at the end.
#[verifier::external_body]
pub(crate) fn log_push(v: &mut ActionLog, a: Action)
    ensures
        log_items(*final(v)) == log_items(*old(v)).push(a),
{
    v.actions.push(a)
}

/// `SmallVec::as_slice`: the actions held, in order.
#[verifier::external_body]
pub(crate) fn log_slice(v: &ActionLog) -> (res: &[Action])
    ensures
        res@ == log_items(*v),
{
    v.actions.as_slice()
}

/// The next actions of a history, in a `SmallVec` with room for all of them inline.
#[verifier::external_body]
#[derive(Debug, PartialEq, Eq, Hash)]
pub struct ActionList {
    actions: SmallVec<[Action; NUM_ACTIONS]>,
}

/// The actions that a list holds, in order.
pub uninterp spec fn action_list_items(v: ActionList) -> Seq<Action>;

impl std::ops::Deref for ActionList {
    type Target = [Action];

    /// `SmallVec::as_slice`: the actions held, in order.
    #[verifier::external_body]
    fn deref(&self) -> (res: &[Action])
        ensures
            res@ == action_list_items(*self),
    {
        self.actions.as_slice()
    }
}

/// `SmallVec::from_vec`: a list that holds the actions of `v`, in order.
#[verifier::external_body]
pub(crate) fn action_list_from_vec(v: Vec<Action>) -> (res: ActionList)
    ensures
        action_list_items(res) == v@,
{
    ActionList { actions: SmallVec::from_vec(v) }
}

/// The cards of a hand, in a `SmallVec` with room for seven inline.
#[verifier::external_body]
#[derive(Debug, PartialEq, Eq, Hash)]
pub struct HandCards {
    cards: SmallVec<[Card; 7]>,
}

/// The cards that a hand holds, in order.
pub uninterp spec fn hand_items(v: HandCards) -> Seq<Card>;

impl std::ops::Deref for HandCards {
    type Target = [Card];

    /// `SmallVec::as_slice`: the cards held, in order.
    #[verifier::external_body]
    fn deref(&self) -> (res: &[Card])
        ensures
            res@ == hand_items(*self),
    {
        self.cards.as_slice()
    }
}

/// `SmallVec::from_vec`: a hand that holds the cards of `v`, in order.
#[verifier::external_body]
pub(crate) fn hand_from_vec(v: Vec<Card>) -> (res: HandCards)
    ensures
        hand_items(res) == v@,
{
    HandCards { cards: SmallVec::from_vec(v) }
}

} // verus!
