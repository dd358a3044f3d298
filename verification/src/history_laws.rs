use vstd::prelude::*;
use crate::history::{
    Action, ActionType, BetSize, BettingState, GameConfig, HistoryView, SHOWDOWN, bet_candidates,
    bet_amount, increasing_bets, insert_bet, bets_call_fold,
    keep_legal, legal_seq, replay, stack_of, step, valid_seq, can_step,
};

verus! {

/// The chips of the actions of a sequence.
pub open spec fn chips_paid(acts: Seq<Action>) -> int
    decreases acts.len(),
{
    if acts.len() == 0 { 0 } else { chips_paid(acts.drop_last()) + acts.last().amount }
}

/// Chips are conserved: the two stacks and the chips of all actions make up the two starting
/// stacks, so the pot holds exactly the chips of the actions (or the big blind when none).
pub proof fn law_chips_conserved(v: HistoryView)
    ensures
        v.state().stack0 + v.state().stack1 + chips_paid(v.actions) == 2 * v.config.stack_size,
        chips_paid(v.actions) != 0 ==> v.pot() == chips_paid(v.actions),
        chips_paid(v.actions) == 0 ==> v.pot() == v.config.big_blind,
    decreases v.actions.len(),
{
    if v.actions.len() > 0 {
        law_chips_conserved(HistoryView { config: v.config, actions: v.actions.drop_last() });
    }
}

/// After any action that leaves both players without chips, it is showdown.
pub proof fn law_all_in_is_showdown(v: HistoryView)
    requires
        v.actions.len() > 0,
        v.state().stack0 == 0,
        v.state().stack1 == 0,
    ensures
        v.state().street == SHOWDOWN,
{
}

/// Removing the last action of a valid history gives a valid history to which that action can
/// be added back, giving the history again; when the history was played legally, the shorter one
/// was too, and the action is legal after it, so `add` takes it back.
pub proof fn law_without_last_then_add(v: HistoryView)
    requires
        v.valid(),
        v.actions.len() > 0,
    ensures
        ({
            let p = HistoryView { config: v.config, actions: v.actions.drop_last() };
            &&& p.valid()
            &&& can_step(p.state(), v.actions.last())
            &&& p.push(v.actions.last()) == v
            &&& legal_seq(v.config, v.actions) ==> {
                &&& legal_seq(p.config, p.actions)
                &&& p.to_call_defined()
                &&& p.is_legal(v.actions.last())
            }
        }),
{
    let p = HistoryView { config: v.config, actions: v.actions.drop_last() };
    assert(p.actions.push(v.actions.last()) =~= v.actions);
}

/// No action of the sequence is a fold.
pub open spec fn no_fold(acts: Seq<Action>) -> bool {
    forall|i: int| 0 <= i < acts.len() ==> (#[trigger] acts[i]).action != ActionType::Fold
}

/// The betting state of legal play without folds: at the start of a street both stacks are
/// equal, and otherwise the player to act has at least as many chips as the other, and needs at
/// most the last amount to call.
spec fn play_invariant(v: HistoryView) -> bool {
    let st = v.state();
    let p = st.player;
    &&& (p == 0 || p == 1)
    &&& (v.actions.len() == 0 || st.street_len == 0) ==> st.stack0 == st.stack1
    &&& (v.actions.len() > 0 && st.street_len > 0) ==> {
        &&& stack_of(st, p) >= stack_of(st, 1 - p)
        &&& stack_of(st, p) - stack_of(st, 1 - p) <= v.actions.last().amount
    }
}

proof fn lemma_play_invariant(v: HistoryView)
    requires
        v.valid(),
        legal_seq(v.config, v.actions),
        no_fold(v.actions),
    ensures
        play_invariant(v),
    decreases v.actions.len(),
{
    crate::history::lemma_replay_range(v.config, v.actions);
    if v.actions.len() > 0 {
        let p = HistoryView { config: v.config, actions: v.actions.drop_last() };
        assert(no_fold(p.actions)) by {
            assert forall|i: int| 0 <= i < p.actions.len() implies (#[trigger] p.actions[i]).action != ActionType::Fold by {
                assert(p.actions[i] == v.actions[i]);
            }
        }
        lemma_play_invariant(p);
        crate::history::lemma_replay_range(p.config, p.actions);
        assert(v.actions.last() == v.actions[v.actions.len() - 1]);
    }
}

/// Along legal play without folds, the player to act never has fewer chips than the other, so
/// what calling costs is always defined, and every legal next action other than a fold can be
/// paid.
pub proof fn law_legal_play_keeps_call_defined(v: HistoryView, a: Action)
    requires
        v.valid(),
        legal_seq(v.config, v.actions),
        no_fold(v.actions),
    ensures
        v.to_call_defined(),
        v.to_call() >= 0,
        v.is_legal(a) && a.action != ActionType::Fold ==> a.amount <= v.max_bet(),
{
    lemma_play_invariant(v);
    crate::history::lemma_replay_range(v.config, v.actions);
}

/// Inserting a bet keeps bets in strictly increasing amounts, and adds exactly that bet.
proof fn lemma_insert_bet(s: Seq<Action>, a: Action)
    requires
        increasing_bets(s),
        a.action == ActionType::Bet,
    ensures
        increasing_bets(insert_bet(s, a)),
        forall|x: Action| #[trigger] insert_bet(s, a).contains(x) <==> s.contains(x) || x == a,
    decreases s.len(),
{
    let r = insert_bet(s, a);
    if s.len() == 0 {
        assert(r[0] == a);
    } else if s[0].amount == a.amount {
        assert(s[0] == a);
    } else if a.amount < s[0].amount {
        assert forall|x: Action| #[trigger] r.contains(x) <==> s.contains(x) || x == a by {
            if r.contains(x) {
                let k = choose|k: int| 0 <= k < r.len() && r[k] == x;
                if k > 0 { assert(s[k - 1] == x); }
            }
            if s.contains(x) {
                let k = choose|k: int| 0 <= k < s.len() && s[k] == x;
                assert(r[k + 1] == x);
            }
            if x == a { assert(r[0] == a); }
        }
    } else {
        let s1 = s.drop_first();
        assert(increasing_bets(s1)) by {
            assert forall|i: int, j: int| 0 <= i < j < s1.len() implies s1[i].amount < s1[j].amount by {
                assert(s1[i] == s[i + 1] && s1[j] == s[j + 1]);
            }
            assert forall|i: int| 0 <= i < s1.len() implies (#[trigger] s1[i]).action == ActionType::Bet by {
                assert(s1[i] == s[i + 1]);
            }
        }
        lemma_insert_bet(s1, a);
        let t = insert_bet(s1, a);
        assert(r == seq![s[0]] + t);
        assert forall|k: int| 0 <= k < t.len() implies s[0].amount < (#[trigger] t[k]).amount by {
            assert(t.contains(t[k]));
            if t[k] != a {
                assert(s1.contains(t[k]));
                let m = choose|m: int| 0 <= m < s1.len() && s1[m] == t[k];
                assert(s[m + 1] == t[k]);
            }
        }
        assert forall|i: int, j: int| 0 <= i < j < r.len() implies r[i].amount < r[j].amount by {
            if i == 0 {
                assert(r[j] == t[j - 1]);
            } else {
                assert(r[i] == t[i - 1] && r[j] == t[j - 1]);
            }
        }
        assert forall|i: int| 0 <= i < r.len() implies (#[trigger] r[i]).action == ActionType::Bet by {
            if i > 0 { assert(r[i] == t[i - 1]); }
        }
        assert forall|x: Action| #[trigger] r.contains(x) <==> s.contains(x) || x == a by {
            if r.contains(x) {
                let k = choose|k: int| 0 <= k < r.len() && r[k] == x;
                if k > 0 {
                    assert(t[k - 1] == x);
                    assert(t.contains(x));
                    if x != a {
                        let m = choose|m: int| 0 <= m < s1.len() && s1[m] == x;
                        assert(s[m + 1] == x);
                    }
                }
            }
            if s.contains(x) {
                let k = choose|k: int| 0 <= k < s.len() && s[k] == x;
                if k > 0 {
                    assert(s1[k - 1] == x);
                    assert(s1.contains(x));
                    assert(t.contains(x));
                    let m = choose|m: int| 0 <= m < t.len() && t[m] == x;
                    assert(r[m + 1] == x);
                } else {
                    assert(r[0] == x);
                }
            }
            if x == a {
                assert(t.contains(a));
                let m = choose|m: int| 0 <= m < t.len() && t[m] == a;
                assert(r[m + 1] == a);
            }
        }
    }
}

/// The candidate bets of a row of bet sizes are bets of strictly increasing amounts.
proof fn lemma_bet_candidates_distinct_bets(row: Seq<BetSize>, pot: int, stack: int)
    ensures
        increasing_bets(bet_candidates(row, pot, stack)),
        forall|i: int, j: int| 0 <= i < j < bet_candidates(row, pot, stack).len() ==>
            bet_candidates(row, pot, stack)[i] != bet_candidates(row, pot, stack)[j],
        forall|i: int| 0 <= i < bet_candidates(row, pot, stack).len() ==>
            (#[trigger] bet_candidates(row, pot, stack)[i]).action == ActionType::Bet,
    decreases row.len(),
{
    if row.len() > 0 {
        lemma_bet_candidates_distinct_bets(row.drop_last(), pot, stack);
        let prev = bet_candidates(row.drop_last(), pot, stack);
        lemma_insert_bet(prev, Action { action: ActionType::Bet, amount: bet_amount(row.last(), pot, stack) as u16 });
    }
    let b = bet_candidates(row, pot, stack);
    assert forall|i: int, j: int| 0 <= i < j < b.len() implies b[i] != b[j] by {
        assert(b[i].amount < b[j].amount);
    }
}

proof fn lemma_keep_legal_sub(h: HistoryView, cands: Seq<Action>)
    requires
        forall|i: int, j: int| 0 <= i < j < cands.len() ==> cands[i] != cands[j],
    ensures
        forall|i: int, j: int| 0 <= i < j < keep_legal(h, cands).len() ==>
            keep_legal(h, cands)[i] != keep_legal(h, cands)[j],
        forall|i: int| 0 <= i < keep_legal(h, cands).len() ==> h.is_legal(#[trigger] keep_legal(h, cands)[i]),
        forall|x: Action| keep_legal(h, cands).contains(x) <==> cands.contains(x) && h.is_legal(x),
        cands.len() > 0 && h.is_legal(cands.last()) ==> keep_legal(h, cands).last() == cands.last(),
    decreases cands.len(),
{
    if cands.len() > 0 {
        let prev = cands.drop_last();
        lemma_keep_legal_sub(h, prev);
        let kp = keep_legal(h, prev);
        assert forall|x: Action| keep_legal(h, cands).contains(x) <==> cands.contains(x) && h.is_legal(x) by {
            if cands.contains(x) && h.is_legal(x) {
                let k = choose|k: int| 0 <= k < cands.len() && cands[k] == x;
                if k < cands.len() - 1 {
                    assert(prev[k] == x);
                    assert(kp.contains(x));
                    let m = choose|m: int| 0 <= m < kp.len() && kp[m] == x;
                    if h.is_legal(cands.last()) {
                        assert(kp.push(cands.last())[m] == x);
                    }
                } else {
                    assert(keep_legal(h, cands)[keep_legal(h, cands).len() - 1] == x);
                }
            }
            if keep_legal(h, cands).contains(x) {
                let m = choose|m: int| 0 <= m < keep_legal(h, cands).len() && keep_legal(h, cands)[m] == x;
                if m < kp.len() {
                    assert(kp[m] == x);
                    assert(kp.contains(x));
                    let k = choose|k: int| 0 <= k < prev.len() && prev[k] == x;
                    assert(cands[k] == x);
                } else {
                    assert(cands[cands.len() - 1] == x);
                }
            }
        }
        if h.is_legal(cands.last()) {
            assert forall|i: int| 0 <= i < kp.len() implies kp[i] != cands.last() by {
                assert(kp.contains(kp[i]));
                let k = choose|k: int| 0 <= k < prev.len() && prev[k] == kp[i];
                assert(cands[k] == prev[k]);
            }
        }
    }
}

/// The next actions are legal and distinct; when the hand is not over, the call is among them,
/// and the last of them is the fold when there is something to call, else the call (the check).
pub proof fn law_next_actions(v: HistoryView, abs: Seq<Vec<BetSize>>)
    requires
        v.valid(),
    ensures
        forall|i: int| 0 <= i < v.next_actions(abs).len() ==> v.is_legal(#[trigger] v.next_actions(abs)[i]),
        forall|i: int, j: int| 0 <= i < j < v.next_actions(abs).len() ==>
            v.next_actions(abs)[i] != v.next_actions(abs)[j],
        !v.hand_over() && v.to_call() >= 0 ==> {
            let call = Action { action: ActionType::Call, amount: v.to_call() as u16 };
            &&& v.next_actions(abs).contains(call)
            &&& v.to_call() != 0 ==> v.next_actions(abs).last() == (Action { action: ActionType::Fold, amount: 0 })
            &&& v.to_call() == 0 ==> v.next_actions(abs).last() == call
        },
{
    if !v.hand_over() {
        crate::history::lemma_replay_range(v.config, v.actions);
        let st = v.state();
        let bets = bet_candidates(abs[st.street]@, v.pot(), stack_of(st, st.player));
        let call = Action { action: ActionType::Call, amount: v.to_call() as u16 };
        let fold = Action { action: ActionType::Fold, amount: 0 };
        let cands = bets.push(call).push(fold);
        lemma_bet_candidates_distinct_bets(abs[st.street]@, v.pot(), stack_of(st, st.player));
        assert forall|i: int, j: int| 0 <= i < j < cands.len() implies cands[i] != cands[j] by {
            if j < bets.len() {
                assert(cands[i] == bets[i] && cands[j] == bets[j]);
            } else if i < bets.len() {
                assert(cands[i] == bets[i]);
                assert(bets[i].action == ActionType::Bet);
            }
        }
        lemma_keep_legal_sub(v, cands);
        if v.to_call() >= 0 {
            assert(v.is_legal(call));
            assert(cands[cands.len() - 2] == call);
            assert(cands.contains(call));
            if v.to_call() == 0 {
                assert(!v.is_legal(fold));
                let c2 = bets.push(call);
                assert(cands.drop_last() == c2);
                lemma_keep_legal_sub(v, c2);
                assert forall|i: int, j: int| 0 <= i < j < c2.len() implies c2[i] != c2[j] by {
                    assert(c2[i] == cands[i] && c2[j] == cands[j]);
                }
            }
        }
    }
}

/// Keeping the legal actions of two sequences one after the other keeps those of each.
proof fn lemma_keep_legal_concat(h: HistoryView, x: Seq<Action>, y: Seq<Action>)
    ensures
        keep_legal(h, x + y) == keep_legal(h, x) + keep_legal(h, y),
    decreases y.len(),
{
    if y.len() == 0 {
        assert(x + y =~= x);
        assert(keep_legal(h, x) + keep_legal(h, y) =~= keep_legal(h, x));
    } else {
        lemma_keep_legal_concat(h, x, y.drop_last());
        assert((x + y).drop_last() =~= x + y.drop_last());
        assert((x + y).last() == y.last());
        if h.is_legal(y.last()) {
            assert(keep_legal(h, x) + keep_legal(h, y.drop_last()).push(y.last())
                =~= (keep_legal(h, x) + keep_legal(h, y.drop_last())).push(y.last()));
        }
    }
}

/// The legal bets among bets of strictly increasing amounts still increase strictly.
proof fn lemma_keep_legal_increasing(h: HistoryView, s: Seq<Action>)
    requires
        increasing_bets(s),
    ensures
        increasing_bets(keep_legal(h, s)),
        forall|x: Action| keep_legal(h, s).contains(x) ==> #[trigger] s.contains(x),
    decreases s.len(),
{
    if s.len() > 0 {
        let p = s.drop_last();
        assert(increasing_bets(p)) by {
            assert forall|i: int| 0 <= i < p.len() implies (#[trigger] p[i]).action == ActionType::Bet by {
                assert(p[i] == s[i]);
            }
            assert forall|i: int, j: int| 0 <= i < j < p.len() implies p[i].amount < p[j].amount by {
                assert(p[i] == s[i] && p[j] == s[j]);
            }
        }
        lemma_keep_legal_increasing(h, p);
        let kp = keep_legal(h, p);
        let l = s.last();
        assert(l == s[s.len() - 1]);
        assert forall|x: Action| keep_legal(h, s).contains(x) implies #[trigger] s.contains(x) by {
            let m = choose|m: int| 0 <= m < keep_legal(h, s).len() && keep_legal(h, s)[m] == x;
            if m < kp.len() {
                assert(kp[m] == x);
                assert(kp.contains(x));
                assert(p.contains(x));
                let i = choose|i: int| 0 <= i < p.len() && p[i] == x;
                assert(s[i] == x);
            } else {
                assert(x == l);
            }
        }
        if h.is_legal(l) {
            let r = kp.push(l);
            assert forall|i: int| 0 <= i < kp.len() implies (#[trigger] kp[i]).amount < l.amount by {
                assert(kp.contains(kp[i]));
                assert(p.contains(kp[i]));
                let j = choose|j: int| 0 <= j < p.len() && p[j] == kp[i];
                assert(s[j] == kp[i]);
            }
            assert forall|i: int, j: int| 0 <= i < j < r.len() implies r[i].amount < r[j].amount by {
                if j < kp.len() {
                    assert(r[i] == kp[i] && r[j] == kp[j]);
                } else {
                    assert(r[i] == kp[i]);
                }
            }
            assert forall|i: int| 0 <= i < r.len() implies (#[trigger] r[i]).action == ActionType::Bet by {
                if i < kp.len() { assert(r[i] == kp[i]); }
            }
        }
    }
}

/// The next actions of a hand that is not over come in order: the legal bets by strictly
/// increasing amount, then the call (the check when there is nothing to call), then the fold
/// when there is something to call.
pub proof fn law_next_actions_order(v: HistoryView, abs: Seq<Vec<BetSize>>)
    requires
        v.valid(),
        !v.hand_over(),
        v.to_call_defined(),
    ensures
        bets_call_fold(v.next_actions(abs), v),
{
    crate::history::lemma_replay_range(v.config, v.actions);
    let st = v.state();
    let bets = bet_candidates(abs[st.street]@, v.pot(), stack_of(st, st.player));
    let call = Action { action: ActionType::Call, amount: v.to_call() as u16 };
    let fold = Action { action: ActionType::Fold, amount: 0 };
    let tail = seq![call, fold];
    assert(bets.push(call).push(fold) =~= bets + tail);
    lemma_bet_candidates_distinct_bets(abs[st.street]@, v.pot(), stack_of(st, st.player));
    lemma_keep_legal_concat(v, bets, tail);
    lemma_keep_legal_increasing(v, bets);
    let kb = keep_legal(v, bets);
    assert(v.to_call() >= 0);
    assert(v.is_legal(call));
    assert(tail.drop_last() =~= seq![call]);
    assert(seq![call].drop_last() =~= Seq::<Action>::empty());
    assert(keep_legal(v, Seq::<Action>::empty()) == Seq::<Action>::empty());
    assert(seq![call].last() == call);
    assert(keep_legal(v, seq![call]) == keep_legal(v, Seq::<Action>::empty()).push(call));
    assert(keep_legal(v, seq![call]) =~= seq![call]);
    let res = v.next_actions(abs);
    assert(res == kb + keep_legal(v, tail));
    let k = kb.len() as int;
    assert(res.take(k) =~= kb);
    assert(tail.last() == fold);
    if v.to_call() != 0 {
        assert(v.is_legal(fold));
        assert(keep_legal(v, tail) == keep_legal(v, seq![call]).push(fold));
        assert(keep_legal(v, tail) =~= seq![call, fold]);
    } else {
        assert(!v.is_legal(fold));
        assert(keep_legal(v, tail) =~= seq![call]);
    }
    assert(res[k] == call);
    assert(increasing_bets(res.take(k)));
}

/// The smallest bet. Before the first action of the hand it is the big blind, and at the start
/// of a later street nothing. Once the current street has an action, a raise must be at least
/// twice the last action's amount: any bet below both that and all the chips of the player to
/// act is illegal, and the smallest bet is exactly twice the last amount, or all the chips when
/// that is more.
pub proof fn law_min_bet_doubles_last(v: HistoryView)
    ensures
        v.actions.len() == 0 ==> v.min_bet() == v.config.big_blind,
        v.actions.len() > 0 && v.state().street_len == 0 ==> v.min_bet() == 0,
        v.actions.len() > 0 && v.state().street_len > 0 ==> {
            let a = v.actions[v.actions.len() - 1].amount as int;
            let chips = stack_of(v.state(), v.state().player);
            &&& v.min_bet() == if 2 * a <= chips { 2 * a } else { chips }
            &&& forall|b: u16| #![trigger v.is_legal(Action { action: ActionType::Bet, amount: b })]
                b < 2 * a && b < chips ==> !v.is_legal(Action { action: ActionType::Bet, amount: b })
            &&& forall|b: u16| #![trigger v.is_legal(Action { action: ActionType::Bet, amount: b })]
                v.is_legal(Action { action: ActionType::Bet, amount: b }) ==> b >= 2 * a || b == chips
        },
{
}

} // verus!
