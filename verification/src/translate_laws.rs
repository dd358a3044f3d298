use vstd::prelude::*;
use crate::history::{
    Action, ActionType, BetSize, BettingState, GameConfig, HistoryView, legal_seq, replay, step,
    translate_action, translate_defined, translated_view, valid_seq, lemma_replay_range, bets_below,
    closest_log, stack_of,
};
use crate::history_laws::law_next_actions;

verus! {

/// Two betting states agree on everything that decides how betting goes on: the street, the
/// player to act, the actions on the street, whether the stacks are equal, and which stacks are
/// empty.
pub open spec fn same_course(a: BettingState, b: BettingState) -> bool {
    &&& a.street == b.street
    &&& a.player == b.player
    &&& a.street_len == b.street_len
    &&& (a.stack0 == a.stack1) == (b.stack0 == b.stack1)
    &&& (a.stack0 == 0) == (b.stack0 == 0)
    &&& (a.stack1 == 0) == (b.stack1 == 0)
}

/// The closest amount in log space is 0 or one of the candidates.
proof fn lemma_closest_log_member(v: Seq<u16>, n: int)
    ensures
        closest_log(v, n) == 0 || exists|i: int| 0 <= i < v.len() && v[i] as int == closest_log(v, n),
    decreases v.len(),
{
    if v.len() > 0 {
        let prev = closest_log(v.drop_last(), n);
        lemma_closest_log_member(v.drop_last(), n);
        if closest_log(v, n) != 0 {
            if closest_log(v, n) == prev {
                let i = choose|i: int| 0 <= i < v.drop_last().len() && v.drop_last()[i] as int == prev;
                assert(v[i] == v.drop_last()[i]);
            } else {
                assert(v[v.len() - 1] as int == closest_log(v, n));
            }
        }
    }
}

/// Each amount of `bets_below` is the amount of a bet among the actions, other than `m`.
proof fn lemma_bets_below_member(acts: Seq<Action>, m: int, i: int)
    requires
        0 <= i < bets_below(acts, m).len(),
    ensures
        exists|j: int| 0 <= j < acts.len() && (#[trigger] acts[j]).action == ActionType::Bet
            && acts[j].amount == bets_below(acts, m)[i] && acts[j].amount != m,
    decreases acts.len(),
{
    let prev = bets_below(acts.drop_last(), m);
    if i < prev.len() {
        lemma_bets_below_member(acts.drop_last(), m, i);
        let j = choose|j: int| 0 <= j < acts.drop_last().len() && (#[trigger] acts.drop_last()[j]).action == ActionType::Bet
            && acts.drop_last()[j].amount == prev[i] && acts.drop_last()[j].amount != m;
        assert(acts[j] == acts.drop_last()[j]);
    } else {
        assert(acts[acts.len() - 1] == acts.last());
    }
}

/// On the same course, a bet that is not all in is translated into a bet below the all-in,
/// when the big blind is positive.
proof fn lemma_bet_stays_below_all_in(un: HistoryView, tr: HistoryView, a: Action, abs: Seq<Vec<BetSize>>)
    requires
        un.valid(),
        tr.valid(),
        tr.config.big_blind > 0,
        same_course(un.state(), tr.state()),
        un.is_legal(a),
        a.action == ActionType::Bet,
        a.amount != un.max_bet(),
        tr.next_actions_defined(abs),
        bets_below(tr.next_actions(abs), tr.max_bet()).len() == 0 ==> tr.max_bet() >= tr.config.big_blind,
    ensures
        translate_action(tr, un, a, abs).amount < tr.max_bet(),
{
    lemma_replay_range(un.config, un.actions);
    lemma_replay_range(tr.config, tr.actions);
    let us = un.state();
    let ts = tr.state();
    assert(stack_of(us, us.player) != 0);
    assert(stack_of(ts, ts.player) != 0);
    let below = bets_below(tr.next_actions(abs), tr.max_bet());
    let cands = if below.len() == 0 { seq![(tr.max_bet() - tr.config.big_blind) as u16] } else { below };
    let x = closest_log(cands, a.amount as int);
    lemma_closest_log_member(cands, a.amount as int);
    if x != 0 {
        let i = choose|i: int| 0 <= i < cands.len() && cands[i] as int == x;
        if below.len() > 0 {
            lemma_bets_below_member(tr.next_actions(abs), tr.max_bet(), i);
            let j = choose|j: int| 0 <= j < tr.next_actions(abs).len()
                && (#[trigger] tr.next_actions(abs)[j]).action == ActionType::Bet
                && tr.next_actions(abs)[j].amount == below[i] && tr.next_actions(abs)[j].amount != tr.max_bet();
            law_next_actions(tr, abs);
            assert(tr.is_legal(tr.next_actions(abs)[j]));
        }
    }
    assert(translate_action(tr, un, a, abs).amount == x as u16);
}

/// The translated history of a sequence that `translate` can translate is a valid sequence.
proof fn lemma_translated_valid(cfg: GameConfig, acts: Seq<Action>, abs: Seq<Vec<BetSize>>)
    requires
        translate_defined(cfg, acts, abs),
    ensures
        translated_view(cfg, acts, abs).config == cfg,
        translated_view(cfg, acts, abs).actions.len() == acts.len(),
        valid_seq(cfg, translated_view(cfg, acts, abs).actions),
    decreases acts.len(),
{
    if acts.len() > 0 {
        lemma_translated_valid(cfg, acts.drop_last(), abs);
        let tr = translated_view(cfg, acts.drop_last(), abs);
        let un = HistoryView { config: cfg, actions: acts.drop_last() };
        let ta = translate_action(tr, un, acts.last(), abs);
        assert(translated_view(cfg, acts, abs).actions.drop_last() =~= tr.actions);
        assert(translated_view(cfg, acts, abs).actions.last() == ta);
    }
}

/// One step keeps two histories on the same course when each action is translated as
/// `translate` does it and the bets that are not all in stay legal bets below the all-in.
proof fn lemma_step_same_course(un: HistoryView, tr: HistoryView, a: Action, ta: Action)
    requires
        un.valid(),
        tr.valid(),
        un.config == tr.config,
        un.actions.len() == tr.actions.len(),
        same_course(un.state(), tr.state()),
        un.is_legal(a),
        a.action == ActionType::Fold ==> a.amount == 0,
        a.action == ActionType::Fold ==> ta == (Action { action: ActionType::Fold, amount: 0 }),
        a.action == ActionType::Call ==> ta.action == ActionType::Call && ta.amount == tr.to_call(),
        a.action == ActionType::Bet && a.amount == un.max_bet() ==>
            ta.action == ActionType::Bet && ta.amount == tr.max_bet(),
        a.action == ActionType::Bet && a.amount != un.max_bet() ==>
            ta.action == ActionType::Bet && tr.is_legal(ta) && ta.amount < tr.max_bet(),
    ensures
        same_course(step(un.state(), a), step(tr.state(), ta)),
{
    lemma_replay_range(un.config, un.actions);
    lemma_replay_range(tr.config, tr.actions);
    let s = un.state();
    let t = tr.state();
    let p = s.player;
    if un.actions.len() == 0 {
        assert(tr.actions.len() == 0);
        assert(s == t);
    }
    // What the player to act has left, and whether the stacks end equal, decide the course.
    let sp = crate::history::stack_of(s, p);
    let so = crate::history::stack_of(s, 1 - p);
    let tp = crate::history::stack_of(t, p);
    let to = crate::history::stack_of(t, 1 - p);
    assert((sp == so) == (tp == to));
    assert((so == 0) == (to == 0));
    assert((sp == 0) == (tp == 0));
    let sp2 = sp - a.amount;
    let tp2 = tp - ta.amount;
    if a.action == ActionType::Fold {
        assert((sp2 == so) == (tp2 == to));
        assert((sp2 == 0) == (tp2 == 0));
    } else if a.action == ActionType::Call {
        if un.actions.len() == 0 {
            assert(ta.amount == a.amount);
            assert((sp2 == so) == (tp2 == to));
            assert((sp2 == 0) == (tp2 == 0));
        } else {
            assert(a.amount == sp - so);
            assert(ta.amount == tp - to);
            assert((sp2 == so) == (tp2 == to));
            assert((sp2 == 0) == (tp2 == 0));
        }
    } else if a.amount == un.max_bet() {
        assert(sp2 == 0 && tp2 == 0);
        assert((sp2 == so) == (tp2 == to));
    } else {
        assert(a.amount < sp);
        assert(ta.amount < tp);
        if un.actions.len() == 0 {
            assert(sp == so);
            assert(a.amount > 0);
            assert(ta.amount > 0);
            assert((sp2 == so) == (tp2 == to));
        } else {
            assert(a.amount != sp - so);
            assert(ta.amount != tp - to);
            assert((sp2 == so) == (tp2 == to));
        }
        assert((sp2 == 0) == (tp2 == 0));
    }
}

/// Translating a legal history keeps it on the same course: the translated history is on the
/// same street, with the same player to act and as many actions on the street, as long as every
/// fold puts no chips in and the big blind is positive (a bet that is not all in is then
/// translated into a bet below the all-in; translated actions are legal whenever `translate` can
/// translate).
pub proof fn law_translate_keeps_street(cfg: GameConfig, acts: Seq<Action>, abs: Seq<Vec<BetSize>>)
    requires
        cfg.valid(),
        valid_seq(cfg, acts),
        legal_seq(cfg, acts),
        forall|i: int| 0 <= i < acts.len() && (#[trigger] acts[i]).action == ActionType::Fold ==> acts[i].amount == 0,
        translate_defined(cfg, acts, abs),
        cfg.big_blind > 0,
    ensures
        same_course(replay(cfg, acts), translated_view(cfg, acts, abs).state()),
        translated_view(cfg, acts, abs).state().street == replay(cfg, acts).street,
    decreases acts.len(),
{
    lemma_translated_valid(cfg, acts, abs);
    if acts.len() > 0 {
        let prev = acts.drop_last();
        law_translate_keeps_street(cfg, prev, abs);
        lemma_translated_valid(cfg, prev, abs);
        let tr = translated_view(cfg, prev, abs);
        let un = HistoryView { config: cfg, actions: prev };
        let a = acts.last();
        let ta = translate_action(tr, un, a, abs);
        assert(a == acts[acts.len() - 1]);
        assert forall|i: int| 0 <= i < prev.len() && (#[trigger] prev[i]).action == ActionType::Fold implies prev[i].amount == 0 by {
            assert(prev[i] == acts[i]);
        }
        assert(un.valid());
        assert(tr.valid());
        lemma_replay_range(tr.config, tr.actions);
        assert(acts.drop_last() == prev);
        if a.action == ActionType::Bet && a.amount != un.max_bet() {
            crate::history::lemma_legal_prefix(cfg, acts, acts.len() - 1);
            assert(acts.take(acts.len() - 1) =~= prev);
            lemma_bet_stays_below_all_in(un, tr, a, abs);
        }
        assert(translated_view(cfg, acts, abs) == tr.push(ta));
        assert(tr.push(ta).actions.drop_last() =~= tr.actions);
        lemma_step_same_course(un, tr, a, ta);
    }
}

} // verus!
