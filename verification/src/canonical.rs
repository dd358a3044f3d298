use std::collections::HashSet;
use vstd::prelude::*;
use std::ops::Deref;
use crate::card::{Card, deck, deck_card};
use crate::card::{cards_text, is_cards_text, parse_cards_text, valid_cards_text};
use crate::hand::{cards2hand, card_codes, encodes, hand_cards, law_cards_roundtrip, lemma_encodes_unique, str2hand};
use crate::iso::{has_rank, isomorphic_hand, isomorphic_representation};

verus! {

broadcast use vstd::std_specs::hash::group_hash_axioms;

/// Every card is a card of the standard deck.
pub open spec fn all_valid(cards: Seq<Card>) -> bool {
    forall|i: int| 0 <= i < cards.len() ==> (#[trigger] cards[i]).valid()
}

/// `t` picks cards of `s`, keeping their order.
pub open spec fn is_combo(s: Seq<Card>, t: Seq<Card>) -> bool
    decreases s.len(),
{
    if t.len() == 0 {
        true
    } else if s.len() == 0 {
        false
    } else {
        is_combo(s.drop_first(), t) || (t[0] == s[0] && is_combo(s.drop_first(), t.drop_first()))
    }
}

/// `x` is the compact hand of the isomorphic representation of the cards `h`
/// (see `isomorphic_hand`).
pub open spec fn iso_code(x: u64, h: Seq<Card>, streets: bool) -> bool {
    encodes(x, card_codes(isomorphic_representation(h, streets)))
}

/// `x` is the code of `prefix + t` for some pick `t` of `k` cards of `s`.
pub open spec fn picked_code(x: u64, s: Seq<Card>, k: nat, prefix: Seq<Card>, streets: bool) -> bool {
    exists|t: Seq<Card>| t.len() == k && #[trigger] is_combo(s, t) && iso_code(x, prefix + t, streets)
}

/// The set holds a code of the cards `h`.
pub open spec fn covered(out: Set<u64>, h: Seq<Card>, streets: bool) -> bool {
    exists|x: u64| #[trigger] out.contains(x) && iso_code(x, h, streets)
}

/// The cards of `s` that are not in `p`, in order.
pub open spec fn without(s: Seq<Card>, p: Seq<Card>) -> Seq<Card>
    decreases s.len(),
{
    if s.len() == 0 {
        s
    } else {
        let r = without(s.drop_last(), p);
        if p.contains(s.last()) { r } else { r.push(s.last()) }
    }
}

/// The full deck, as `deck` returns it.
pub open spec fn full_deck() -> Seq<Card> {
    Seq::new(52, |i: int| deck_card(i))
}

/// `h` is a hand of `n` cards dealt from the deck: when the streets are kept, two hole cards
/// picked from the deck followed by `n - 2` board cards picked from the rest of the deck;
/// otherwise `n` cards picked from the deck. Cards are picked in deck order.
pub open spec fn dealt_hand(n: nat, streets: bool, h: Seq<Card>) -> bool {
    if streets {
        &&& h.len() == n
        &&& is_combo(full_deck(), h.take(2))
        &&& is_combo(without(full_deck(), h.take(2)), h.skip(2))
    } else {
        h.len() == n && is_combo(full_deck(), h)
    }
}

/// The set holds a code of `h + b` for every pick `b` of `n_board` cards of the deck left
/// after taking out the cards of `h`.
pub open spec fn covers_boards(out: Set<u64>, deck: Seq<Card>, h: Seq<Card>, n_board: nat) -> bool {
    forall|b: Seq<Card>| b.len() == n_board && #[trigger] is_combo(without(deck, h), b) ==>
        covered(out, h + b, true)
}

/// `x` is the code of `prefix + t + b` for some pick `t` of `k` cards of `s` and some pick `b`
/// of `n_board` cards of the deck left after taking out the cards of `prefix + t`.
pub open spec fn dealt_code(x: u64, s: Seq<Card>, k: nat, prefix: Seq<Card>, deck: Seq<Card>, n_board: nat) -> bool {
    exists|t: Seq<Card>| t.len() == k && #[trigger] is_combo(s, t)
        && picked_code(x, without(deck, prefix + t), n_board, prefix + t, true)
}

/// The cards that are left keep the order and the validity of the cards of `s`.
pub(crate) proof fn lemma_without_valid(s: Seq<Card>, p: Seq<Card>)
    requires
        all_valid(s),
    ensures
        all_valid(without(s, p)),
    decreases s.len(),
{
    if s.len() > 0 {
        let r = without(s.drop_last(), p);
        assert(all_valid(s.drop_last())) by {
            assert forall|i: int| 0 <= i < s.drop_last().len() implies (#[trigger] s.drop_last()[i]).valid() by {
                assert(s.drop_last()[i] == s[i]);
            }
        }
        lemma_without_valid(s.drop_last(), p);
        assert(s.last() == s[s.len() - 1]);
        if !p.contains(s.last()) {
            assert forall|i: int| 0 <= i < r.push(s.last()).len() implies (#[trigger] r.push(s.last())[i]).valid() by {
                if i < r.len() {
                    assert(r.push(s.last())[i] == r[i]);
                }
            }
        }
    }
}

/// More codes in the set still cover the same boards.
proof fn lemma_covers_mono(o1: Set<u64>, o2: Set<u64>, deck: Seq<Card>, h: Seq<Card>, n_board: nat)
    requires
        covers_boards(o1, deck, h, n_board),
        forall|x: u64| o1.contains(x) ==> #[trigger] o2.contains(x),
    ensures
        covers_boards(o2, deck, h, n_board),
{
    assert forall|b: Seq<Card>| b.len() == n_board && #[trigger] is_combo(without(deck, h), b) implies
        covered(o2, h + b, true) by {
        let x = choose|x: u64| #[trigger] o1.contains(x) && iso_code(x, h + b, true);
        assert(o2.contains(x));
    }
}

/// Whether the card is one of the cards.
fn contains_card(cards: &Vec<Card>, c: Card) -> (res: bool)
    ensures
        res == cards@.contains(c),
{
    for i in 0..cards.len()
        invariant
            forall|j: int| 0 <= j < i ==> cards@[j] != c,
    {
        if cards[i] == c {
            return true;
        }
    }
    false
}

/// The cards of `s` that are not in `p`, in order.
pub(crate) fn remove_cards(s: &Vec<Card>, p: &Vec<Card>) -> (res: Vec<Card>)
    ensures
        res@ == without(s@, p@),
{
    let mut res: Vec<Card> = Vec::new();
    for i in 0..s.len()
        invariant
            res@ == without(s@.take(i as int), p@),
    {
        proof {
            assert(s@.take(i + 1).drop_last() =~= s@.take(i as int));
            assert(s@.take(i + 1).last() == s@[i as int]);
        }
        if !contains_card(p, s[i]) {
            res.push(s[i]);
        }
    }
    proof { assert(s@.take(s@.len() as int) =~= s@); }
    res
}

/// A pick of no cards is always possible.
proof fn lemma_combo_empty(s: Seq<Card>)
    ensures
        is_combo(s, Seq::<Card>::empty()),
{
}

/// Nothing but the empty pick comes from no cards.
proof fn lemma_combo_of_empty(s: Seq<Card>, t: Seq<Card>)
    requires
        s.len() == 0,
        t.len() > 0,
    ensures
        !is_combo(s, t),
{
}

/// Adds the code of `prefix + t` to `out` for every pick `t` of `k` cards of `pool[start..]`.
fn insert_picks(
    pool: &Vec<Card>,
    start: usize,
    k: usize,
    prefix: &mut Vec<Card>,
    streets: bool,
    out: &mut HashSet<u64>,
)
    requires
        start <= pool@.len(),
        old(prefix)@.len() + k <= 7,
        all_valid(pool@),
        all_valid(old(prefix)@),
    ensures
        final(prefix)@ == old(prefix)@,
        forall|x: u64| old(out)@.contains(x) ==> #[trigger] final(out)@.contains(x),
        forall|x: u64| #[trigger] final(out)@.contains(x) ==>
            old(out)@.contains(x) || picked_code(x, pool@.skip(start as int), k as nat, old(prefix)@, streets),
        forall|t: Seq<Card>| t.len() == k && #[trigger] is_combo(pool@.skip(start as int), t) ==>
            covered(final(out)@, old(prefix)@ + t, streets),
    decreases pool@.len() - start, k,
{
    let ghost p0 = prefix@;
    let ghost o0 = out@;
    let ghost s = pool@.skip(start as int);
    if k == 0 {
        let iso_hand = isomorphic_hand(prefix.as_slice(), streets);
        let iso: &[Card] = iso_hand.deref();
        proof {
            assert forall|i: int| 0 <= i < iso@.len() implies 15 * (#[trigger] iso@[i]).suit + iso@[i].rank <= 255 by {
                assert(has_rank(p0, iso@[i].rank));
                let j = choose|j: int| 0 <= j < p0.len() && p0[j].rank == iso@[i].rank;
                assert(p0[j].valid());
            }
        }
        let code = cards2hand(iso);
        out.insert(code);
        proof {
            assert(iso_code(code, p0, streets));
            let e = Seq::<Card>::empty();
            assert(p0 + e =~= p0);
            lemma_combo_empty(s);
            assert(picked_code(code, s, 0, p0, streets)) by {
                assert(is_combo(s, e));
            }
            assert forall|t: Seq<Card>| t.len() == k && #[trigger] is_combo(s, t) implies covered(out@, p0 + t, streets) by {
                assert(t =~= e);
                assert(out@.contains(code));
            }
        }
        return;
    }
    if start == pool.len() {
        proof {
            assert(s.len() == 0);
            assert forall|t: Seq<Card>| t.len() == k && #[trigger] is_combo(s, t) implies covered(out@, p0 + t, streets) by {
                lemma_combo_of_empty(s, t);
            }
        }
        return;
    }
    let c = pool[start];
    let ghost s1 = pool@.skip(start + 1);
    proof {
        assert(s.drop_first() =~= s1);
        assert(s[0] == c);
    }
    prefix.push(c);
    let ghost p1 = prefix@;
    proof {
        assert(p1 == p0.push(c));
        assert(all_valid(p1)) by {
            assert forall|i: int| 0 <= i < p1.len() implies (#[trigger] p1[i]).valid() by {
                if i < p0.len() {
                    assert(p1[i] == p0[i]);
                }
            }
        }
    }
    insert_picks(pool, start + 1, k - 1, prefix, streets, out);
    let ghost o1 = out@;
    prefix.pop();
    proof { assert(prefix@ =~= p0); }
    insert_picks(pool, start + 1, k, prefix, streets, out);
    proof {
        let o2 = out@;
        assert forall|x: u64| #[trigger] o2.contains(x) implies
            o0.contains(x) || picked_code(x, s, k as nat, p0, streets) by {
            if !o1.contains(x) {
                if picked_code(x, s1, k as nat, p0, streets) {
                    let t = choose|t: Seq<Card>| t.len() == k && #[trigger] is_combo(s1, t) && iso_code(x, p0 + t, streets);
                    assert(is_combo(s, t));
                }
            } else if !o0.contains(x) {
                assert(picked_code(x, s1, (k - 1) as nat, p1, streets));
                let t1 = choose|t: Seq<Card>| t.len() == k - 1 && #[trigger] is_combo(s1, t) && iso_code(x, p1 + t, streets);
                let t = seq![c] + t1;
                assert(t.drop_first() =~= t1);
                assert(t[0] == c);
                assert(is_combo(s, t));
                assert(p0 + t =~= p1 + t1);
            }
        }
        assert forall|t: Seq<Card>| t.len() == k && #[trigger] is_combo(s, t) implies covered(o2, p0 + t, streets) by {
            if is_combo(s1, t) {
            } else {
                assert(t[0] == c && is_combo(s1, t.drop_first()));
                assert(covered(o1, p1 + t.drop_first(), streets));
                assert(p1 + t.drop_first() =~= p0 + t);
                let x = choose|x: u64| #[trigger] o1.contains(x) && iso_code(x, p1 + t.drop_first(), streets);
                assert(o2.contains(x));
            }
        }
    }
}

/// Adds to `out`, for every pick `t` of `k` cards of `deck[start..]`, the code of
/// `prefix + t + b` for every pick `b` of `n_board` cards of the deck left after taking out the
/// cards of `prefix + t`, the first two cards being the hole cards.
fn insert_deals(
    deck: &Vec<Card>,
    start: usize,
    k: usize,
    prefix: &mut Vec<Card>,
    n_board: usize,
    out: &mut HashSet<u64>,
)
    requires
        start <= deck@.len(),
        old(prefix)@.len() + k + n_board <= 7,
        all_valid(deck@),
        all_valid(old(prefix)@),
    ensures
        final(prefix)@ == old(prefix)@,
        forall|x: u64| old(out)@.contains(x) ==> #[trigger] final(out)@.contains(x),
        forall|x: u64| #[trigger] final(out)@.contains(x) ==>
            old(out)@.contains(x)
            || dealt_code(x, deck@.skip(start as int), k as nat, old(prefix)@, deck@, n_board as nat),
        forall|t: Seq<Card>| t.len() == k && #[trigger] is_combo(deck@.skip(start as int), t) ==>
            covers_boards(final(out)@, deck@, old(prefix)@ + t, n_board as nat),
    decreases deck@.len() - start, k,
{
    let ghost p0 = prefix@;
    let ghost o0 = out@;
    let ghost s = deck@.skip(start as int);
    let ghost e = Seq::<Card>::empty();
    if k == 0 {
        let rest = remove_cards(deck, prefix);
        proof {
            lemma_without_valid(deck@, p0);
            assert(rest@.skip(0) =~= rest@);
        }
        insert_picks(&rest, 0, n_board, prefix, true, out);
        proof {
            assert(p0 + e =~= p0);
            lemma_combo_empty(s);
            assert forall|x: u64| #[trigger] out@.contains(x) implies
                o0.contains(x) || dealt_code(x, s, 0, p0, deck@, n_board as nat) by {
                if !o0.contains(x) {
                    assert(is_combo(s, e));
                }
            }
            assert forall|t: Seq<Card>| t.len() == k && #[trigger] is_combo(s, t) implies
                covers_boards(out@, deck@, p0 + t, n_board as nat) by {
                assert(t =~= e);
            }
        }
        return;
    }
    if start == deck.len() {
        proof {
            assert(s.len() == 0);
            assert forall|t: Seq<Card>| t.len() == k && #[trigger] is_combo(s, t) implies
                covers_boards(out@, deck@, p0 + t, n_board as nat) by {
                lemma_combo_of_empty(s, t);
            }
        }
        return;
    }
    let c = deck[start];
    let ghost s1 = deck@.skip(start + 1);
    proof {
        assert(s.drop_first() =~= s1);
        assert(s[0] == c);
    }
    prefix.push(c);
    let ghost p1 = prefix@;
    proof {
        assert(p1 == p0.push(c));
        assert(all_valid(p1)) by {
            assert forall|i: int| 0 <= i < p1.len() implies (#[trigger] p1[i]).valid() by {
                if i < p0.len() {
                    assert(p1[i] == p0[i]);
                }
            }
        }
    }
    insert_deals(deck, start + 1, k - 1, prefix, n_board, out);
    let ghost o1 = out@;
    prefix.pop();
    proof { assert(prefix@ =~= p0); }
    insert_deals(deck, start + 1, k, prefix, n_board, out);
    proof {
        let o2 = out@;
        assert forall|x: u64| #[trigger] o2.contains(x) implies
            o0.contains(x) || dealt_code(x, s, k as nat, p0, deck@, n_board as nat) by {
            if !o1.contains(x) {
                if dealt_code(x, s1, k as nat, p0, deck@, n_board as nat) {
                    let t = choose|t: Seq<Card>| t.len() == k && #[trigger] is_combo(s1, t)
                        && picked_code(x, without(deck@, p0 + t), n_board as nat, p0 + t, true);
                    assert(is_combo(s, t));
                }
            } else if !o0.contains(x) {
                assert(dealt_code(x, s1, (k - 1) as nat, p1, deck@, n_board as nat));
                let t1 = choose|t: Seq<Card>| t.len() == k - 1 && #[trigger] is_combo(s1, t)
                    && picked_code(x, without(deck@, p1 + t), n_board as nat, p1 + t, true);
                let t = seq![c] + t1;
                assert(t.drop_first() =~= t1);
                assert(t[0] == c);
                assert(is_combo(s, t));
                assert(p0 + t =~= p1 + t1);
            }
        }
        assert forall|t: Seq<Card>| t.len() == k && #[trigger] is_combo(s, t) implies
            covers_boards(o2, deck@, p0 + t, n_board as nat) by {
            if is_combo(s1, t) {
            } else {
                assert(t[0] == c && is_combo(s1, t.drop_first()));
                assert(covers_boards(o1, deck@, p1 + t.drop_first(), n_board as nat));
                assert(p1 + t.drop_first() =~= p0 + t);
                lemma_covers_mono(o1, o2, deck@, p0 + t, n_board as nat);
            }
        }
    }
}

/// A code that `insert_deals` added, dealing from the full deck, is the code of a dealt hand.
proof fn lemma_deal_sound(x: u64, n: nat)
    requires
        n >= 2,
        dealt_code(x, full_deck(), 2, Seq::<Card>::empty(), full_deck(), (n - 2) as nat),
    ensures
        exists|h: Seq<Card>| #[trigger] dealt_hand(n, true, h) && iso_code(x, h, true),
{
    let d = full_deck();
    let e = Seq::<Card>::empty();
    let t = choose|t: Seq<Card>| t.len() == 2 && #[trigger] is_combo(d, t)
        && picked_code(x, without(d, e + t), (n - 2) as nat, e + t, true);
    assert(e + t =~= t);
    let b = choose|b: Seq<Card>| b.len() == n - 2 && #[trigger] is_combo(without(d, t), b)
        && iso_code(x, t + b, true);
    let h = t + b;
    assert(h.take(2) =~= t);
    assert(h.skip(2) =~= b);
    assert(dealt_hand(n, true, h));
}

/// A dealt hand is covered when every pick of hole cards has its boards covered.
proof fn lemma_deal_cover(out: Set<u64>, n: nat, h: Seq<Card>)
    requires
        n >= 2,
        dealt_hand(n, true, h),
        forall|t: Seq<Card>| t.len() == 2 && #[trigger] is_combo(full_deck(), t) ==>
            covers_boards(out, full_deck(), Seq::<Card>::empty() + t, (n - 2) as nat),
    ensures
        covered(out, h, true),
{
    let d = full_deck();
    let e = Seq::<Card>::empty();
    let t = h.take(2);
    let b = h.skip(2);
    assert(e + t =~= t);
    assert(covers_boards(out, d, e + t, (n - 2) as nat));
    assert(is_combo(without(d, t), b));
    assert(t + b =~= h);
}

/// What `insert_deals` leaves from an empty set, dealing all hands of the full deck, is what
/// `deal_isomorphic` promises when the streets are kept.
proof fn lemma_deals_result(out: Set<u64>, n: nat)
    requires
        n >= 2,
        forall|x: u64| #[trigger] out.contains(x) ==>
            Set::<u64>::empty().contains(x)
            || dealt_code(x, full_deck().skip(0), 2, Seq::<Card>::empty(), full_deck(), (n - 2) as nat),
        forall|t: Seq<Card>| t.len() == 2 && #[trigger] is_combo(full_deck().skip(0), t) ==>
            covers_boards(out, full_deck(), Seq::<Card>::empty() + t, (n - 2) as nat),
    ensures
        forall|x: u64| #[trigger] out.contains(x) ==>
            exists|h: Seq<Card>| #[trigger] dealt_hand(n, true, h) && iso_code(x, h, true),
        forall|h: Seq<Card>| #[trigger] dealt_hand(n, true, h) ==> covered(out, h, true),
{
    assert(full_deck().skip(0) =~= full_deck());
    assert forall|x: u64| #[trigger] out.contains(x) implies
        exists|h: Seq<Card>| #[trigger] dealt_hand(n, true, h) && iso_code(x, h, true) by {
        lemma_deal_sound(x, n);
    }
    assert forall|h: Seq<Card>| #[trigger] dealt_hand(n, true, h) implies covered(out, h, true) by {
        lemma_deal_cover(out, n, h);
    }
}

/// What `insert_picks` leaves from an empty set, picking hands from the full deck, is what
/// `deal_isomorphic` promises when the streets are not kept.
proof fn lemma_picks_result(out: Set<u64>, n: nat)
    requires
        forall|x: u64| #[trigger] out.contains(x) ==>
            Set::<u64>::empty().contains(x)
            || picked_code(x, full_deck().skip(0), n, Seq::<Card>::empty(), false),
        forall|t: Seq<Card>| t.len() == n && #[trigger] is_combo(full_deck().skip(0), t) ==>
            covered(out, Seq::<Card>::empty() + t, false),
    ensures
        forall|x: u64| #[trigger] out.contains(x) ==>
            exists|h: Seq<Card>| #[trigger] dealt_hand(n, false, h) && iso_code(x, h, false),
        forall|h: Seq<Card>| #[trigger] dealt_hand(n, false, h) ==> covered(out, h, false),
{
    let d = full_deck();
    let e = Seq::<Card>::empty();
    assert(d.skip(0) =~= d);
    assert forall|x: u64| #[trigger] out.contains(x) implies
        exists|h: Seq<Card>| #[trigger] dealt_hand(n, false, h) && iso_code(x, h, false) by {
        assert(picked_code(x, d, n, e, false));
        let t = choose|t: Seq<Card>| t.len() == n && #[trigger] is_combo(d, t) && iso_code(x, e + t, false);
        assert(e + t =~= t);
        assert(dealt_hand(n, false, t));
    }
    assert forall|h: Seq<Card>| #[trigger] dealt_hand(n, false, h) implies covered(out, h, false) by {
        assert(e + h =~= h);
        assert(is_combo(d, h));
    }
}

/// The compact hands of the isomorphic representations of every hand of `n_cards` cards (5
/// for the flop, 6 for the turn, 7 for the river) dealt from the deck: when `preserve_streets`
/// is true, two hole cards and then the board cards from the rest of the deck, kept apart in
/// the representation; otherwise any `n_cards` cards.
pub fn deal_isomorphic(n_cards: usize, preserve_streets: bool) -> (res: HashSet<u64>)
    requires
        5 <= n_cards <= 7,
    ensures
        forall|x: u64| #[trigger] res@.contains(x) ==>
            exists|h: Seq<Card>| #[trigger] dealt_hand(n_cards as nat, preserve_streets, h)
                && iso_code(x, h, preserve_streets),
        forall|h: Seq<Card>| #[trigger] dealt_hand(n_cards as nat, preserve_streets, h) ==>
            covered(res@, h, preserve_streets),
{
    let mut isomorphic: HashSet<u64> = HashSet::new();
    let deck = deck();
    let mut prefix: Vec<Card> = Vec::new();
    proof {
        assert(deck@ =~= full_deck());
        assert(all_valid(deck@)) by {
            assert forall|i: int| 0 <= i < deck@.len() implies (#[trigger] deck@[i]).valid() by {
                assert(deck@[i] == deck_card(i));
            }
        }
        assert(prefix@ =~= Seq::<Card>::empty());
        assert(isomorphic@ =~= Set::<u64>::empty());
    }
    if preserve_streets {
        insert_deals(&deck, 0, 2, &mut prefix, n_cards - 2, &mut isomorphic);
        proof { lemma_deals_result(isomorphic@, n_cards as nat); }
    } else {
        insert_picks(&deck, 0, n_cards, &mut prefix, false, &mut isomorphic);
        proof { lemma_picks_result(isomorphic@, n_cards as nat); }
    }
    isomorphic
}

/// Each saved line names the cards of a hand of at most eight cards.
pub open spec fn saved_lines_valid(lines: Seq<String>) -> bool {
    forall|i: int| 0 <= i < lines.len() ==>
        valid_cards_text((#[trigger] lines[i])@) && lines[i]@.len() <= 16
}

/// Whether each saved line names the cards of a hand of at most eight cards.
pub fn saved_lines_ok(lines: &[String]) -> (res: bool)
    ensures
        res == saved_lines_valid(lines@),
{
    for i in 0..lines.len()
        invariant
            forall|j: int| 0 <= j < i ==>
                valid_cards_text((#[trigger] lines@[j])@) && lines@[j]@.len() <= 16,
    {
        let line = lines[i].as_str();
        if !is_cards_text(line) || line.unicode_len() > 16 {
            assert(!saved_lines_valid(lines@)) by {
                assert(!(valid_cards_text(lines@[i as int]@) && lines@[i as int]@.len() <= 16));
            }
            return false;
        }
    }
    true
}

/// `x` is the compact hand of line `j`.
pub open spec fn line_code(lines: Seq<String>, j: int, x: u64) -> bool {
    encodes(x, card_codes(parse_cards_text(lines[j]@)))
}

/// `x` is the compact hand of one of the first `n` lines.
pub open spec fn saved_code(lines: Seq<String>, n: int, x: u64) -> bool {
    exists|j: int| 0 <= j < n && #[trigger] line_code(lines, j, x)
}

/// The set of isomorphic hands: the hands of the saved lines when there are any, else the codes
/// of every hand of `n` cards dealt with the streets kept (see `deal_isomorphic`).
pub open spec fn isomorphic_set(res: Set<u64>, n: nat, saved: Option<&[String]>) -> bool {
    match saved {
        Some(lines) => forall|x: u64| #[trigger] res.contains(x) <==> saved_code(lines@, lines@.len() as int, x),
        None => {
            &&& forall|x: u64| #[trigger] res.contains(x) ==>
                exists|h: Seq<Card>| #[trigger] dealt_hand(n, true, h) && iso_code(x, h, true)
            &&& forall|h: Seq<Card>| #[trigger] dealt_hand(n, true, h) ==> covered(res, h, true)
        },
    }
}

/// The compact hands of the lines.
fn read_hands(lines: &[String]) -> (res: HashSet<u64>)
    requires
        saved_lines_valid(lines@),
    ensures
        forall|x: u64| #[trigger] res@.contains(x) <==> saved_code(lines@, lines@.len() as int, x),
{
    let mut set: HashSet<u64> = HashSet::new();
    for i in 0..lines.len()
        invariant
            saved_lines_valid(lines@),
            forall|x: u64| #[trigger] set@.contains(x) <==> saved_code(lines@, i as int, x),
    {
        assert(valid_cards_text(lines@[i as int]@) && lines@[i as int]@.len() <= 16);
        let h = str2hand(lines[i].as_str());
        let ghost old_set = set@;
        set.insert(h);
        proof {
            assert(line_code(lines@, i as int, h));
            assert forall|x: u64| #[trigger] set@.contains(x) <==> saved_code(lines@, i + 1, x) by {
                if set@.contains(x) {
                    if x == h {
                        assert(line_code(lines@, i as int, x));
                    } else {
                        assert(old_set.contains(x));
                        let j = choose|j: int| 0 <= j < i && #[trigger] line_code(lines@, j, x);
                        assert(line_code(lines@, j, x));
                    }
                }
                if saved_code(lines@, i + 1, x) {
                    let j = choose|j: int| 0 <= j < i + 1 && #[trigger] line_code(lines@, j, x);
                    if j == i {
                        lemma_encodes_unique(x, h, card_codes(parse_cards_text(lines@[j]@)));
                    } else {
                        assert(saved_code(lines@, i as int, x));
                    }
                }
            }
        }
    }
    set
}

/// The isomorphic hands of `n_cards` cards: read from the saved lines when there are any, else
/// dealt (the caller may then save them).
fn load_isomorphic(n_cards: usize, saved: Option<&[String]>) -> (res: HashSet<u64>)
    requires
        5 <= n_cards <= 7,
        saved matches Some(lines) ==> saved_lines_valid(lines@),
    ensures
        isomorphic_set(res@, n_cards as nat, saved),
{
    match saved {
        Some(lines) => read_hands(lines),
        None => deal_isomorphic(n_cards, true),
    }
}

/// `x` is the compact hand of at most seven cards of the deck.
pub open spec fn holds_cards(x: u64) -> bool {
    exists|cards: Seq<Card>| cards.len() <= 7 && all_valid(cards) && #[trigger] encodes(x, card_codes(cards))
}

/// Writing a set of compact hands as lines of card names (`hand2str`, one line per hand) and
/// reading the lines back (`str2hand`) gives the same set.
pub proof fn law_saved_set_roundtrip(r: Set<u64>, lines: Seq<String>)
    requires
        forall|x: u64| #[trigger] r.contains(x) ==> holds_cards(x),
        forall|j: int| 0 <= j < lines.len() ==>
            exists|x: u64| #[trigger] r.contains(x) && (#[trigger] lines[j])@ == cards_text(hand_cards(x)),
        forall|x: u64| #[trigger] r.contains(x) ==>
            exists|j: int| 0 <= j < lines.len() && lines[j]@ == cards_text(hand_cards(x)),
    ensures
        saved_lines_valid(lines),
        forall|x: u64| saved_code(lines, lines.len() as int, x) <==> #[trigger] r.contains(x),
{
    assert forall|j: int| 0 <= j < lines.len() implies
        valid_cards_text((#[trigger] lines[j])@) && lines[j]@.len() <= 16
        && (forall|y: u64| #[trigger] line_code(lines, j, y) <==> r.contains(y) && lines[j]@ == cards_text(hand_cards(y))) by {
        assert(lines[j] == lines[j]);
        let x = choose|x: u64| #[trigger] r.contains(x) && lines[j]@ == cards_text(hand_cards(x));
        let cards = choose|cards: Seq<Card>| cards.len() <= 7 && all_valid(cards) && #[trigger] encodes(x, card_codes(cards));
        law_cards_roundtrip(x, cards);
        crate::strength::lemma_cards_text_parse(cards);
        assert forall|y: u64| #[trigger] line_code(lines, j, y) <==> r.contains(y) && lines[j]@ == cards_text(hand_cards(y)) by {
            if line_code(lines, j, y) {
                lemma_encodes_unique(x, y, card_codes(cards));
            }
            if r.contains(y) && lines[j]@ == cards_text(hand_cards(y)) {
                let cy = choose|c: Seq<Card>| c.len() <= 7 && all_valid(c) && #[trigger] encodes(y, card_codes(c));
                law_cards_roundtrip(y, cy);
                crate::strength::lemma_cards_text_parse(cy);
                assert(cy == cards);
            }
        }
    }
    assert forall|x: u64| saved_code(lines, lines.len() as int, x) <==> #[trigger] r.contains(x) by {
        if saved_code(lines, lines.len() as int, x) {
            let j = choose|j: int| 0 <= j < lines.len() && #[trigger] line_code(lines, j, x);
        }
        if r.contains(x) {
            let j = choose|j: int| 0 <= j < lines.len() && lines[j]@ == cards_text(hand_cards(x));
            assert(line_code(lines, j, x));
        }
    }
}

/// The isomorphic flop hands (two hole cards and three board cards): the hands of the saved
/// lines when there are any, else all of them, dealt.
pub fn load_flop_isomorphic(saved: Option<&[String]>) -> (res: HashSet<u64>)
    requires
        saved matches Some(lines) ==> saved_lines_valid(lines@),
    ensures
        isomorphic_set(res@, 5, saved),
{
    load_isomorphic(5, saved)
}

/// The isomorphic turn hands (two hole cards and four board cards): the hands of the saved
/// lines when there are any, else all of them, dealt.
pub fn load_turn_isomorphic(saved: Option<&[String]>) -> (res: HashSet<u64>)
    requires
        saved matches Some(lines) ==> saved_lines_valid(lines@),
    ensures
        isomorphic_set(res@, 6, saved),
{
    load_isomorphic(6, saved)
}

/// The isomorphic river hands (two hole cards and five board cards): the hands of the saved
/// lines when there are any, else all of them, dealt.
pub fn load_river_isomorphic(saved: Option<&[String]>) -> (res: HashSet<u64>)
    requires
        saved matches Some(lines) ==> saved_lines_valid(lines@),
    ensures
        isomorphic_set(res@, 7, saved),
{
    load_isomorphic(7, saved)
}

/// The pairs of cards `(d[i], d[j])` with `j` from `i + 1` up to `jmax`, in order, that share no
/// card with the board.
pub open spec fn pairs_with(d: Seq<Card>, board: Seq<Card>, i: int, jmax: int) -> Seq<(Card, Card)>
    decreases jmax - i,
{
    if jmax <= i + 1 {
        Seq::empty()
    } else {
        let p = pairs_with(d, board, i, jmax - 1);
        let j = jmax - 1;
        if !board.contains(d[i]) && !board.contains(d[j]) { p.push((d[i], d[j])) } else { p }
    }
}

/// The pairs of cards `(d[i], d[j])` with `i < j`, `i` below `imax`, in order of `i` and then of
/// `j`, that share no card with the board.
pub open spec fn pairs_upto(d: Seq<Card>, board: Seq<Card>, imax: int) -> Seq<(Card, Card)>
    decreases imax,
{
    if imax <= 0 {
        Seq::empty()
    } else {
        pairs_upto(d, board, imax - 1) + pairs_with(d, board, imax - 1, d.len() as int)
    }
}

/// Whether the card is one of the cards (a slice).
fn slice_contains(cards: &[Card], c: Card) -> (res: bool)
    ensures
        res == cards@.contains(c),
{
    for i in 0..cards.len()
        invariant
            forall|j: int| 0 <= j < i ==> cards@[j] != c,
    {
        if cards[i] == c {
            return true;
        }
    }
    false
}

/// Every two-card starting hand that shares no card with the board: the pairs of cards of the
/// deck, in deck order (the 1326 starting hands when the board is empty).
pub fn non_blocking_preflop_hands(board: &[Card]) -> (res: Vec<(Card, Card)>)
    ensures
        res@ == pairs_upto(full_deck(), board@, 52),
{
    let deck = deck();
    proof { assert(deck@ =~= full_deck()); }
    let mut hands: Vec<(Card, Card)> = Vec::new();
    for i in 0..deck.len()
        invariant
            deck@ == full_deck(),
            hands@ == pairs_upto(full_deck(), board@, i as int),
    {
        let ghost before = hands@;
        let blocked_i = slice_contains(board, deck[i]);
        for j in i + 1..deck.len()
            invariant
                deck@ == full_deck(),
                i < deck@.len(),
                blocked_i == board@.contains(deck@[i as int]),
                hands@ == before + pairs_with(full_deck(), board@, i as int, j as int),
        {
            if !blocked_i && !slice_contains(board, deck[j]) {
                hands.push((deck[i], deck[j]));
            }
            proof {
                assert(before + pairs_with(full_deck(), board@, i as int, j + 1) =~= hands@);
            }
        }
        proof {
            assert(pairs_upto(full_deck(), board@, i + 1)
                == pairs_upto(full_deck(), board@, i as int) + pairs_with(full_deck(), board@, i as int, 52));
        }
    }
    hands
}

/// With no board, the pairs `(d[i], d[j])` for `j` from `i + 1` up to `jmax` are all kept.
proof fn lemma_pairs_with_len(d: Seq<Card>, i: int, jmax: int)
    requires
        0 <= i,
        jmax <= d.len(),
    ensures
        pairs_with(d, Seq::<Card>::empty(), i, jmax).len() == if jmax <= i + 1 { 0 } else { jmax - i - 1 },
    decreases jmax - i,
{
    if jmax > i + 1 {
        lemma_pairs_with_len(d, i, jmax - 1);
    }
}

/// With no board, there are i(2|d| − 1 − i)/2 pairs whose first card comes before position `i`.
proof fn lemma_pairs_upto_len(d: Seq<Card>, imax: int)
    requires
        0 <= imax <= d.len(),
    ensures
        2 * pairs_upto(d, Seq::<Card>::empty(), imax).len() == imax * (2 * d.len() - 1 - imax),
    decreases imax,
{
    if imax > 0 {
        lemma_pairs_upto_len(d, imax - 1);
        lemma_pairs_with_len(d, imax - 1, d.len() as int);
        let n = d.len() as int;
        let prev = pairs_upto(d, Seq::<Card>::empty(), imax - 1).len() as int;
        assert(2 * prev + 2 * (n - imax) == imax * (2 * n - 1 - imax)) by (nonlinear_arith)
            requires 2 * prev == (imax - 1) * (2 * n - 1 - (imax - 1));
        assert(pairs_upto(d, Seq::<Card>::empty(), imax).len()
            == prev + pairs_with(d, Seq::<Card>::empty(), imax - 1, n).len());
    } else {
        let n = d.len() as int;
        assert(imax * (2 * n - 1 - imax) == 0) by (nonlinear_arith)
            requires imax == 0;
    }
}

/// With no board, `non_blocking_preflop_hands` gives all 1326 starting hands.
pub proof fn law_starting_hands_count()
    ensures
        pairs_upto(full_deck(), Seq::<Card>::empty(), 52).len() == 1326,
{
    lemma_pairs_upto_len(full_deck(), 52);
}

/// The cards of a pick are cards of the sequence.
pub proof fn lemma_combo_subset(s: Seq<Card>, t: Seq<Card>)
    requires
        is_combo(s, t),
    ensures
        forall|i: int| 0 <= i < t.len() ==> s.contains(#[trigger] t[i]),
    decreases s.len(),
{
    if t.len() > 0 && s.len() > 0 {
        let s1 = s.drop_first();
        if is_combo(s1, t) {
            lemma_combo_subset(s1, t);
            assert forall|i: int| 0 <= i < t.len() implies s.contains(#[trigger] t[i]) by {
                let j = choose|j: int| 0 <= j < s1.len() && s1[j] == t[i];
                assert(s[j + 1] == t[i]);
            }
        } else {
            let t1 = t.drop_first();
            lemma_combo_subset(s1, t1);
            assert forall|i: int| 0 <= i < t.len() implies s.contains(#[trigger] t[i]) by {
                if i == 0 {
                    assert(s[0] == t[0]);
                } else {
                    assert(t1[i - 1] == t[i]);
                    let j = choose|j: int| 0 <= j < s1.len() && s1[j] == t1[i - 1];
                    assert(s[j + 1] == t[i]);
                }
            }
        }
    }
}

/// A pick of distinct cards holds distinct cards.
pub proof fn lemma_combo_distinct(s: Seq<Card>, t: Seq<Card>)
    requires
        is_combo(s, t),
        forall|i: int, j: int| 0 <= i < j < s.len() ==> s[i] != s[j],
    ensures
        forall|i: int, j: int| 0 <= i < j < t.len() ==> t[i] != t[j],
    decreases s.len(),
{
    if t.len() > 0 && s.len() > 0 {
        let s1 = s.drop_first();
        assert forall|i: int, j: int| 0 <= i < j < s1.len() implies s1[i] != s1[j] by {
            assert(s1[i] == s[i + 1] && s1[j] == s[j + 1]);
        }
        if is_combo(s1, t) {
            lemma_combo_distinct(s1, t);
        } else {
            let t1 = t.drop_first();
            lemma_combo_distinct(s1, t1);
            lemma_combo_subset(s1, t1);
            assert forall|i: int, j: int| 0 <= i < j < t.len() implies t[i] != t[j] by {
                if i == 0 {
                    assert(t1[j - 1] == t[j]);
                    assert(s1.contains(t[j]));
                    let m = choose|m: int| 0 <= m < s1.len() && s1[m] == t[j];
                    assert(s[m + 1] == t[j]);
                    assert(s[0] != s[m + 1]);
                } else {
                    assert(t1[i - 1] == t[i] && t1[j - 1] == t[j]);
                }
            }
        }
    }
}

/// Two picks of distinct cards that hold the same cards are the same pick.
pub proof fn lemma_combo_same_cards(s: Seq<Card>, t1: Seq<Card>, t2: Seq<Card>)
    requires
        is_combo(s, t1),
        is_combo(s, t2),
        forall|i: int, j: int| 0 <= i < j < s.len() ==> s[i] != s[j],
        forall|c: Card| #[trigger] t1.contains(c) == t2.contains(c),
    ensures
        t1 == t2,
    decreases s.len(),
{
    if s.len() == 0 {
        if t1.len() > 0 {
            assert(!is_combo(s, t1));
        }
        if t2.len() > 0 {
            assert(!is_combo(s, t2));
        }
        assert(t1 =~= t2);
    } else {
        let s1 = s.drop_first();
        let c0 = s[0];
        assert forall|i: int, j: int| 0 <= i < j < s1.len() implies s1[i] != s1[j] by {
            assert(s1[i] == s[i + 1] && s1[j] == s[j + 1]);
        }
        assert(!s1.contains(c0)) by {
            if s1.contains(c0) {
                let m = choose|m: int| 0 <= m < s1.len() && s1[m] == c0;
                assert(s[m + 1] == s[0]);
            }
        }
        if t1.contains(c0) {
            // Both picks take the first card, and then the same cards of the rest.
            assert(t1.contains(c0) == t2.contains(c0));
            assert(t1.len() > 0 && t2.len() > 0);
            assert(!is_combo(s1, t1)) by {
                if is_combo(s1, t1) {
                    lemma_combo_subset(s1, t1);
                    let i = choose|i: int| 0 <= i < t1.len() && t1[i] == c0;
                    assert(s1.contains(t1[i]));
                }
            }
            assert(t2.contains(c0));
            assert(!is_combo(s1, t2)) by {
                if is_combo(s1, t2) {
                    lemma_combo_subset(s1, t2);
                    let i = choose|i: int| 0 <= i < t2.len() && t2[i] == c0;
                    assert(s1.contains(t2[i]));
                }
            }
            let u1 = t1.drop_first();
            let u2 = t2.drop_first();
            lemma_combo_subset(s1, u1);
            lemma_combo_subset(s1, u2);
            assert forall|c: Card| #[trigger] u1.contains(c) == u2.contains(c) by {
                if u1.contains(c) {
                    let i = choose|i: int| 0 <= i < u1.len() && u1[i] == c;
                    assert(s1.contains(u1[i]));
                    assert(c != c0);
                    assert(t1[i + 1] == c);
                    assert(t1.contains(c));
                    assert(t1.contains(c) == t2.contains(c));
                    let j = choose|j: int| 0 <= j < t2.len() && t2[j] == c;
                    assert(j != 0);
                    assert(u2[j - 1] == c);
                }
                if u2.contains(c) {
                    let i = choose|i: int| 0 <= i < u2.len() && u2[i] == c;
                    assert(s1.contains(u2[i]));
                    assert(c != c0);
                    assert(t2[i + 1] == c);
                    assert(t2.contains(c));
                    assert(t1.contains(c) == t2.contains(c));
                    let j = choose|j: int| 0 <= j < t1.len() && t1[j] == c;
                    assert(j != 0);
                    assert(u1[j - 1] == c);
                }
            }
            lemma_combo_same_cards(s1, u1, u2);
            assert(t1 =~= seq![c0] + u1);
            assert(t2 =~= seq![c0] + u2);
        } else {
            assert(t1.contains(c0) == t2.contains(c0));
            assert(!t2.contains(c0));
            assert(t1.len() > 0 ==> is_combo(s1, t1)) by {
                if t1.len() > 0 && !is_combo(s1, t1) {
                    assert(t1[0] == c0);
                }
            }
            assert(t2.len() > 0 ==> is_combo(s1, t2)) by {
                if t2.len() > 0 && !is_combo(s1, t2) {
                    assert(t2[0] == c0);
                }
            }
            if t1.len() == 0 && t2.len() == 0 {
                assert(t1 =~= t2);
            } else if t1.len() == 0 {
                assert(t2.contains(t2[0]));
                assert(t1.contains(t2[0]) == t2.contains(t2[0]));
            } else if t2.len() == 0 {
                assert(t1.contains(t1[0]));
                assert(t1.contains(t1[0]) == t2.contains(t1[0]));
            } else {
                lemma_combo_same_cards(s1, t1, t2);
            }
        }
    }
}

} // verus!
