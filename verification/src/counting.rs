use std::collections::HashMap;
use vstd::prelude::*;
use std::ops::Deref;
use vstd::set_lib::{
    lemma_int_range, lemma_len_subset, lemma_map_size_bound, lemma_set_difference_len, lemma_set_disjoint_lens,
    lemma_set_empty_equivalency_len, set_int_range,
};
use crate::card::{Card, deck};
use crate::hand::{card_codes, cards2hand, encodes, hand_byte, lemma_encodes_unique};
use crate::iso::{
    has_rank, is_representation, isomorphic_hand, isomorphic_representation, isomorphic_result,
    lemma_arrangement_member, lemma_occurrences_found, lemma_occurrences_pos, occurrences, relabel,
    same_streets, suit_permutation,
};
use crate::iso_laws::lemma_renaming_determines_streets;
use crate::canonical::{
    all_valid, dealt_hand, full_deck, is_combo, iso_code, lemma_combo_same_cards, lemma_combo_subset,
    lemma_without_valid, remove_cards, without,
};
use crate::strength::{distinct_cards, lemma_full_deck_valid_distinct};

verus! {

broadcast use vstd::std_specs::hash::group_hash_axioms;

/// The hands of `n` cards dealt with the streets kept (see `dealt_hand`).
pub open spec fn dealt_set(n: nat) -> Set<Seq<Card>> {
    Set::new(|h: Seq<Card>| dealt_hand(n, true, h))
}

/// The hands of `s` whose isomorphic representation, with the streets kept, has the compact
/// hand `x`.
pub open spec fn class_of(s: Set<Seq<Card>>, x: u64) -> Set<Seq<Card>> {
    s.filter(|h: Seq<Card>| iso_code(x, h, true))
}

/// `m` holds, under the compact hand of each isomorphic representation (streets kept) of a hand
/// of `s`, how many hands of `s` have that representation, and nothing else; every hand of `s`
/// has a representation.
pub open spec fn counts_hands(m: Map<u64, i32>, s: Set<Seq<Card>>) -> bool {
    &&& forall|x: u64| #[trigger] m.contains_key(x) <==>
        exists|h: Seq<Card>| #[trigger] s.contains(h) && iso_code(x, h, true)
    &&& forall|x: u64| #[trigger] m.contains_key(x) ==> m[x] == class_of(s, x).len()
    &&& forall|h: Seq<Card>| #[trigger] s.contains(h) ==>
        exists|x: u64| #[trigger] m.contains_key(x) && iso_code(x, h, true)
}

/// Every hand of the set has an isomorphic representation.
spec fn represented(s: Set<Seq<Card>>) -> bool {
    forall|h: Seq<Card>| #[trigger] s.contains(h) ==>
        is_representation(isomorphic_representation(h, true), h, true)
}

/// Renaming the suits of the hand by `sigma` gives it its representation.
spec fn renames_to_representation(h: Seq<Card>, sigma: Seq<u8>) -> bool {
    exists|arr: Seq<Card>| #[trigger] isomorphic_result(isomorphic_representation(h, true), h, true, sigma, arr)
}

/// The renaming of the suits that gives a hand its representation.
spec fn renaming_of(h: Seq<Card>) -> Seq<u8> {
    choose|sigma: Seq<u8>| #[trigger] renames_to_representation(h, sigma)
}

/// A number below 256 for each renaming of the four suits.
spec fn renaming_number(sigma: Seq<u8>) -> int {
    64 * sigma[0] + 16 * sigma[1] + 4 * sigma[2] + sigma[3]
}

/// A card is in a sequence exactly when it occurs in it.
proof fn lemma_contains_occurs(s: Seq<Card>, c: Card)
    ensures
        s.contains(c) <==> occurrences(s, c) >= 1,
{
    if s.contains(c) {
        let i = choose|i: int| 0 <= i < s.len() && s[i] == c;
        lemma_occurrences_pos(s, i);
    }
    if occurrences(s, c) >= 1 {
        let i = lemma_occurrences_found(s, c);
    }
}

/// The cards left after taking some out are cards of the sequence.
proof fn lemma_without_member(s: Seq<Card>, p: Seq<Card>, c: Card)
    requires
        without(s, p).contains(c),
    ensures
        s.contains(c),
        !p.contains(c),
    decreases s.len(),
{
    if s.len() > 0 {
        let r = without(s.drop_last(), p);
        if r.contains(c) {
            lemma_without_member(s.drop_last(), p, c);
            let i = choose|i: int| 0 <= i < s.drop_last().len() && s.drop_last()[i] == c;
            assert(s[i] == c);
        } else {
            assert(!p.contains(s.last()));
            let i = choose|i: int| 0 <= i < without(s, p).len() && without(s, p)[i] == c;
            assert(without(s, p) == r.push(s.last()));
            assert(i == r.len());
            assert(s[s.len() - 1] == c);
        }
    }
}

/// The cards left after taking some out of distinct cards are distinct.
pub(crate) proof fn lemma_without_distinct(s: Seq<Card>, p: Seq<Card>)
    requires
        distinct_cards(s),
    ensures
        distinct_cards(without(s, p)),
    decreases s.len(),
{
    if s.len() > 0 {
        let s0 = s.drop_last();
        assert(distinct_cards(s0)) by {
            assert forall|i: int, j: int| 0 <= i < j < s0.len() implies s0[i] != s0[j] by {
                assert(s0[i] == s[i] && s0[j] == s[j]);
            }
        }
        lemma_without_distinct(s0, p);
        let r = without(s0, p);
        if !p.contains(s.last()) {
            let w = r.push(s.last());
            assert forall|i: int, j: int| 0 <= i < j < w.len() implies w[i] != w[j] by {
                if j == r.len() {
                    assert(w[i] == r[i]);
                    if r[i] == s.last() {
                        assert(r.contains(r[i]));
                        lemma_without_member(s0, p, r[i]);
                        let m = choose|m: int| 0 <= m < s0.len() && s0[m] == r[i];
                        assert(s[m] == s[s.len() - 1]);
                    }
                } else {
                    assert(w[i] == r[i] && w[j] == r[j]);
                }
            }
        }
    }
}

/// Picks of distinct cards with the same cards, as many times each, are the same pick.
proof fn lemma_combo_same_occurrences(s: Seq<Card>, t1: Seq<Card>, t2: Seq<Card>)
    requires
        is_combo(s, t1),
        is_combo(s, t2),
        distinct_cards(s),
        forall|c: Card| #[trigger] occurrences(t1, c) == occurrences(t2, c),
    ensures
        t1 == t2,
{
    assert forall|c: Card| #[trigger] t1.contains(c) == t2.contains(c) by {
        lemma_contains_occurs(t1, c);
        lemma_contains_occurs(t2, c);
    }
    lemma_combo_same_cards(s, t1, t2);
}

/// Two dealt hands with the same hole cards and the same board cards are the same hand.
proof fn lemma_dealt_same_streets(n: nat, h1: Seq<Card>, h2: Seq<Card>)
    requires
        n >= 2,
        dealt_hand(n, true, h1),
        dealt_hand(n, true, h2),
        same_streets(h1, h2, true),
    ensures
        h1 == h2,
{
    let d = full_deck();
    lemma_full_deck_valid_distinct();
    let t1 = h1.take(2);
    let t2 = h2.take(2);
    if n > 2 {
        lemma_combo_same_occurrences(d, t1, t2);
    } else {
        assert(t1 =~= h1);
        assert(t2 =~= h2);
        lemma_combo_same_occurrences(d, t1, t2);
    }
    lemma_without_distinct(d, t1);
    if n > 2 {
        lemma_combo_same_occurrences(without(d, t1), h1.skip(2), h2.skip(2));
    } else {
        assert(h1.skip(2) =~= h2.skip(2));
    }
    assert(h1 =~= t1 + h1.skip(2));
    assert(h2 =~= t2 + h2.skip(2));
}

/// The representation of a hand of the standard deck holds cards of the standard deck.
proof fn lemma_representation_valid(h: Seq<Card>)
    requires
        all_valid(h),
        is_representation(isomorphic_representation(h, true), h, true),
    ensures
        all_valid(isomorphic_representation(h, true)),
{
    let r = isomorphic_representation(h, true);
    let (sigma, arr) = choose|sigma: Seq<u8>, arr: Seq<Card>| #[trigger] isomorphic_result(r, h, true, sigma, arr);
    assert forall|i: int| 0 <= i < r.len() implies (#[trigger] r[i]).valid() by {
        let j = lemma_arrangement_member(r, relabel(arr, sigma), true, i);
        let k = lemma_arrangement_member(arr, h, true, j);
        assert(h[k].valid());
        assert(relabel(arr, sigma)[j] == Card { rank: arr[j].rank, suit: sigma[arr[j].suit as int] });
    }
}

/// One compact hand holds the bytes of only one sequence of cards of the standard deck.
proof fn lemma_codes_determine_cards(x: u64, r1: Seq<Card>, r2: Seq<Card>)
    requires
        encodes(x, card_codes(r1)),
        encodes(x, card_codes(r2)),
        all_valid(r1),
        all_valid(r2),
    ensures
        r1 == r2,
{
    let c1 = card_codes(r1);
    let c2 = card_codes(r2);
    if r1.len() < r2.len() {
        let k = r1.len() as int;
        assert(r2[k].valid());
        assert(c2[k] == hand_byte(x, k as u64));
    } else if r2.len() < r1.len() {
        let k = r2.len() as int;
        assert(r1[k].valid());
        assert(c1[k] == hand_byte(x, k as u64));
    }
    assert forall|k: int| 0 <= k < r1.len() implies r1[k] == r2[k] by {
        assert(r1[k].valid() && r2[k].valid());
        assert(c1[k] == hand_byte(x, k as u64));
        assert(c2[k] == hand_byte(x, k as u64));
    }
    assert(r1 =~= r2);
}

/// A hand that has a representation has a renaming of the suits that gives it.
proof fn lemma_renaming_of(h: Seq<Card>)
    requires
        is_representation(isomorphic_representation(h, true), h, true),
    ensures
        exists|arr: Seq<Card>|
            #[trigger] isomorphic_result(isomorphic_representation(h, true), h, true, renaming_of(h), arr),
        suit_permutation(renaming_of(h)),
        0 <= renaming_number(renaming_of(h)) < 256,
{
    let r = isomorphic_representation(h, true);
    let (sigma, arr) = choose|sigma: Seq<u8>, arr: Seq<Card>| #[trigger] isomorphic_result(r, h, true, sigma, arr);
    assert(renames_to_representation(h, sigma));
    let s = renaming_of(h);
    assert(renames_to_representation(h, s));
    let a = choose|arr: Seq<Card>| #[trigger] isomorphic_result(r, h, true, s, arr);
    assert(isomorphic_result(r, h, true, s, a));
    assert(s[0] < 4 && s[1] < 4 && s[2] < 4 && s[3] < 4);
}

/// Two dealt hands that have the same representation and the same renaming are the same hand.
proof fn lemma_renaming_injective(n: nat, x: u64, h1: Seq<Card>, h2: Seq<Card>)
    requires
        n >= 2,
        dealt_hand(n, true, h1),
        dealt_hand(n, true, h2),
        is_representation(isomorphic_representation(h1, true), h1, true),
        is_representation(isomorphic_representation(h2, true), h2, true),
        iso_code(x, h1, true),
        iso_code(x, h2, true),
        renaming_number(renaming_of(h1)) == renaming_number(renaming_of(h2)),
    ensures
        h1 == h2,
{
    let d = full_deck();
    lemma_full_deck_valid_distinct();
    assert(all_valid(h1)) by {
        lemma_combo_subset(d, h1.take(2));
        lemma_without_distinct(d, h1.take(2));
        lemma_combo_subset(without(d, h1.take(2)), h1.skip(2));
        assert forall|i: int| 0 <= i < h1.len() implies (#[trigger] h1[i]).valid() by {
            if i < 2 {
                assert(h1.take(2)[i] == h1[i]);
                let j = choose|j: int| 0 <= j < d.len() && d[j] == h1.take(2)[i];
            } else {
                assert(h1.skip(2)[i - 2] == h1[i]);
                lemma_without_member(d, h1.take(2), h1[i]);
                let j = choose|j: int| 0 <= j < d.len() && d[j] == h1[i];
            }
        }
    }
    assert(all_valid(h2)) by {
        lemma_combo_subset(d, h2.take(2));
        lemma_combo_subset(without(d, h2.take(2)), h2.skip(2));
        assert forall|i: int| 0 <= i < h2.len() implies (#[trigger] h2[i]).valid() by {
            if i < 2 {
                assert(h2.take(2)[i] == h2[i]);
                let j = choose|j: int| 0 <= j < d.len() && d[j] == h2.take(2)[i];
            } else {
                assert(h2.skip(2)[i - 2] == h2[i]);
                lemma_without_member(d, h2.take(2), h2[i]);
                let j = choose|j: int| 0 <= j < d.len() && d[j] == h2[i];
            }
        }
    }
    lemma_representation_valid(h1);
    lemma_representation_valid(h2);
    let r = isomorphic_representation(h1, true);
    lemma_codes_determine_cards(x, r, isomorphic_representation(h2, true));
    lemma_renaming_of(h1);
    lemma_renaming_of(h2);
    let s1 = renaming_of(h1);
    let s2 = renaming_of(h2);
    assert(s1 =~= s2);
    let a1 = choose|arr: Seq<Card>| #[trigger] isomorphic_result(r, h1, true, s1, arr);
    let a2 = choose|arr: Seq<Card>| #[trigger] isomorphic_result(r, h2, true, s1, arr);
    assert forall|i: int| 0 <= i < h1.len() implies (#[trigger] h1[i]).suit < 4 by {
        assert(h1[i].valid());
    }
    assert forall|i: int| 0 <= i < h2.len() implies (#[trigger] h2[i]).suit < 4 by {
        assert(h2[i].valid());
    }
    lemma_renaming_determines_streets(r, h1, h2, true, s1, a1, a2);
    lemma_dealt_same_streets(n, h1, h2);
}

/// At most 256 dealt hands share an isomorphic representation: within a class, a hand is
/// determined by the renaming of the suits that gives it the representation.
proof fn lemma_class_bound(s: Set<Seq<Card>>, n: nat, x: u64)
    requires
        n >= 2,
        s.subset_of(dealt_set(n)),
        represented(s),
    ensures
        class_of(s, x).finite(),
        class_of(s, x).len() <= 256,
{
    let c = class_of(s, x);
    let f = |h: Seq<Card>| renaming_number(renaming_of(h));
    let p = c.map(f);
    let range = set_int_range(0, 256);
    assert(p.subset_of(range)) by {
        assert forall|i: int| p.contains(i) implies range.contains(i) by {
            let h = choose|h: Seq<Card>| c.contains(h) && i == f(h);
            lemma_renaming_of(h);
        }
    }
    lemma_int_range(0, 256);
    lemma_len_subset(p, range);
    let g = |i: int| choose|h: Seq<Card>| c.contains(h) && f(h) == i;
    assert(p.map(g) =~= c) by {
        assert forall|h: Seq<Card>| p.map(g).contains(h) implies c.contains(h) by {
            let i = choose|i: int| p.contains(i) && h == g(i);
            let h0 = choose|h0: Seq<Card>| c.contains(h0) && i == f(h0);
        }
        assert forall|h: Seq<Card>| c.contains(h) implies p.map(g).contains(h) by {
            let i = f(h);
            assert(p.contains(i));
            let h2 = g(i);
            assert(c.contains(h2) && f(h2) == i);
            lemma_renaming_injective(n, x, h, h2);
        }
    }
    lemma_map_size_bound(p, c, g);
}


/// The hands `prefix + t` for every pick `t` of `k` cards of `s`.
pub(crate) open spec fn picked_hands(s: Seq<Card>, k: nat, prefix: Seq<Card>) -> Set<Seq<Card>> {
    Set::new(|h: Seq<Card>| exists|t: Seq<Card>| t.len() == k && #[trigger] is_combo(s, t) && h == prefix + t)
}

/// The hands `prefix + t + b` for every pick `t` of `k` cards of `s` and every pick `b` of
/// `n_board` cards of the deck left after taking out the cards of `prefix + t`.
pub(crate) open spec fn deals_of(s: Seq<Card>, k: nat, prefix: Seq<Card>, deck: Seq<Card>, n_board: nat) -> Set<Seq<Card>> {
    Set::new(|h: Seq<Card>| exists|t: Seq<Card>| t.len() == k && #[trigger] is_combo(s, t)
        && picked_hands(without(deck, prefix + t), n_board, prefix + t).contains(h))
}

/// Picking no cards gives the prefix alone.
pub(crate) proof fn lemma_picked_none(s: Seq<Card>, p: Seq<Card>)
    ensures
        picked_hands(s, 0, p) =~= Set::empty().insert(p),
{
    let e = Seq::<Card>::empty();
    assert(is_combo(s, e));
    assert(p + e =~= p);
    assert forall|h: Seq<Card>| #[trigger] picked_hands(s, 0, p).contains(h) implies h == p by {
        let t = choose|t: Seq<Card>| t.len() == 0 && #[trigger] is_combo(s, t) && h == p + t;
        assert(t =~= e);
    }
}

/// Nothing is picked from no cards.
pub(crate) proof fn lemma_picked_exhausted(s: Seq<Card>, k: nat, p: Seq<Card>)
    requires
        s.len() == 0,
        k > 0,
    ensures
        picked_hands(s, k, p) =~= Set::empty(),
{
    assert forall|h: Seq<Card>| !#[trigger] picked_hands(s, k, p).contains(h) by {
        if picked_hands(s, k, p).contains(h) {
            let t = choose|t: Seq<Card>| t.len() == k && #[trigger] is_combo(s, t) && h == p + t;
        }
    }
}

/// The picks of `k` cards of `s` either take its first card or do not.
proof fn lemma_combo_split(s: Seq<Card>, t: Seq<Card>)
    requires
        s.len() > 0,
        t.len() > 0,
    ensures
        is_combo(s, t) <==> (is_combo(s.drop_first(), t)
            || (t[0] == s[0] && is_combo(s.drop_first(), t.drop_first()))),
{
}

/// The cards left of distinct cards after the first do not hold the first.
proof fn lemma_first_not_in_rest(s: Seq<Card>)
    requires
        s.len() > 0,
        distinct_cards(s),
    ensures
        !s.drop_first().contains(s[0]),
        distinct_cards(s.drop_first()),
{
    let s1 = s.drop_first();
    if s1.contains(s[0]) {
        let m = choose|m: int| 0 <= m < s1.len() && s1[m] == s[0];
        assert(s[m + 1] == s[0]);
    }
    assert forall|i: int, j: int| 0 <= i < j < s1.len() implies s1[i] != s1[j] by {
        assert(s1[i] == s[i + 1] && s1[j] == s[j + 1]);
    }
}

/// The picks of `k` cards of `s` are those that take its first card and those that do not;
/// the first card of the pick tells them apart.
pub(crate) proof fn lemma_picked_split(s: Seq<Card>, k: nat, p: Seq<Card>)
    requires
        s.len() > 0,
        k > 0,
        distinct_cards(s),
    ensures
        picked_hands(s, k, p) =~= picked_hands(s.drop_first(), (k - 1) as nat, p.push(s[0]))
            + picked_hands(s.drop_first(), k, p),
        picked_hands(s.drop_first(), (k - 1) as nat, p.push(s[0])).disjoint(picked_hands(s.drop_first(), k, p)),
{
    let s1 = s.drop_first();
    let c = s[0];
    let a = picked_hands(s1, (k - 1) as nat, p.push(c));
    let b = picked_hands(s1, k, p);
    lemma_first_not_in_rest(s);
    assert forall|h: Seq<Card>| #[trigger] picked_hands(s, k, p).contains(h) implies a.contains(h) || b.contains(h) by {
        let t = choose|t: Seq<Card>| t.len() == k && #[trigger] is_combo(s, t) && h == p + t;
        lemma_combo_split(s, t);
        if !is_combo(s1, t) {
            let t1 = t.drop_first();
            assert(p.push(c) + t1 =~= p + t);
            assert(is_combo(s1, t1));
        }
    }
    assert forall|h: Seq<Card>| #[trigger] a.contains(h) implies picked_hands(s, k, p).contains(h) by {
        let t1 = choose|t: Seq<Card>| t.len() == k - 1 && #[trigger] is_combo(s1, t) && h == p.push(c) + t;
        let t = seq![c] + t1;
        assert(t.drop_first() =~= t1);
        lemma_combo_split(s, t);
        assert(is_combo(s, t));
        assert(p.push(c) + t1 =~= p + t);
    }
    assert forall|h: Seq<Card>| #[trigger] b.contains(h) implies picked_hands(s, k, p).contains(h) by {
        let t = choose|t: Seq<Card>| t.len() == k && #[trigger] is_combo(s1, t) && h == p + t;
        lemma_combo_split(s, t);
    }
    assert forall|h: Seq<Card>| #[trigger] a.contains(h) implies !b.contains(h) by {
        let t1 = choose|t: Seq<Card>| t.len() == k - 1 && #[trigger] is_combo(s1, t) && h == p.push(c) + t;
        assert(h[p.len() as int] == c);
        if b.contains(h) {
            let t = choose|t: Seq<Card>| t.len() == k && #[trigger] is_combo(s1, t) && h == p + t;
            lemma_combo_subset(s1, t);
            assert(h[p.len() as int] == t[0]);
            assert(s1.contains(t[0]));
        }
    }
}

/// Dealing with no hole cards left to pick deals the boards of the prefix.
pub(crate) proof fn lemma_deals_none(s: Seq<Card>, p: Seq<Card>, deck: Seq<Card>, n_board: nat)
    ensures
        deals_of(s, 0, p, deck, n_board) =~= picked_hands(without(deck, p), n_board, p),
{
    let e = Seq::<Card>::empty();
    assert(is_combo(s, e));
    assert(p + e =~= p);
    assert forall|h: Seq<Card>| #[trigger] deals_of(s, 0, p, deck, n_board).contains(h) implies
        picked_hands(without(deck, p), n_board, p).contains(h) by {
        let t = choose|t: Seq<Card>| t.len() == 0 && #[trigger] is_combo(s, t)
            && picked_hands(without(deck, p + t), n_board, p + t).contains(h);
        assert(t =~= e);
    }
}

/// Nothing is dealt when no cards are left for the hole cards still to pick.
pub(crate) proof fn lemma_deals_exhausted(s: Seq<Card>, k: nat, p: Seq<Card>, deck: Seq<Card>, n_board: nat)
    requires
        s.len() == 0,
        k > 0,
    ensures
        deals_of(s, k, p, deck, n_board) =~= Set::empty(),
{
    assert forall|h: Seq<Card>| !#[trigger] deals_of(s, k, p, deck, n_board).contains(h) by {
        if deals_of(s, k, p, deck, n_board).contains(h) {
            let t = choose|t: Seq<Card>| t.len() == k && #[trigger] is_combo(s, t)
                && picked_hands(without(deck, p + t), n_board, p + t).contains(h);
        }
    }
}

/// A hand with the prefix `q` has the cards of `q` first.
proof fn lemma_picked_prefix(x: Seq<Card>, nb: nat, q: Seq<Card>, h: Seq<Card>, i: int)
    requires
        picked_hands(x, nb, q).contains(h),
        0 <= i < q.len(),
    ensures
        h[i] == q[i],
{
    let b = choose|b: Seq<Card>| b.len() == nb && #[trigger] is_combo(x, b) && h == q + b;
}

/// The deals of `k` hole cards from `s` are those whose hole cards take its first card and
/// those whose do not; the first hole card picked tells them apart.
pub(crate) proof fn lemma_deals_split(s: Seq<Card>, k: nat, p: Seq<Card>, deck: Seq<Card>, n_board: nat)
    requires
        s.len() > 0,
        k > 0,
        distinct_cards(s),
    ensures
        deals_of(s, k, p, deck, n_board) =~= deals_of(s.drop_first(), (k - 1) as nat, p.push(s[0]), deck, n_board)
            + deals_of(s.drop_first(), k, p, deck, n_board),
        deals_of(s.drop_first(), (k - 1) as nat, p.push(s[0]), deck, n_board).disjoint(
            deals_of(s.drop_first(), k, p, deck, n_board)),
{
    let s1 = s.drop_first();
    let c = s[0];
    let a = deals_of(s1, (k - 1) as nat, p.push(c), deck, n_board);
    let b = deals_of(s1, k, p, deck, n_board);
    let all = deals_of(s, k, p, deck, n_board);
    lemma_first_not_in_rest(s);
    assert forall|h: Seq<Card>| #[trigger] all.contains(h) implies a.contains(h) || b.contains(h) by {
        let t = choose|t: Seq<Card>| t.len() == k && #[trigger] is_combo(s, t)
            && picked_hands(without(deck, p + t), n_board, p + t).contains(h);
        lemma_combo_split(s, t);
        if !is_combo(s1, t) {
            let t1 = t.drop_first();
            assert(p.push(c) + t1 =~= p + t);
            assert(is_combo(s1, t1));
        }
    }
    assert forall|h: Seq<Card>| #[trigger] a.contains(h) implies all.contains(h) by {
        let t1 = choose|t: Seq<Card>| t.len() == k - 1 && #[trigger] is_combo(s1, t)
            && picked_hands(without(deck, p.push(c) + t), n_board, p.push(c) + t).contains(h);
        let t = seq![c] + t1;
        assert(t.drop_first() =~= t1);
        lemma_combo_split(s, t);
        assert(is_combo(s, t));
        assert(p.push(c) + t1 =~= p + t);
    }
    assert forall|h: Seq<Card>| #[trigger] b.contains(h) implies all.contains(h) by {
        let t = choose|t: Seq<Card>| t.len() == k && #[trigger] is_combo(s1, t)
            && picked_hands(without(deck, p + t), n_board, p + t).contains(h);
        lemma_combo_split(s, t);
    }
    assert forall|h: Seq<Card>| #[trigger] a.contains(h) implies !b.contains(h) by {
        let t1 = choose|t: Seq<Card>| t.len() == k - 1 && #[trigger] is_combo(s1, t)
            && picked_hands(without(deck, p.push(c) + t), n_board, p.push(c) + t).contains(h);
        lemma_picked_prefix(without(deck, p.push(c) + t1), n_board, p.push(c) + t1, h, p.len() as int);
        assert(h[p.len() as int] == c);
        if b.contains(h) {
            let t = choose|t: Seq<Card>| t.len() == k && #[trigger] is_combo(s1, t)
                && picked_hands(without(deck, p + t), n_board, p + t).contains(h);
            lemma_picked_prefix(without(deck, p + t), n_board, p + t, h, p.len() as int);
            lemma_combo_subset(s1, t);
            assert(h[p.len() as int] == t[0]);
            assert(s1.contains(t[0]));
        }
    }
}

/// Dealing two hole cards from the deck and then the board cards from the rest deals exactly
/// the dealt hands.
pub(crate) proof fn lemma_deals_all(n: nat)
    requires
        n >= 2,
    ensures
        deals_of(full_deck().skip(0), 2, Seq::<Card>::empty(), full_deck(), (n - 2) as nat) =~= dealt_set(n),
{
    let d = full_deck();
    let e = Seq::<Card>::empty();
    assert(d.skip(0) =~= d);
    assert forall|h: Seq<Card>| #[trigger] deals_of(d.skip(0), 2, e, d, (n - 2) as nat).contains(h)
        implies dealt_set(n).contains(h) by {
        let t = choose|t: Seq<Card>| t.len() == 2 && #[trigger] is_combo(d.skip(0), t)
            && picked_hands(without(d, e + t), (n - 2) as nat, e + t).contains(h);
        assert(e + t =~= t);
        let b = choose|b: Seq<Card>| b.len() == n - 2 && #[trigger] is_combo(without(d, t), b) && h == t + b;
        assert(h.take(2) =~= t);
        assert(h.skip(2) =~= b);
    }
    assert forall|h: Seq<Card>| #[trigger] dealt_set(n).contains(h)
        implies deals_of(d.skip(0), 2, e, d, (n - 2) as nat).contains(h) by {
        let t = h.take(2);
        let b = h.skip(2);
        assert(e + t =~= t);
        assert(h =~= t + b);
        assert(is_combo(without(d, e + t), b));
        assert(picked_hands(without(d, e + t), (n - 2) as nat, e + t).contains(h));
        assert(is_combo(d.skip(0), t));
    }
}

/// Counts one more dealt hand under the compact hand of its isomorphic representation.
fn count_hand(
    hand: &[Card],
    counts: &mut HashMap<u64, i32>,
    Ghost(seen): Ghost<Set<Seq<Card>>>,
    Ghost(n): Ghost<nat>,
)
    requires
        n >= 2,
        all_valid(hand@),
        hand@.len() <= 8,
        dealt_set(n).contains(hand@),
        !seen.contains(hand@),
        seen.subset_of(dealt_set(n)),
        represented(seen),
        counts_hands(old(counts)@, seen),
    ensures
        counts_hands(final(counts)@, seen.insert(hand@)),
        represented(seen.insert(hand@)),
{
    let ghost h = hand@;
    let iso_hand = isomorphic_hand(hand, true);
    let iso: &[Card] = iso_hand.deref();
    proof {
        assert forall|i: int| 0 <= i < iso@.len() implies 15 * (#[trigger] iso@[i]).suit + iso@[i].rank <= 255 by {
            assert(has_rank(h, iso@[i].rank));
            let j = choose|j: int| 0 <= j < h.len() && h[j].rank == iso@[i].rank;
            assert(h[j].valid());
        }
    }
    let code = cards2hand(iso);
    let current: i32 = match counts.get(&code) {
        Some(v) => *v,
        None => 0,
    };
    let ghost v2 = seen.insert(h);
    proof {
        assert(is_representation(isomorphic_representation(h, true), h, true));
        assert(iso_code(code, h, true));
        assert(represented(v2));
        lemma_class_bound(v2, n, code);
        assert(class_of(v2, code) =~= class_of(seen, code).insert(h));
        lemma_len_subset(class_of(seen, code), class_of(v2, code));
        if !counts@.contains_key(code) {
            assert(class_of(seen, code) =~= Set::empty());
        }
        assert(current + 1 == class_of(v2, code).len());
    }
    let ghost m0 = counts@;
    counts.insert(code, current + 1);
    proof {
        lemma_count_step(m0, seen, h, code);
    }
}

/// Counting one more hand, not counted yet, under the compact hand of its representation.
proof fn lemma_count_step(m0: Map<u64, i32>, seen: Set<Seq<Card>>, h: Seq<Card>, code: u64)
    requires
        counts_hands(m0, seen),
        !seen.contains(h),
        iso_code(code, h, true),
        class_of(seen.insert(h), code).len() <= i32::MAX,
    ensures
        counts_hands(m0.insert(code, class_of(seen.insert(h), code).len() as i32), seen.insert(h)),
{
    let v2 = seen.insert(h);
    let m = m0.insert(code, class_of(v2, code).len() as i32);
    assert forall|x: u64| #[trigger] m.contains_key(x) <==>
        exists|h2: Seq<Card>| #[trigger] v2.contains(h2) && iso_code(x, h2, true) by {
        if x != code {
            if iso_code(x, h, true) {
                lemma_encodes_unique(x, code, card_codes(isomorphic_representation(h, true)));
            }
            assert(m.contains_key(x) == m0.contains_key(x));
            if exists|h2: Seq<Card>| #[trigger] v2.contains(h2) && iso_code(x, h2, true) {
                let h2 = choose|h2: Seq<Card>| #[trigger] v2.contains(h2) && iso_code(x, h2, true);
                assert(seen.contains(h2));
            }
            if m0.contains_key(x) {
                let h2 = choose|h2: Seq<Card>| #[trigger] seen.contains(h2) && iso_code(x, h2, true);
                assert(v2.contains(h2));
            }
        } else {
            assert(v2.contains(h) && iso_code(x, h, true));
        }
    }
    assert forall|h2: Seq<Card>| #[trigger] v2.contains(h2) implies
        exists|x: u64| #[trigger] m.contains_key(x) && iso_code(x, h2, true) by {
        if h2 == h {
            assert(m.contains_key(code) && iso_code(code, h, true));
        } else {
            assert(seen.contains(h2));
            let x = choose|x: u64| #[trigger] m0.contains_key(x) && iso_code(x, h2, true);
            assert(m.contains_key(x));
        }
    }
    assert forall|x: u64| #[trigger] m.contains_key(x) implies m[x] == class_of(v2, x).len() by {
        if x != code {
            if iso_code(x, h, true) {
                lemma_encodes_unique(x, code, card_codes(isomorphic_representation(h, true)));
            }
            assert(class_of(v2, x) =~= class_of(seen, x));
        }
    }
}

/// Counts every hand `prefix + t`, for the picks `t` of `k` cards of `pool[start..]`, under the
/// compact hand of its isomorphic representation.
fn count_picks(
    pool: &Vec<Card>,
    start: usize,
    k: usize,
    prefix: &mut Vec<Card>,
    counts: &mut HashMap<u64, i32>,
    Ghost(seen): Ghost<Set<Seq<Card>>>,
    Ghost(n): Ghost<nat>,
)
    requires
        n >= 2,
        start <= pool@.len(),
        old(prefix)@.len() + k <= 8,
        all_valid(pool@),
        distinct_cards(pool@),
        all_valid(old(prefix)@),
        seen.subset_of(dealt_set(n)),
        represented(seen),
        picked_hands(pool@.skip(start as int), k as nat, old(prefix)@).subset_of(dealt_set(n)),
        seen.disjoint(picked_hands(pool@.skip(start as int), k as nat, old(prefix)@)),
        counts_hands(old(counts)@, seen),
    ensures
        final(prefix)@ == old(prefix)@,
        counts_hands(final(counts)@, seen + picked_hands(pool@.skip(start as int), k as nat, old(prefix)@)),
        represented(seen + picked_hands(pool@.skip(start as int), k as nat, old(prefix)@)),
    decreases pool@.len() - start, k,
{
    let ghost p0 = prefix@;
    let ghost s = pool@.skip(start as int);
    if k == 0 {
        proof {
            lemma_picked_none(s, p0);
            assert(seen + Set::empty().insert(p0) =~= seen.insert(p0));
        }
        count_hand(prefix.as_slice(), counts, Ghost(seen), Ghost(n));
        return;
    }
    if start == pool.len() {
        proof {
            lemma_picked_exhausted(s, k as nat, p0);
            assert(seen + Set::empty() =~= seen);
        }
        return;
    }
    let c = pool[start];
    let ghost s1 = pool@.skip(start + 1);
    proof {
        assert(s.drop_first() =~= s1);
        assert(s[0] == c);
        assert(distinct_cards(s)) by {
            assert forall|i: int, j: int| 0 <= i < j < s.len() implies s[i] != s[j] by {
                assert(s[i] == pool@[start + i] && s[j] == pool@[start + j]);
            }
        }
        lemma_picked_split(s, k as nat, p0);
    }
    let ghost a = picked_hands(s1, (k - 1) as nat, p0.push(c));
    let ghost b = picked_hands(s1, k as nat, p0);
    prefix.push(c);
    proof {
        assert(prefix@ == p0.push(c));
        assert(all_valid(prefix@)) by {
            assert forall|i: int| 0 <= i < prefix@.len() implies (#[trigger] prefix@[i]).valid() by {
                if i < p0.len() {
                    assert(prefix@[i] == p0[i]);
                }
            }
        }
    }
    count_picks(pool, start + 1, k - 1, prefix, counts, Ghost(seen), Ghost(n));
    prefix.pop();
    proof {
        assert(prefix@ =~= p0);
        assert((seen + a).disjoint(b));
    }
    count_picks(pool, start + 1, k, prefix, counts, Ghost(seen + a), Ghost(n));
    proof {
        assert((seen + a) + b =~= seen + picked_hands(s, k as nat, p0));
    }
}

/// Counts every hand `prefix + t + b`, for the picks `t` of `k` cards of `deck[start..]` and `b`
/// of `n_board` cards of the deck left after taking out the cards of `prefix + t`, under the
/// compact hand of its isomorphic representation.
fn count_deals(
    deck: &Vec<Card>,
    start: usize,
    k: usize,
    prefix: &mut Vec<Card>,
    n_board: usize,
    counts: &mut HashMap<u64, i32>,
    Ghost(seen): Ghost<Set<Seq<Card>>>,
    Ghost(n): Ghost<nat>,
)
    requires
        n >= 2,
        start <= deck@.len(),
        old(prefix)@.len() + k + n_board <= 8,
        all_valid(deck@),
        distinct_cards(deck@),
        all_valid(old(prefix)@),
        seen.subset_of(dealt_set(n)),
        represented(seen),
        deals_of(deck@.skip(start as int), k as nat, old(prefix)@, deck@, n_board as nat).subset_of(dealt_set(n)),
        seen.disjoint(deals_of(deck@.skip(start as int), k as nat, old(prefix)@, deck@, n_board as nat)),
        counts_hands(old(counts)@, seen),
    ensures
        final(prefix)@ == old(prefix)@,
        counts_hands(final(counts)@,
            seen + deals_of(deck@.skip(start as int), k as nat, old(prefix)@, deck@, n_board as nat)),
        represented(seen + deals_of(deck@.skip(start as int), k as nat, old(prefix)@, deck@, n_board as nat)),
    decreases deck@.len() - start, k,
{
    let ghost p0 = prefix@;
    let ghost s = deck@.skip(start as int);
    if k == 0 {
        let rest = remove_cards(deck, prefix);
        proof {
            lemma_deals_none(s, p0, deck@, n_board as nat);
            lemma_without_valid(deck@, p0);
            lemma_without_distinct(deck@, p0);
            assert(rest@.skip(0) =~= rest@);
        }
        count_picks(&rest, 0, n_board, prefix, counts, Ghost(seen), Ghost(n));
        return;
    }
    if start == deck.len() {
        proof {
            lemma_deals_exhausted(s, k as nat, p0, deck@, n_board as nat);
            assert(seen + Set::empty() =~= seen);
        }
        return;
    }
    let c = deck[start];
    let ghost s1 = deck@.skip(start + 1);
    proof {
        assert(s.drop_first() =~= s1);
        assert(s[0] == c);
        assert(distinct_cards(s)) by {
            assert forall|i: int, j: int| 0 <= i < j < s.len() implies s[i] != s[j] by {
                assert(s[i] == deck@[start + i] && s[j] == deck@[start + j]);
            }
        }
        lemma_deals_split(s, k as nat, p0, deck@, n_board as nat);
    }
    let ghost a = deals_of(s1, (k - 1) as nat, p0.push(c), deck@, n_board as nat);
    let ghost b = deals_of(s1, k as nat, p0, deck@, n_board as nat);
    prefix.push(c);
    proof {
        assert(prefix@ == p0.push(c));
        assert(all_valid(prefix@)) by {
            assert forall|i: int| 0 <= i < prefix@.len() implies (#[trigger] prefix@[i]).valid() by {
                if i < p0.len() {
                    assert(prefix@[i] == p0[i]);
                }
            }
        }
    }
    count_deals(deck, start + 1, k - 1, prefix, n_board, counts, Ghost(seen), Ghost(n));
    prefix.pop();
    proof {
        assert(prefix@ =~= p0);
        assert((seen + a).disjoint(b));
    }
    count_deals(deck, start + 1, k, prefix, n_board, counts, Ghost(seen + a), Ghost(n));
    proof {
        assert((seen + a) + b =~= seen + deals_of(s, k as nat, p0, deck@, n_board as nat));
    }
}

/// How many hands of `n_cards` cards, dealt as two hole cards and then `n_cards - 2` board
/// cards from the rest of the deck, have each isomorphic representation (streets kept), under
/// its compact hand.
pub fn get_hand_counts(n_cards: usize) -> (res: HashMap<u64, i32>)
    requires
        2 <= n_cards <= 8,
    ensures
        counts_hands(res@, dealt_set(n_cards as nat)),
{
    let mut counts: HashMap<u64, i32> = HashMap::new();
    let deck = deck();
    let mut prefix: Vec<Card> = Vec::new();
    let ghost n = n_cards as nat;
    proof {
        assert(deck@ =~= full_deck());
        lemma_full_deck_valid_distinct();
        assert(prefix@ =~= Seq::<Card>::empty());
        lemma_deals_all(n);
        assert(counts@ =~= Map::<u64, i32>::empty());
        assert(all_valid(prefix@));
    }
    count_deals(&deck, 0, 2, &mut prefix, n_cards - 2, &mut counts, Ghost(Set::empty()), Ghost(n));
    proof {
        assert(Set::<Seq<Card>>::empty() + dealt_set(n) =~= dealt_set(n));
    }
    counts
}


/// The number of ways to pick `k` of `m` things.
pub open spec fn binomial(m: int, k: nat) -> nat
    decreases m,
{
    if k == 0 {
        1
    } else if m <= 0 {
        0
    } else {
        binomial(m - 1, (k - 1) as nat) + binomial(m - 1, k)
    }
}

/// There are `m` ways to pick one of `m` things.
proof fn lemma_binomial_one(m: int)
    requires
        m >= 0,
    ensures
        binomial(m, 1) == m,
    decreases m,
{
    if m > 0 {
        lemma_binomial_one(m - 1);
        assert(binomial(m - 1, 0) == 1);
        assert(binomial(m, 1) == binomial(m - 1, 0) + binomial(m - 1, 1));
    }
}

/// There are m(m − 1)/2 ways to pick two of `m` things.
proof fn lemma_binomial_two(m: int)
    requires
        m >= 0,
    ensures
        2 * binomial(m, 2) == m * (m - 1),
    decreases m,
{
    if m > 0 {
        lemma_binomial_two(m - 1);
        lemma_binomial_one(m - 1);
        let b = binomial(m - 1, 2);
        assert(binomial(m, 2) == binomial(m - 1, 1) + binomial(m - 1, 2));
        assert(2 * (m - 1 + b) == m * (m - 1)) by (nonlinear_arith)
            requires 2 * b == (m - 1) * (m - 2);
    } else {
        assert(m * (m - 1) == 0) by (nonlinear_arith)
            requires m == 0;
    }
}

/// The sum of the values of `m` under the keys.
pub open spec fn map_total(m: Map<u64, i32>, keys: Set<u64>) -> int
    decreases keys.len(),
{
    if keys.finite() && keys.len() > 0 {
        let x = keys.choose();
        proof {
            lemma_set_empty_equivalency_len(keys);
        }
        m[x] + map_total(m, keys.remove(x))
    } else {
        0
    }
}

/// A card is left after taking some out exactly when it is a card of the sequence and not one
/// of those taken out.
proof fn lemma_without_contains(s: Seq<Card>, p: Seq<Card>, c: Card)
    ensures
        without(s, p).contains(c) <==> s.contains(c) && !p.contains(c),
    decreases s.len(),
{
    if without(s, p).contains(c) {
        lemma_without_member(s, p, c);
    }
    if s.contains(c) && !p.contains(c) && s.len() > 0 {
        let s0 = s.drop_last();
        let r = without(s0, p);
        if s.last() == c {
            assert(without(s, p) == r.push(c));
            assert(without(s, p)[r.len() as int] == c);
        } else {
            let i = choose|i: int| 0 <= i < s.len() && s[i] == c;
            assert(s0[i] == c);
            lemma_without_contains(s0, p, c);
            let j = choose|j: int| 0 <= j < r.len() && r[j] == c;
            if !p.contains(s.last()) {
                assert(without(s, p)[j] == c);
            }
        }
    }
}

/// Distinct cards have no duplicates.
proof fn lemma_distinct_no_duplicates(s: Seq<Card>)
    requires
        distinct_cards(s),
    ensures
        s.no_duplicates(),
{
    assert forall|i: int, j: int| 0 <= i < s.len() && 0 <= j < s.len() && i != j implies s[i] != s[j] by {
        if i > j {
            assert(s[j] != s[i]);
        }
    }
}

/// Taking out of distinct cards some distinct cards among them leaves as many fewer cards.
proof fn lemma_without_len(s: Seq<Card>, p: Seq<Card>)
    requires
        distinct_cards(s),
        distinct_cards(p),
        forall|i: int| 0 <= i < p.len() ==> s.contains(#[trigger] p[i]),
    ensures
        without(s, p).len() == s.len() - p.len(),
{
    let w = without(s, p);
    lemma_without_distinct(s, p);
    lemma_distinct_no_duplicates(w);
    lemma_distinct_no_duplicates(s);
    lemma_distinct_no_duplicates(p);
    w.unique_seq_to_set();
    s.unique_seq_to_set();
    p.unique_seq_to_set();
    let ss = s.to_set();
    let ps = p.to_set();
    assert(w.to_set() =~= ss.difference(ps)) by {
        assert forall|c: Card| w.to_set().contains(c) <==> ss.difference(ps).contains(c) by {
            lemma_without_contains(s, p, c);
        }
    }
    assert(ss.intersect(ps) =~= ps) by {
        assert forall|c: Card| ps.contains(c) implies ss.contains(c) by {
            let i = choose|i: int| 0 <= i < p.len() && p[i] == c;
        }
    }
    lemma_set_difference_len(ss, ps);
}

/// There are C(|s|, k) picks of `k` of distinct cards `s`.
proof fn lemma_picked_len(s: Seq<Card>, k: nat, p: Seq<Card>)
    requires
        distinct_cards(s),
    ensures
        picked_hands(s, k, p).finite(),
        picked_hands(s, k, p).len() == binomial(s.len() as int, k),
    decreases s.len(), k,
{
    if k == 0 {
        lemma_picked_none(s, p);
        assert(Set::<Seq<Card>>::empty().insert(p).len() == 1);
    } else if s.len() == 0 {
        lemma_picked_exhausted(s, k, p);
    } else {
        lemma_picked_split(s, k, p);
        lemma_first_not_in_rest(s);
        let s1 = s.drop_first();
        lemma_picked_len(s1, (k - 1) as nat, p.push(s[0]));
        lemma_picked_len(s1, k, p);
        lemma_set_disjoint_lens(picked_hands(s1, (k - 1) as nat, p.push(s[0])), picked_hands(s1, k, p));
    }
}

/// The prefix and the cards still to pick from are distinct cards of the deck.
spec fn fresh_cards(deck: Seq<Card>, p: Seq<Card>, s: Seq<Card>) -> bool {
    &&& distinct_cards(deck)
    &&& distinct_cards(p + s)
    &&& forall|i: int| 0 <= i < (p + s).len() ==> deck.contains(#[trigger] (p + s)[i])
}

/// There are C(|s|, k) · C(|deck| − |prefix| − k, n_board) deals of `k` hole cards picked from
/// `s` and `n_board` board cards picked from the rest of the deck.
proof fn lemma_deals_len(s: Seq<Card>, k: nat, p: Seq<Card>, deck: Seq<Card>, n_board: nat)
    requires
        fresh_cards(deck, p, s),
    ensures
        deals_of(s, k, p, deck, n_board).finite(),
        deals_of(s, k, p, deck, n_board).len()
            == binomial(s.len() as int, k) * binomial(deck.len() - p.len() - k, n_board),
    decreases s.len(), k,
{
    if k == 0 {
        lemma_deals_none(s, p, deck, n_board);
        assert(distinct_cards(p)) by {
            assert forall|i: int, j: int| 0 <= i < j < p.len() implies p[i] != p[j] by {
                assert((p + s)[i] == p[i] && (p + s)[j] == p[j]);
            }
        }
        assert forall|i: int| 0 <= i < p.len() implies deck.contains(#[trigger] p[i]) by {
            assert((p + s)[i] == p[i]);
        }
        lemma_without_len(deck, p);
        lemma_without_distinct(deck, p);
        lemma_picked_len(without(deck, p), n_board, p);
        assert(binomial(s.len() as int, k) == 1);
    } else if s.len() == 0 {
        lemma_deals_exhausted(s, k, p, deck, n_board);
        assert(binomial(s.len() as int, k) == 0);
        let x = binomial(deck.len() - p.len() - k, n_board);
        assert(0 * x == 0) by (nonlinear_arith);
    } else {
        let c = s[0];
        let s1 = s.drop_first();
        assert(distinct_cards(s)) by {
            assert forall|i: int, j: int| 0 <= i < j < s.len() implies s[i] != s[j] by {
                assert((p + s)[p.len() + i] == s[i] && (p + s)[p.len() + j] == s[j]);
            }
        }
        lemma_deals_split(s, k, p, deck, n_board);
        assert(p.push(c) + s1 =~= p + s);
        assert(fresh_cards(deck, p, s1)) by {
            let q = p + s1;
            assert forall|i: int| 0 <= i < q.len() implies (#[trigger] q[i]) == (p + s)[if i < p.len() { i } else { i + 1 }] by {
            }
            assert forall|i: int, j: int| 0 <= i < j < q.len() implies q[i] != q[j] by {
                let a = if i < p.len() { i } else { i + 1 };
                let b = if j < p.len() { j } else { j + 1 };
                assert(q[i] == (p + s)[a] && q[j] == (p + s)[b]);
            }
            assert forall|i: int| 0 <= i < q.len() implies deck.contains(#[trigger] q[i]) by {
                let a = if i < p.len() { i } else { i + 1 };
                assert(q[i] == (p + s)[a]);
            }
        }
        let da = deals_of(s1, (k - 1) as nat, p.push(c), deck, n_board);
        let db = deals_of(s1, k, p, deck, n_board);
        lemma_deals_len(s1, (k - 1) as nat, p.push(c), deck, n_board);
        lemma_deals_len(s1, k, p, deck, n_board);
        lemma_set_disjoint_lens(da, db);
        let x = binomial(deck.len() - p.len() - k, n_board);
        assert(deck.len() - p.push(c).len() - (k - 1) == deck.len() - p.len() - k);
        let b1 = binomial(s1.len() as int, (k - 1) as nat);
        let b2 = binomial(s1.len() as int, k);
        assert(binomial(s.len() as int, k) == b1 + b2);
        assert(b1 * x + b2 * x == (b1 + b2) * x) by (nonlinear_arith);
        assert(da.len() == b1 * x);
        assert(db.len() == b2 * x);
        assert((da + db).len() == da.len() + db.len());
    }
}

/// There are C(52, 2) · C(50, n − 2) dealt hands of `n` cards.
proof fn lemma_dealt_len(n: nat)
    requires
        2 <= n,
    ensures
        dealt_set(n).finite(),
        dealt_set(n).len() == binomial(52, 2) * binomial(50, (n - 2) as nat),
{
    let d = full_deck();
    let e = Seq::<Card>::empty();
    lemma_full_deck_valid_distinct();
    lemma_deals_all(n);
    assert(d.skip(0) =~= d);
    assert(e + d =~= d);
    assert(fresh_cards(d, e, d)) by {
        assert forall|i: int| 0 <= i < (e + d).len() implies d.contains(#[trigger] (e + d)[i]) by {
            assert((e + d)[i] == d[i]);
        }
    }
    lemma_deals_len(d, 2, e, d, (n - 2) as nat);
}

/// The hands of `s` whose representation has one of the keys.
spec fn hands_with_keys(s: Set<Seq<Card>>, keys: Set<u64>) -> Set<Seq<Card>> {
    s.filter(|h: Seq<Card>| exists|x: u64| #[trigger] keys.contains(x) && iso_code(x, h, true))
}

/// The counts under some keys add up to the number of hands whose representation has one of
/// them.
proof fn lemma_total_of_classes(m: Map<u64, i32>, s: Set<Seq<Card>>, keys: Set<u64>)
    requires
        counts_hands(m, s),
        s.finite(),
        keys.finite(),
        keys.subset_of(m.dom()),
    ensures
        map_total(m, keys) == hands_with_keys(s, keys).len(),
    decreases keys.len(),
{
    if keys.len() == 0 {
        lemma_set_empty_equivalency_len(keys);
        assert(hands_with_keys(s, keys) =~= Set::empty());
    } else {
        lemma_set_empty_equivalency_len(keys);
        let x = keys.choose();
        let rest = keys.remove(x);
        lemma_total_of_classes(m, s, rest);
        let a = hands_with_keys(s, rest);
        let c = class_of(s, x);
        lemma_len_subset(a, s);
        lemma_len_subset(c, s);
        assert(a.disjoint(c)) by {
            assert forall|h: Seq<Card>| a.contains(h) implies !c.contains(h) by {
                let y = choose|y: u64| #[trigger] rest.contains(y) && iso_code(y, h, true);
                if c.contains(h) {
                    lemma_encodes_unique(x, y, card_codes(isomorphic_representation(h, true)));
                }
            }
        }
        assert(hands_with_keys(s, keys) =~= a + c) by {
            assert forall|h: Seq<Card>| hands_with_keys(s, keys).contains(h) implies (a + c).contains(h) by {
                let y = choose|y: u64| #[trigger] keys.contains(y) && iso_code(y, h, true);
                if y != x {
                    assert(rest.contains(y));
                }
            }
            assert forall|h: Seq<Card>| (a + c).contains(h) implies hands_with_keys(s, keys).contains(h) by {
                if a.contains(h) {
                    let y = choose|y: u64| #[trigger] rest.contains(y) && iso_code(y, h, true);
                    assert(keys.contains(y));
                } else {
                    assert(keys.contains(x));
                }
            }
        }
        lemma_set_disjoint_lens(a, c);
        assert(m[x] == c.len());
    }
}

/// The keys of the counts of a finite set of hands are finitely many.
proof fn lemma_count_keys_finite(m: Map<u64, i32>, s: Set<Seq<Card>>)
    requires
        counts_hands(m, s),
        s.finite(),
    ensures
        m.dom().finite(),
{
    let key_of = |h: Seq<Card>| choose|x: u64| #[trigger] m.contains_key(x) && iso_code(x, h, true);
    assert(s.map(key_of) =~= m.dom()) by {
        assert forall|x: u64| #[trigger] s.map(key_of).contains(x) implies m.dom().contains(x) by {
            let h = choose|h: Seq<Card>| s.contains(h) && x == key_of(h);
            assert(exists|y: u64| #[trigger] m.contains_key(y) && iso_code(y, h, true));
        }
        assert forall|x: u64| #[trigger] m.dom().contains(x) implies s.map(key_of).contains(x) by {
            assert(m.contains_key(x));
            let h = choose|h: Seq<Card>| #[trigger] s.contains(h) && iso_code(x, h, true);
            assert(exists|y: u64| #[trigger] m.contains_key(y) && iso_code(y, h, true));
            let y = key_of(h);
            assert(m.contains_key(y) && iso_code(y, h, true));
            lemma_encodes_unique(x, y, card_codes(isomorphic_representation(h, true)));
            assert(s.contains(h) && x == key_of(h));
        }
    }
    lemma_map_size_bound(s, m.dom(), key_of);
}

/// The hand counts add up to the number of hands dealt: C(52, 2) · C(50, n − 2) for hands of
/// `n` cards, where C(52, 2) = 1326 is the number of pairs of hole cards.
pub proof fn law_hand_counts_total(m: Map<u64, i32>, n: nat)
    requires
        2 <= n,
        counts_hands(m, dealt_set(n)),
    ensures
        m.dom().finite(),
        map_total(m, m.dom()) == binomial(52, 2) * binomial(50, (n - 2) as nat),
        binomial(52, 2) == 1326,
{
    lemma_binomial_two(52);
    let s = dealt_set(n);
    lemma_dealt_len(n);
    lemma_count_keys_finite(m, s);
    lemma_total_of_classes(m, s, m.dom());
    assert(hands_with_keys(s, m.dom()) =~= s) by {
        assert forall|h: Seq<Card>| s.contains(h) implies hands_with_keys(s, m.dom()).contains(h) by {
            let x = choose|x: u64| #[trigger] m.contains_key(x) && iso_code(x, h, true);
            assert(m.dom().contains(x));
        }
    }
}

} // verus!
