use vstd::prelude::*;
use crate::card::Card;
use crate::iso::{
    arrangement_of, hole_count, isomorphic_result, lemma_arrangement_member, lemma_sorted_unique,
    lemma_suit_key_order, lemma_suit_ranks_len, law_arrangement_unique, lex_le, occurrences,
    relabel, same_cards, suit_key, suit_key_le, suit_permutation, suit_ranks, suits_ordered,
    lemma_occurrences_concat, lemma_occurrences_single, lemma_occurrences_pos, lemma_occurrences_found,
    card_le, sorted_cards, same_streets, law_isomorphic_order_invariant,
};

verus! {

/// How many of the four suits satisfy `u`.
spec fn count4(u: spec_fn(int) -> bool) -> int {
    (if u(0) { 1int } else { 0int }) + (if u(1) { 1int } else { 0int })
        + (if u(2) { 1int } else { 0int }) + (if u(3) { 1int } else { 0int })
}

/// When the suits at positions 0..=t of a permutation all satisfy `u`, at least t + 1 suits do.
proof fn lemma_count_at_least(p: Seq<u8>, u: spec_fn(int) -> bool, t: int)
    requires
        suit_permutation(p),
        0 <= t < 4,
        forall|x: int| #![trigger p[x]] 0 <= x < 4 && p[x] <= t ==> u(x),
    ensures
        count4(u) >= t + 1,
{
    assert(p[0] < 4 && p[1] < 4 && p[2] < 4 && p[3] < 4);
    assert(p[0] != p[1] && p[0] != p[2] && p[0] != p[3] && p[1] != p[2] && p[1] != p[3] && p[2] != p[3]);
}

/// When every suit that satisfies `u` is at a position below t of a permutation, at most t
/// suits do.
proof fn lemma_count_at_most(p: Seq<u8>, u: spec_fn(int) -> bool, t: int)
    requires
        suit_permutation(p),
        0 <= t < 4,
        forall|x: int| #![trigger p[x]] 0 <= x < 4 && u(x) ==> p[x] < t,
    ensures
        count4(u) <= t,
{
    assert(p[0] < 4 && p[1] < 4 && p[2] < 4 && p[3] < 4);
    assert(p[0] != p[1] && p[0] != p[2] && p[0] != p[3] && p[1] != p[2] && p[1] != p[3] && p[2] != p[3]);
}

/// Two renamings that both order the suits by a total preorder give the suits that take the
/// same new name equivalent places in the order.
proof fn lemma_same_place(le: spec_fn(int, int) -> bool, s1: Seq<u8>, s2: Seq<u8>, a: int, b: int)
    requires
        suit_permutation(s1),
        suit_permutation(s2),
        forall|x: int, y: int| #![trigger le(x, y)] 0 <= x < 4 && 0 <= y < 4 ==> le(x, y) || le(y, x),
        forall|x: int, y: int, z: int| #![trigger le(x, y), le(y, z)] 0 <= x < 4 && 0 <= y < 4 && 0 <= z < 4 && le(x, y) && le(y, z) ==> le(x, z),
        forall|x: int, y: int| #![trigger s1[x], s1[y]] 0 <= x < 4 && 0 <= y < 4 && s1[x] < s1[y] ==> le(x, y),
        forall|x: int, y: int| #![trigger s2[x], s2[y]] 0 <= x < 4 && 0 <= y < 4 && s2[x] < s2[y] ==> le(x, y),
        0 <= a < 4,
        0 <= b < 4,
        s1[a] == s2[b],
    ensures
        le(a, b),
        le(b, a),
{
    let t = s1[a] as int;
    assert(s1[0] < 4 && s1[1] < 4 && s1[2] < 4 && s1[3] < 4);
    if !le(b, a) {
        let u = |x: int| le(x, a);
        assert forall|x: int| 0 <= x < 4 && s1[x] <= t implies u(x) by {
            if s1[x] == t {
                assert(x == a);
            }
        }
        lemma_count_at_least(s1, u, t);
        assert forall|x: int| 0 <= x < 4 && u(x) implies s2[x] < t by {
            if s2[x] >= t {
                if s2[x] == t {
                    assert(x == b);
                } else {
                    assert(le(b, x));
                }
            }
        }
        lemma_count_at_most(s2, u, t);
    }
    if !le(a, b) {
        let u = |x: int| le(x, b);
        assert forall|x: int| 0 <= x < 4 && s2[x] <= t implies u(x) by {
            if s2[x] == t {
                assert(x == b);
            }
        }
        lemma_count_at_least(s2, u, t);
        assert forall|x: int| 0 <= x < 4 && u(x) implies s1[x] < t by {
            if s1[x] >= t {
                if s1[x] == t {
                    assert(x == a);
                } else {
                    assert(le(a, x));
                }
            }
        }
        lemma_count_at_most(s1, u, t);
    }
}

/// The ranks of a suit in two sequences one after the other are those of the first, then those
/// of the second.
proof fn lemma_suit_ranks_concat(x: Seq<Card>, y: Seq<Card>, a: int)
    ensures
        suit_ranks(x + y, a) == suit_ranks(x, a) + suit_ranks(y, a),
    decreases y.len(),
{
    if y.len() == 0 {
        assert(x + y =~= x);
        assert(suit_ranks(x, a) + suit_ranks(y, a) =~= suit_ranks(x, a));
    } else {
        lemma_suit_ranks_concat(x, y.drop_last(), a);
        assert((x + y).drop_last() =~= x + y.drop_last());
        assert((x + y).last() == y.last());
        if y.last().suit == a {
            assert(suit_ranks(x, a) + suit_ranks(y.drop_last(), a).push(y.last().rank)
                =~= (suit_ranks(x, a) + suit_ranks(y.drop_last(), a)).push(y.last().rank));
        }
    }
}

/// Lexicographic order is antisymmetric.
proof fn lemma_lex_antisymmetric(a: Seq<u8>, b: Seq<u8>)
    requires
        lex_le(a, b),
        lex_le(b, a),
        a.len() == b.len(),
    ensures
        a == b,
    decreases a.len(),
{
    if a.len() > 0 {
        lemma_lex_antisymmetric(a.drop_first(), b.drop_first());
        assert(a =~= seq![a[0]] + a.drop_first());
        assert(b =~= seq![b[0]] + b.drop_first());
    } else {
        assert(a =~= b);
    }
}

/// The suit that a renaming gives the new name `t`.
spec fn renamed_from(sigma: Seq<u8>, t: int) -> int {
    choose|a: int| 0 <= a < 4 && sigma[a] == t
}

proof fn lemma_renamed_from(sigma: Seq<u8>, t: int)
    requires
        suit_permutation(sigma),
        0 <= t < 4,
    ensures
        0 <= renamed_from(sigma, t) < 4,
        sigma[renamed_from(sigma, t)] == t,
{
    assert(sigma[0] < 4 && sigma[1] < 4 && sigma[2] < 4 && sigma[3] < 4);
    assert(sigma[0] != sigma[1] && sigma[0] != sigma[2] && sigma[0] != sigma[3]);
    assert(sigma[1] != sigma[2] && sigma[1] != sigma[3] && sigma[2] != sigma[3]);
    if sigma[0] == t {
        assert(exists|a: int| 0 <= a < 4 && sigma[a] == t);
    } else if sigma[1] == t {
        assert(exists|a: int| 0 <= a < 4 && sigma[a] == t);
    } else if sigma[2] == t {
        assert(exists|a: int| 0 <= a < 4 && sigma[a] == t);
    } else {
        assert(sigma[3] == t);
        assert(exists|a: int| 0 <= a < 4 && sigma[a] == t);
    }
}

/// The renamed cards with rank `r` and new suit `t` are the cards of rank `r` of the suit that
/// takes the name `t`.
proof fn lemma_relabel_occurrences(seg: Seq<Card>, sigma: Seq<u8>, r: u8, t: int)
    requires
        suit_permutation(sigma),
        forall|i: int| 0 <= i < seg.len() ==> (#[trigger] seg[i]).suit < 4,
        0 <= t < 4,
    ensures
        occurrences(relabel(seg, sigma), Card { rank: r, suit: t as u8 })
            == occurrences(suit_ranks(seg, renamed_from(sigma, t)), r),
    decreases seg.len(),
{
    lemma_renamed_from(sigma, t);
    if seg.len() > 0 {
        let p = seg.drop_last();
        assert forall|i: int| 0 <= i < p.len() implies (#[trigger] p[i]).suit < 4 by {
            assert(p[i] == seg[i]);
        }
        lemma_relabel_occurrences(p, sigma, r, t);
        let l = seg.last();
        assert(l == seg[seg.len() - 1]);
        assert(relabel(seg, sigma).drop_last() =~= relabel(p, sigma));
        assert(relabel(seg, sigma).last() == Card { rank: l.rank, suit: sigma[l.suit as int] });
        let a = renamed_from(sigma, t);
        assert(sigma[0] != sigma[1] && sigma[0] != sigma[2] && sigma[0] != sigma[3]);
        assert(sigma[1] != sigma[2] && sigma[1] != sigma[3] && sigma[2] != sigma[3]);
        assert((sigma[l.suit as int] == t) == (l.suit == a));
        if l.suit == a {
            assert(suit_ranks(seg, a).drop_last() =~= suit_ranks(p, a));
        }
    } else {
        assert(relabel(seg, sigma) =~= Seq::<Card>::empty());
    }
}

/// Renamed cards never take a name outside the four suits.
proof fn lemma_relabel_no_fifth_suit(seg: Seq<Card>, sigma: Seq<u8>, c: Card)
    requires
        suit_permutation(sigma),
        forall|i: int| 0 <= i < seg.len() ==> (#[trigger] seg[i]).suit < 4,
        c.suit >= 4,
    ensures
        occurrences(relabel(seg, sigma), c) == 0,
    decreases seg.len(),
{
    if seg.len() > 0 {
        let p = seg.drop_last();
        assert forall|i: int| 0 <= i < p.len() implies (#[trigger] p[i]).suit < 4 by {
            assert(p[i] == seg[i]);
        }
        lemma_relabel_no_fifth_suit(p, sigma, c);
        assert(relabel(seg, sigma).drop_last() =~= relabel(p, sigma));
        assert(seg.last() == seg[seg.len() - 1]);
        assert(sigma[seg.last().suit as int] < 4);
    }
}

/// Two renamings that give every new name to suits with the same ranks rename a sequence into
/// the same cards.
proof fn lemma_relabel_same_cards(seg: Seq<Card>, s1: Seq<u8>, s2: Seq<u8>)
    requires
        suit_permutation(s1),
        suit_permutation(s2),
        forall|i: int| 0 <= i < seg.len() ==> (#[trigger] seg[i]).suit < 4,
        forall|t: int| 0 <= t < 4 ==>
            #[trigger] suit_ranks(seg, renamed_from(s1, t)) == suit_ranks(seg, renamed_from(s2, t)),
    ensures
        same_cards(relabel(seg, s1), relabel(seg, s2)),
{
    assert forall|c: Card| #[trigger] occurrences(relabel(seg, s1), c) == occurrences(relabel(seg, s2), c) by {
        if c.suit < 4 {
            let t = c.suit as int;
            assert(c == Card { rank: c.rank, suit: t as u8 });
            lemma_relabel_occurrences(seg, s1, c.rank, t);
            lemma_relabel_occurrences(seg, s2, c.rank, t);
            assert(suit_ranks(seg, renamed_from(s1, t)) == suit_ranks(seg, renamed_from(s2, t)));
        } else {
            lemma_relabel_no_fifth_suit(seg, s1, c);
            lemma_relabel_no_fifth_suit(seg, s2, c);
        }
    }
}

/// Suit keys that come first of each other are equal.
proof fn lemma_suit_key_antisymmetric(a: Seq<u8>, b: Seq<u8>)
    requires
        suit_key_le(a, b),
        suit_key_le(b, a),
    ensures
        a == b,
{
    lemma_lex_antisymmetric(a, b);
}

/// Suits with the same key have the same ranks among the hole cards and among the board cards
/// (among all the cards when the streets are not kept).
proof fn lemma_same_key_same_ranks(arr: Seq<Card>, streets: bool, a: int, b: int)
    requires
        suit_key(arr, a, streets) == suit_key(arr, b, streets),
    ensures
        streets && arr.len() > 2 ==> {
            &&& suit_ranks(arr.take(2), a) == suit_ranks(arr.take(2), b)
            &&& suit_ranks(arr.skip(2), a) == suit_ranks(arr.skip(2), b)
        },
        suit_ranks(arr, a) == suit_ranks(arr, b),
{
    let ka = suit_key(arr, a, streets);
    let kb = suit_key(arr, b, streets);
    assert(ka.drop_first() =~= suit_ranks(arr, a));
    assert(kb.drop_first() =~= suit_ranks(arr, b));
    if streets && arr.len() > 2 {
        let h = arr.take(2);
        let t = arr.skip(2);
        assert(arr =~= h + t);
        lemma_suit_ranks_concat(h, t, a);
        lemma_suit_ranks_concat(h, t, b);
        lemma_suit_ranks_len(h, a);
        lemma_suit_ranks_len(h, b);
        assert(ka[0] == kb[0]);
        let ha = suit_ranks(h, a);
        let hb = suit_ranks(h, b);
        assert(ha.len() == hb.len());
        assert((ha + suit_ranks(t, a)).take(ha.len() as int) =~= ha);
        assert((hb + suit_ranks(t, b)).take(hb.len() as int) =~= hb);
        assert((ha + suit_ranks(t, a)).skip(ha.len() as int) =~= suit_ranks(t, a));
        assert((hb + suit_ranks(t, b)).skip(hb.len() as int) =~= suit_ranks(t, b));
    }
}

/// The same cards as the same cards are the same cards.
proof fn lemma_same_cards_trans(x: Seq<Card>, y: Seq<Card>, z: Seq<Card>)
    requires
        same_cards(x, y),
        same_cards(y, z),
    ensures
        same_cards(x, z),
{
    assert forall|c: Card| #[trigger] occurrences(x, c) == occurrences(z, c) by {
        assert(occurrences(x, c) == occurrences(y, c));
        assert(occurrences(y, c) == occurrences(z, c));
    }
}

/// Same cards the other way round.
proof fn lemma_same_cards_sym(x: Seq<Card>, y: Seq<Card>)
    requires
        same_cards(x, y),
    ensures
        same_cards(y, x),
{
    assert forall|c: Card| #[trigger] occurrences(y, c) == occurrences(x, c) by {
        assert(occurrences(x, c) == occurrences(y, c));
    }
}

/// Taking out one element takes out one occurrence of it.
proof fn lemma_occurrences_remove(s: Seq<Card>, j: int, c: Card)
    requires
        0 <= j < s.len(),
    ensures
        occurrences(s.remove(j), c) + (if s[j] == c { 1int } else { 0int }) == occurrences(s, c),
{
    assert(s =~= s.take(j) + seq![s[j]] + s.skip(j + 1));
    assert(s.remove(j) =~= s.take(j) + s.skip(j + 1));
    lemma_occurrences_concat(s.take(j) + seq![s[j]], s.skip(j + 1), c);
    lemma_occurrences_concat(s.take(j), seq![s[j]], c);
    lemma_occurrences_concat(s.take(j), s.skip(j + 1), c);
    lemma_occurrences_single(s[j], c);
}

/// Sequences with the same cards have the same length.
proof fn lemma_same_cards_len(a: Seq<Card>, b: Seq<Card>)
    requires
        same_cards(a, b),
    ensures
        a.len() == b.len(),
    decreases a.len(),
{
    if a.len() == 0 {
        if b.len() > 0 {
            lemma_occurrences_pos(b, b.len() - 1);
            assert(occurrences(a, b[b.len() - 1]) == 0);
        }
    } else {
        let x = a.last();
        lemma_occurrences_pos(a, a.len() - 1);
        assert(occurrences(b, x) >= 1);
        let j = lemma_occurrences_found(b, x);
        let b2 = b.remove(j);
        assert forall|c: Card| #[trigger] occurrences(a.drop_last(), c) == occurrences(b2, c) by {
            lemma_occurrences_remove(b, j, c);
            assert(a =~= a.drop_last().push(x));
            lemma_occurrences_concat(a.drop_last(), seq![x], c);
            lemma_occurrences_single(x, c);
            assert(occurrences(a, c) == occurrences(b, c));
        }
        lemma_same_cards_len(a.drop_last(), b2);
    }
}

/// Inserts a card into cards ordered by suit and rank, keeping them ordered.
spec fn insert_card(s: Seq<Card>, c: Card) -> Seq<Card>
    decreases s.len(),
{
    if s.len() == 0 {
        seq![c]
    } else if card_le(s.last(), c) {
        s.push(c)
    } else {
        insert_card(s.drop_last(), c).push(s.last())
    }
}

/// The cards ordered by suit and rank.
spec fn sort_spec(s: Seq<Card>) -> Seq<Card>
    decreases s.len(),
{
    if s.len() == 0 { s } else { insert_card(sort_spec(s.drop_last()), s.last()) }
}

proof fn lemma_insert_card(s: Seq<Card>, c: Card)
    requires
        sorted_cards(s),
    ensures
        sorted_cards(insert_card(s, c)),
        insert_card(s, c).len() == s.len() + 1,
        forall|x: Card| #[trigger] occurrences(insert_card(s, c), x)
            == occurrences(s, x) + (if c == x { 1int } else { 0int }),
        insert_card(s, c).last() == c || (s.len() > 0 && insert_card(s, c).last() == s.last()),
    decreases s.len(),
{
    let r = insert_card(s, c);
    if s.len() == 0 {
        assert forall|x: Card| #[trigger] occurrences(r, x) == occurrences(s, x) + (if c == x { 1int } else { 0int }) by {
            lemma_occurrences_single(c, x);
        }
    } else if card_le(s.last(), c) {
        assert(r.drop_last() =~= s);
        assert forall|x: Card| #[trigger] occurrences(r, x) == occurrences(s, x) + (if c == x { 1int } else { 0int }) by {
            assert(r.last() == c);
        }
        assert forall|i: int, j: int| 0 <= i < j < r.len() implies card_le(r[i], r[j]) by {
            if j == r.len() - 1 {
                assert(card_le(s[i], s.last()) || i == s.len() - 1);
            }
        }
    } else {
        let p = s.drop_last();
        assert(sorted_cards(p)) by {
            assert forall|i: int, j: int| 0 <= i < j < p.len() implies card_le(p[i], p[j]) by {
                assert(p[i] == s[i] && p[j] == s[j]);
            }
        }
        lemma_insert_card(p, c);
        let q = insert_card(p, c);
        assert(r == q.push(s.last()));
        assert(r.drop_last() =~= q);
        assert forall|x: Card| #[trigger] occurrences(r, x) == occurrences(s, x) + (if c == x { 1int } else { 0int }) by {
            assert(r.last() == s.last());
            assert(occurrences(q, x) == occurrences(p, x) + (if c == x { 1int } else { 0int }));
        }
        // Every card of `q` is a card of `p` or `c`, both ordered before the last card of `s`.
        assert forall|k: int| 0 <= k < q.len() implies card_le(#[trigger] q[k], s.last()) by {
            lemma_occurrences_pos(q, k);
            assert(occurrences(q, q[k]) == occurrences(p, q[k]) + (if c == q[k] { 1int } else { 0int }));
            if c != q[k] {
                let m = lemma_occurrences_found(p, q[k]);
                assert(p[m] == s[m]);
            }
        }
        assert forall|i: int, j: int| 0 <= i < j < r.len() implies card_le(r[i], r[j]) by {
            if j == r.len() - 1 {
                assert(r[i] == q[i]);
            } else {
                assert(r[i] == q[i] && r[j] == q[j]);
            }
        }
    }
}

proof fn lemma_sort_spec(s: Seq<Card>)
    ensures
        sorted_cards(sort_spec(s)),
        same_cards(sort_spec(s), s),
        sort_spec(s).len() == s.len(),
    decreases s.len(),
{
    if s.len() > 0 {
        lemma_sort_spec(s.drop_last());
        lemma_insert_card(sort_spec(s.drop_last()), s.last());
        assert forall|x: Card| #[trigger] occurrences(sort_spec(s), x) == occurrences(s, x) by {
            assert(s =~= s.drop_last().push(s.last()));
            lemma_occurrences_concat(s.drop_last(), seq![s.last()], x);
            lemma_occurrences_single(s.last(), x);
        }
    }
}

/// Each rank of a suit is the rank of a card of that suit.
proof fn lemma_suit_ranks_member(s: Seq<Card>, a: int, k: int) -> (m: int)
    requires
        0 <= k < suit_ranks(s, a).len(),
    ensures
        0 <= m < s.len(),
        s[m].suit == a,
        s[m].rank == suit_ranks(s, a)[k],
    decreases s.len(),
{
    let p = s.drop_last();
    let sr = suit_ranks(s, a);
    if s.last().suit == a && k == sr.len() - 1 {
        s.len() - 1
    } else {
        assert(suit_ranks(p, a)[k] == sr[k]);
        let m = lemma_suit_ranks_member(p, a, k);
        assert(p[m] == s[m]);
        m
    }
}

/// The ranks of a suit of cards ordered by suit and rank come in increasing order.
proof fn lemma_suit_ranks_sorted(s: Seq<Card>, a: int)
    requires
        sorted_cards(s),
    ensures
        forall|i: int, j: int| 0 <= i < j < suit_ranks(s, a).len() ==>
            suit_ranks(s, a)[i] <= suit_ranks(s, a)[j],
    decreases s.len(),
{
    if s.len() > 0 {
        let p = s.drop_last();
        assert(sorted_cards(p)) by {
            assert forall|i: int, j: int| 0 <= i < j < p.len() implies card_le(p[i], p[j]) by {
                assert(p[i] == s[i] && p[j] == s[j]);
            }
        }
        lemma_suit_ranks_sorted(p, a);
        let l = s.last();
        let sp = suit_ranks(p, a);
        if l.suit == a {
            assert forall|i: int| 0 <= i < sp.len() implies sp[i] <= l.rank by {
                let m = lemma_suit_ranks_member(p, a, i);
                assert(p[m] == s[m]);
                assert(card_le(s[m], s[s.len() - 1]));
            }
        }
    }
}

/// The occurrences of a rank among the ranks of a suit are those of the card.
proof fn lemma_suit_ranks_occurrences(s: Seq<Card>, a: int, r: u8)
    requires
        0 <= a < 4,
    ensures
        occurrences(suit_ranks(s, a), r) == occurrences(s, Card { rank: r, suit: a as u8 }),
    decreases s.len(),
{
    if s.len() > 0 {
        lemma_suit_ranks_occurrences(s.drop_last(), a, r);
        if s.last().suit == a {
            assert(suit_ranks(s, a).drop_last() =~= suit_ranks(s.drop_last(), a));
        }
    }
}

/// Two increasing sequences of ranks that hold the same ranks are equal.
proof fn lemma_sorted_ranks_unique(x: Seq<u8>, y: Seq<u8>)
    requires
        forall|i: int, j: int| 0 <= i < j < x.len() ==> x[i] <= x[j],
        forall|i: int, j: int| 0 <= i < j < y.len() ==> y[i] <= y[j],
        forall|r: u8| #[trigger] occurrences(x, r) == occurrences(y, r),
    ensures
        x == y,
    decreases x.len() + y.len(),
{
    if x.len() == 0 && y.len() == 0 {
        assert(x =~= y);
    } else if x.len() == 0 {
        lemma_occurrences_pos(y, y.len() - 1);
        assert(occurrences(x, y.last()) == 0);
    } else if y.len() == 0 {
        lemma_occurrences_pos(x, x.len() - 1);
        assert(occurrences(y, x.last()) == 0);
    } else {
        lemma_occurrences_pos(x, x.len() - 1);
        lemma_occurrences_pos(y, y.len() - 1);
        assert(occurrences(y, x.last()) >= 1);
        assert(occurrences(x, y.last()) >= 1);
        let j = lemma_occurrences_found(y, x.last());
        let i = lemma_occurrences_found(x, y.last());
        assert(y[j] <= y.last());
        assert(x[i] <= x.last());
        assert(x.last() == y.last());
        assert forall|r: u8| #[trigger] occurrences(x.drop_last(), r) == occurrences(y.drop_last(), r) by {
            assert(occurrences(x, r) == occurrences(y, r));
        }
        lemma_sorted_ranks_unique(x.drop_last(), y.drop_last());
        assert(x =~= x.drop_last().push(x.last()));
        assert(y =~= y.drop_last().push(y.last()));
    }
}

/// In sorted cards that hold the cards of `seg` renamed by `tau`, each suit has the ranks of the
/// suit of `seg` that takes its name.
proof fn lemma_renamed_ranks(seg: Seq<Card>, seg2: Seq<Card>, tau: Seq<u8>, t: int)
    requires
        sorted_cards(seg),
        sorted_cards(seg2),
        same_cards(seg2, relabel(seg, tau)),
        suit_permutation(tau),
        forall|i: int| 0 <= i < seg.len() ==> (#[trigger] seg[i]).suit < 4,
        0 <= t < 4,
    ensures
        suit_ranks(seg2, t) == suit_ranks(seg, renamed_from(tau, t)),
{
    lemma_renamed_from(tau, t);
    let a = renamed_from(tau, t);
    lemma_suit_ranks_sorted(seg2, t);
    lemma_suit_ranks_sorted(seg, a);
    assert forall|r: u8| #[trigger] occurrences(suit_ranks(seg2, t), r) == occurrences(suit_ranks(seg, a), r) by {
        lemma_suit_ranks_occurrences(seg2, t, r);
        lemma_relabel_occurrences(seg, tau, r, t);
        assert(occurrences(seg2, Card { rank: r, suit: t as u8 }) == occurrences(relabel(seg, tau), Card { rank: r, suit: t as u8 }));
    }
    lemma_sorted_ranks_unique(suit_ranks(seg2, t), suit_ranks(seg, a));
}

/// The renaming `sigma` after undoing `tau`: the suit that `tau` names `t` gets the name that
/// `sigma` gives it.
spec fn compose_renaming(sigma: Seq<u8>, tau: Seq<u8>) -> Seq<u8> {
    Seq::new(4, |t: int| sigma[renamed_from(tau, t)])
}

proof fn lemma_compose_renaming(sigma: Seq<u8>, tau: Seq<u8>)
    requires
        suit_permutation(sigma),
        suit_permutation(tau),
    ensures
        suit_permutation(compose_renaming(sigma, tau)),
        forall|t: int| 0 <= t < 4 ==>
            (#[trigger] compose_renaming(sigma, tau)[t]) == sigma[renamed_from(tau, t)],
{
    let c = compose_renaming(sigma, tau);
    lemma_renamed_from(tau, 0);
    lemma_renamed_from(tau, 1);
    lemma_renamed_from(tau, 2);
    lemma_renamed_from(tau, 3);
    assert forall|a: int| 0 <= a < 4 implies #[trigger] c[a] < 4 by {
        lemma_renamed_from(tau, a);
    }
    assert forall|a: int, b: int| 0 <= a < b < 4 implies c[a] != c[b] by {
        lemma_renamed_from(tau, a);
        lemma_renamed_from(tau, b);
        let ra = renamed_from(tau, a);
        let rb = renamed_from(tau, b);
        assert(ra != rb);
        if ra < rb {
            assert(sigma[ra] != sigma[rb]);
        } else {
            assert(sigma[rb] != sigma[ra]);
        }
    }
}

/// Renaming keeps two sequences with the same cards with the same cards.
proof fn lemma_relabel_keeps_same_cards(x: Seq<Card>, y: Seq<Card>, tau: Seq<u8>)
    requires
        same_cards(x, y),
        suit_permutation(tau),
        forall|i: int| 0 <= i < x.len() ==> (#[trigger] x[i]).suit < 4,
        forall|i: int| 0 <= i < y.len() ==> (#[trigger] y[i]).suit < 4,
    ensures
        same_cards(relabel(x, tau), relabel(y, tau)),
{
    assert forall|c: Card| #[trigger] occurrences(relabel(x, tau), c) == occurrences(relabel(y, tau), c) by {
        if c.suit < 4 {
            let t = c.suit as int;
            assert(c == Card { rank: c.rank, suit: t as u8 });
            lemma_relabel_occurrences(x, tau, c.rank, t);
            lemma_relabel_occurrences(y, tau, c.rank, t);
            lemma_renamed_from(tau, t);
            let a = renamed_from(tau, t);
            lemma_suit_ranks_occurrences(x, a, c.rank);
            lemma_suit_ranks_occurrences(y, a, c.rank);
            assert(occurrences(x, Card { rank: c.rank, suit: a as u8 }) == occurrences(y, Card { rank: c.rank, suit: a as u8 }));
        } else {
            lemma_relabel_no_fifth_suit(x, tau, c);
            lemma_relabel_no_fifth_suit(y, tau, c);
        }
    }
}

/// A segment of an arrangement and a sorted segment with its cards renamed by `tau`: the suits
/// correspond, and renaming the second by `sigma` after undoing `tau` gives the cards of
/// renaming the first by `sigma`.
proof fn lemma_renamed_segment(seg: Seq<Card>, seg2: Seq<Card>, sigma: Seq<u8>, tau: Seq<u8>)
    requires
        sorted_cards(seg),
        sorted_cards(seg2),
        same_cards(seg2, relabel(seg, tau)),
        suit_permutation(sigma),
        suit_permutation(tau),
        forall|i: int| 0 <= i < seg.len() ==> (#[trigger] seg[i]).suit < 4,
    ensures
        forall|x: int| 0 <= x < 4 ==> #[trigger] suit_ranks(seg2, x) == suit_ranks(seg, renamed_from(tau, x)),
        same_cards(relabel(seg2, compose_renaming(sigma, tau)), relabel(seg, sigma)),
{
    assert forall|x: int| 0 <= x < 4 implies #[trigger] suit_ranks(seg2, x) == suit_ranks(seg, renamed_from(tau, x)) by {
        lemma_renamed_ranks(seg, seg2, tau, x);
    }
    let s2 = compose_renaming(sigma, tau);
    lemma_compose_renaming(sigma, tau);
    lemma_same_cards_len(seg2, relabel(seg, tau));
    assert forall|i: int| 0 <= i < seg2.len() implies (#[trigger] seg2[i]).suit < 4 by {
        lemma_occurrences_pos(seg2, i);
        let j = lemma_occurrences_found(relabel(seg, tau), seg2[i]);
        assert(relabel(seg, tau)[j].suit == tau[seg[j].suit as int]);
    }
    assert forall|c: Card| #[trigger] occurrences(relabel(seg2, s2), c) == occurrences(relabel(seg, sigma), c) by {
        if c.suit < 4 {
            let t = c.suit as int;
            assert(c == Card { rank: c.rank, suit: t as u8 });
            lemma_relabel_occurrences(seg2, s2, c.rank, t);
            lemma_relabel_occurrences(seg, sigma, c.rank, t);
            lemma_renamed_from(s2, t);
            lemma_renamed_from(sigma, t);
            let x = renamed_from(s2, t);
            lemma_renamed_from(tau, x);
            assert(sigma[renamed_from(tau, x)] == t);
            let a = renamed_from(tau, x);
            let b = renamed_from(sigma, t);
            assert(sigma[0] != sigma[1] && sigma[0] != sigma[2] && sigma[0] != sigma[3]);
            assert(sigma[1] != sigma[2] && sigma[1] != sigma[3] && sigma[2] != sigma[3]);
            assert(a == b);
            assert(suit_ranks(seg2, x) == suit_ranks(seg, a));
        } else {
            lemma_relabel_no_fifth_suit(seg2, s2, c);
            lemma_relabel_no_fifth_suit(seg, sigma, c);
        }
    }
}

/// The isomorphic representation of a hand is unique: whichever of the arrangements and
/// renamings that `isomorphic_hand` allows is taken (suits with the same key may take their new
/// names in either order), the representation is the same.
pub proof fn law_isomorphic_unique(
    res1: Seq<Card>,
    res2: Seq<Card>,
    cards: Seq<Card>,
    streets: bool,
    s1: Seq<u8>,
    arr1: Seq<Card>,
    s2: Seq<u8>,
    arr2: Seq<Card>,
)
    requires
        forall|i: int| 0 <= i < cards.len() ==> (#[trigger] cards[i]).suit < 4,
        isomorphic_result(res1, cards, streets, s1, arr1),
        isomorphic_result(res2, cards, streets, s2, arr2),
    ensures
        res1 == res2,
{
    law_arrangement_unique(arr1, arr2, cards, streets);
    let arr = arr1;
    assert forall|i: int| 0 <= i < arr.len() implies (#[trigger] arr[i]).suit < 4 by {
        let j = lemma_arrangement_member(arr, cards, streets, i);
    }
    let le = |x: int, y: int| suit_key_le(suit_key(arr, x, streets), suit_key(arr, y, streets));
    assert forall|x: int, y: int| #![trigger le(x, y)] 0 <= x < 4 && 0 <= y < 4 implies le(x, y) || le(y, x) by {
        lemma_suit_key_order(suit_key(arr, x, streets), suit_key(arr, y, streets), suit_key(arr, y, streets));
    }
    assert forall|x: int, y: int, z: int| #![trigger le(x, y), le(y, z)]
        0 <= x < 4 && 0 <= y < 4 && 0 <= z < 4 && le(x, y) && le(y, z) implies le(x, z) by {
        lemma_suit_key_order(suit_key(arr, x, streets), suit_key(arr, y, streets), suit_key(arr, z, streets));
    }
    assert forall|x: int, y: int| #![trigger s1[x], s1[y]] 0 <= x < 4 && 0 <= y < 4 && s1[x] < s1[y] implies le(x, y) by {
        assert(suits_ordered(arr, s1, streets));
    }
    assert forall|x: int, y: int| #![trigger s2[x], s2[y]] 0 <= x < 4 && 0 <= y < 4 && s2[x] < s2[y] implies le(x, y) by {
        assert(suits_ordered(arr, s2, streets));
    }
    // The suits that take each new name have the same key, hence the same ranks.
    assert forall|t: int| 0 <= t < 4 implies
        suit_key(arr, #[trigger] renamed_from(s1, t), streets) == suit_key(arr, renamed_from(s2, t), streets) by {
        lemma_renamed_from(s1, t);
        lemma_renamed_from(s2, t);
        lemma_same_place(le, s1, s2, renamed_from(s1, t), renamed_from(s2, t));
        lemma_suit_key_antisymmetric(
            suit_key(arr, renamed_from(s1, t), streets),
            suit_key(arr, renamed_from(s2, t), streets),
        );
    }
    if streets && cards.len() > 2 {
        let h = arr.take(2);
        let b = arr.skip(2);
        assert forall|i: int| 0 <= i < h.len() implies (#[trigger] h[i]).suit < 4 by {
            assert(h[i] == arr[i]);
        }
        assert forall|i: int| 0 <= i < b.len() implies (#[trigger] b[i]).suit < 4 by {
            assert(b[i] == arr[i + 2]);
        }
        assert forall|t: int| 0 <= t < 4 implies
            #[trigger] suit_ranks(h, renamed_from(s1, t)) == suit_ranks(h, renamed_from(s2, t)) by {
            assert(suit_key(arr, renamed_from(s1, t), streets) == suit_key(arr, renamed_from(s2, t), streets));
            lemma_same_key_same_ranks(arr, streets, renamed_from(s1, t), renamed_from(s2, t));
        }
        assert forall|t: int| 0 <= t < 4 implies
            #[trigger] suit_ranks(b, renamed_from(s1, t)) == suit_ranks(b, renamed_from(s2, t)) by {
            assert(suit_key(arr, renamed_from(s1, t), streets) == suit_key(arr, renamed_from(s2, t), streets));
            lemma_same_key_same_ranks(arr, streets, renamed_from(s1, t), renamed_from(s2, t));
        }
        lemma_relabel_same_cards(h, s1, s2);
        lemma_relabel_same_cards(b, s1, s2);
        assert(relabel(arr, s1).take(2) =~= relabel(h, s1));
        assert(relabel(arr, s2).take(2) =~= relabel(h, s2));
        assert(relabel(arr, s1).skip(2) =~= relabel(b, s1));
        assert(relabel(arr, s2).skip(2) =~= relabel(b, s2));
        assert(relabel(arr, s1).len() == cards.len());
        lemma_same_cards_trans(res1.take(2), relabel(h, s1), relabel(h, s2));
        lemma_same_cards_sym(res2.take(2), relabel(h, s2));
        lemma_same_cards_trans(res1.take(2), relabel(h, s2), res2.take(2));
        lemma_sorted_unique(res1.take(2), res2.take(2));
        lemma_same_cards_trans(res1.skip(2), relabel(b, s1), relabel(b, s2));
        lemma_same_cards_sym(res2.skip(2), relabel(b, s2));
        lemma_same_cards_trans(res1.skip(2), relabel(b, s2), res2.skip(2));
        lemma_sorted_unique(res1.skip(2), res2.skip(2));
        assert(res1 =~= res1.take(2) + res1.skip(2));
        assert(res2 =~= res2.take(2) + res2.skip(2));
    } else {
        lemma_same_cards_len(arr, cards);
        assert forall|t: int| 0 <= t < 4 implies
            #[trigger] suit_ranks(arr, renamed_from(s1, t)) == suit_ranks(arr, renamed_from(s2, t)) by {
            assert(suit_key(arr, renamed_from(s1, t), streets) == suit_key(arr, renamed_from(s2, t), streets));
            lemma_same_key_same_ranks(arr, streets, renamed_from(s1, t), renamed_from(s2, t));
        }
        lemma_relabel_same_cards(arr, s1, s2);
        lemma_same_cards_trans(res1, relabel(arr, s1), relabel(arr, s2));
        lemma_same_cards_sym(res2, relabel(arr, s2));
        lemma_same_cards_trans(res1, relabel(arr, s2), res2);
        lemma_sorted_unique(res1, res2);
    }
}

/// Suit isomorphism: renaming the suits of a hand (a flush of hearts is the same as a flush of
/// diamonds) does not change its isomorphic representation. A representation of a hand is a
/// representation of the hand with its suits renamed by any permutation `tau`.
pub proof fn law_isomorphic_suit_invariant(
    res: Seq<Card>,
    cards: Seq<Card>,
    streets: bool,
    sigma: Seq<u8>,
    arr: Seq<Card>,
    tau: Seq<u8>,
)
    requires
        forall|i: int| 0 <= i < cards.len() ==> (#[trigger] cards[i]).suit < 4,
        suit_permutation(tau),
        isomorphic_result(res, cards, streets, sigma, arr),
    ensures
        exists|s2: Seq<u8>, arr2: Seq<Card>| #[trigger] isomorphic_result(res, relabel(cards, tau), streets, s2, arr2),
{
    let c2 = relabel(cards, tau);
    let s2 = compose_renaming(sigma, tau);
    lemma_compose_renaming(sigma, tau);
    assert forall|i: int| 0 <= i < arr.len() implies (#[trigger] arr[i]).suit < 4 by {
        let j = lemma_arrangement_member(arr, cards, streets, i);
    }
    if streets && cards.len() > 2 {
        let h = arr.take(2);
        let b = arr.skip(2);
        assert forall|i: int| 0 <= i < h.len() implies (#[trigger] h[i]).suit < 4 by {
            assert(h[i] == arr[i]);
        }
        assert forall|i: int| 0 <= i < b.len() implies (#[trigger] b[i]).suit < 4 by {
            assert(b[i] == arr[i + 2]);
        }
        let h2 = sort_spec(relabel(h, tau));
        let b2 = sort_spec(relabel(b, tau));
        lemma_sort_spec(relabel(h, tau));
        lemma_sort_spec(relabel(b, tau));
        let arr2 = h2 + b2;
        assert(arr2.take(2) =~= h2);
        assert(arr2.skip(2) =~= b2);
        assert(arr =~= h + b);
        // The arrangement of the renamed hand.
        let ch = cards.take(2);
        let cb = cards.skip(2);
        assert forall|i: int| 0 <= i < ch.len() implies (#[trigger] ch[i]).suit < 4 by {
            assert(ch[i] == cards[i]);
        }
        assert forall|i: int| 0 <= i < cb.len() implies (#[trigger] cb[i]).suit < 4 by {
            assert(cb[i] == cards[i + 2]);
        }
        lemma_relabel_keeps_same_cards(h, ch, tau);
        lemma_relabel_keeps_same_cards(b, cb, tau);
        assert(relabel(ch, tau) =~= c2.take(2));
        assert(relabel(cb, tau) =~= c2.skip(2));
        lemma_same_cards_trans(h2, relabel(h, tau), c2.take(2));
        lemma_same_cards_trans(b2, relabel(b, tau), c2.skip(2));
        assert(arrangement_of(arr2, c2, streets));
        // The suits keep their keys under the renaming.
        lemma_renamed_segment(h, h2, sigma, tau);
        lemma_renamed_segment(b, b2, sigma, tau);
        assert forall|x: int| 0 <= x < 4 implies
            #[trigger] suit_key(arr2, x, streets) == suit_key(arr, renamed_from(tau, x), streets) by {
            let a = renamed_from(tau, x);
            lemma_suit_ranks_concat(h2, b2, x);
            lemma_suit_ranks_concat(h, b, a);
            assert(suit_ranks(h2, x) == suit_ranks(h, a));
            assert(suit_ranks(b2, x) == suit_ranks(b, a));
            assert(suit_ranks(arr2, x) == suit_ranks(arr, a));
            assert(hole_count(arr2, x, streets) == hole_count(arr, a, streets));
        }
        assert(suits_ordered(arr2, s2, streets)) by {
            assert forall|x: int, y: int| 0 <= x < 4 && 0 <= y < 4 && s2[x] < s2[y] implies
                suit_key_le(#[trigger] suit_key(arr2, x, streets), #[trigger] suit_key(arr2, y, streets)) by {
                lemma_renamed_from(tau, x);
                lemma_renamed_from(tau, y);
                assert(suits_ordered(arr, sigma, streets));
                assert(sigma[renamed_from(tau, x)] < sigma[renamed_from(tau, y)]);
                assert(suit_key(arr2, x, streets) == suit_key(arr, renamed_from(tau, x), streets));
                assert(suit_key(arr2, y, streets) == suit_key(arr, renamed_from(tau, y), streets));
            }
        }
        // The renamed arrangement holds the cards that `res` arranges.
        let r1 = relabel(arr, sigma);
        let r2 = relabel(arr2, s2);
        assert(r1.take(2) =~= relabel(h, sigma));
        assert(r1.skip(2) =~= relabel(b, sigma));
        assert(r2.take(2) =~= relabel(h2, s2));
        assert(r2.skip(2) =~= relabel(b2, s2));
        lemma_same_cards_sym(relabel(h2, s2), relabel(h, sigma));
        lemma_same_cards_sym(relabel(b2, s2), relabel(b, sigma));
        lemma_same_cards_trans(res.take(2), relabel(h, sigma), relabel(h2, s2));
        lemma_same_cards_trans(res.skip(2), relabel(b, sigma), relabel(b2, s2));
        assert(arrangement_of(res, r2, streets));
        assert(isomorphic_result(res, c2, streets, s2, arr2));
    } else {
        lemma_same_cards_len(arr, cards);
        let arr2 = sort_spec(relabel(arr, tau));
        lemma_sort_spec(relabel(arr, tau));
        lemma_relabel_keeps_same_cards(arr, cards, tau);
        lemma_same_cards_trans(arr2, relabel(arr, tau), c2);
        assert(arrangement_of(arr2, c2, streets));
        lemma_renamed_segment(arr, arr2, sigma, tau);
        assert forall|x: int| 0 <= x < 4 implies
            #[trigger] suit_key(arr2, x, streets) == suit_key(arr, renamed_from(tau, x), streets) by {
            assert(suit_ranks(arr2, x) == suit_ranks(arr, renamed_from(tau, x)));
        }
        assert(suits_ordered(arr2, s2, streets)) by {
            assert forall|x: int, y: int| 0 <= x < 4 && 0 <= y < 4 && s2[x] < s2[y] implies
                suit_key_le(#[trigger] suit_key(arr2, x, streets), #[trigger] suit_key(arr2, y, streets)) by {
                lemma_renamed_from(tau, x);
                lemma_renamed_from(tau, y);
                assert(suits_ordered(arr, sigma, streets));
                assert(sigma[renamed_from(tau, x)] < sigma[renamed_from(tau, y)]);
                assert(suit_key(arr2, x, streets) == suit_key(arr, renamed_from(tau, x), streets));
                assert(suit_key(arr2, y, streets) == suit_key(arr, renamed_from(tau, y), streets));
            }
        }
        lemma_same_cards_sym(relabel(arr2, s2), relabel(arr, sigma));
        lemma_same_cards_trans(res, relabel(arr, sigma), relabel(arr2, s2));
        assert(arrangement_of(res, relabel(arr2, s2), streets));
        assert(isomorphic_result(res, c2, streets, s2, arr2));
    }
}

/// Isomorphic hands get the same representation: when one hand is another with its suits
/// renamed and its hole cards and its board cards each in any order, `isomorphic_hand` gives
/// both the same cards.
pub proof fn law_isomorphic_hands_agree(
    res1: Seq<Card>,
    c1: Seq<Card>,
    s1: Seq<u8>,
    arr1: Seq<Card>,
    res2: Seq<Card>,
    c2: Seq<Card>,
    s2: Seq<u8>,
    arr2: Seq<Card>,
    streets: bool,
    tau: Seq<u8>,
)
    requires
        forall|i: int| 0 <= i < c1.len() ==> (#[trigger] c1[i]).suit < 4,
        forall|i: int| 0 <= i < c2.len() ==> (#[trigger] c2[i]).suit < 4,
        suit_permutation(tau),
        same_streets(relabel(c1, tau), c2, streets),
        isomorphic_result(res1, c1, streets, s1, arr1),
        isomorphic_result(res2, c2, streets, s2, arr2),
    ensures
        res1 == res2,
{
    law_isomorphic_suit_invariant(res1, c1, streets, s1, arr1, tau);
    let (s3, arr3) = choose|s3: Seq<u8>, arr3: Seq<Card>|
        #[trigger] isomorphic_result(res1, relabel(c1, tau), streets, s3, arr3);
    law_isomorphic_order_invariant(res1, relabel(c1, tau), c2, streets, s3, arr3);
    law_isomorphic_unique(res1, res2, c2, streets, s3, arr3, s2, arr2);
}


/// Cards whose renamings by one renaming hold the same cards hold the same cards.
proof fn lemma_unrelabel_same_cards(x: Seq<Card>, y: Seq<Card>, sigma: Seq<u8>)
    requires
        same_cards(relabel(x, sigma), relabel(y, sigma)),
        suit_permutation(sigma),
        forall|i: int| 0 <= i < x.len() ==> (#[trigger] x[i]).suit < 4,
        forall|i: int| 0 <= i < y.len() ==> (#[trigger] y[i]).suit < 4,
    ensures
        same_cards(x, y),
{
    assert forall|c: Card| #[trigger] occurrences(x, c) == occurrences(y, c) by {
        if c.suit < 4 {
            let s = c.suit as int;
            let t = sigma[s] as int;
            assert(t < 4);
            lemma_renamed_from(sigma, t);
            let a = renamed_from(sigma, t);
            assert(sigma[0] != sigma[1] && sigma[0] != sigma[2] && sigma[0] != sigma[3]);
            assert(sigma[1] != sigma[2] && sigma[1] != sigma[3] && sigma[2] != sigma[3]);
            assert(a == s);
            lemma_relabel_occurrences(x, sigma, c.rank, t);
            lemma_relabel_occurrences(y, sigma, c.rank, t);
            lemma_suit_ranks_occurrences(x, s, c.rank);
            lemma_suit_ranks_occurrences(y, s, c.rank);
            assert(c == Card { rank: c.rank, suit: s as u8 });
            assert(occurrences(relabel(x, sigma), Card { rank: c.rank, suit: t as u8 })
                == occurrences(relabel(y, sigma), Card { rank: c.rank, suit: t as u8 }));
        } else {
            if occurrences(x, c) >= 1 {
                let i = lemma_occurrences_found(x, c);
                assert(x[i].suit < 4);
            }
            if occurrences(y, c) >= 1 {
                let i = lemma_occurrences_found(y, c);
                assert(y[i].suit < 4);
            }
        }
    }
}

/// The cards of an arrangement have suits below four when the arranged cards do.
proof fn lemma_arrangement_suits(r: Seq<Card>, cs: Seq<Card>, streets: bool)
    requires
        arrangement_of(r, cs, streets),
        forall|i: int| 0 <= i < cs.len() ==> (#[trigger] cs[i]).suit < 4,
    ensures
        forall|i: int| 0 <= i < r.len() ==> (#[trigger] r[i]).suit < 4,
{
    assert forall|i: int| 0 <= i < r.len() implies (#[trigger] r[i]).suit < 4 by {
        let j = lemma_arrangement_member(r, cs, streets, i);
        assert(cs[j].suit < 4);
    }
}

/// The length of an arrangement is that of the arranged cards.
proof fn lemma_arrangement_len(r: Seq<Card>, cs: Seq<Card>, streets: bool)
    requires
        arrangement_of(r, cs, streets),
    ensures
        r.len() == cs.len(),
{
    if !(streets && cs.len() > 2) {
        lemma_same_cards_len(r, cs);
    }
}

/// A representation and the renaming of the suits that gives it determine the hole cards and
/// the board cards of a hand: two hands that one renaming turns into the same representation
/// have the same hole cards and the same board cards (the same cards, when the streets are not
/// kept).
pub proof fn lemma_renaming_determines_streets(
    res: Seq<Card>,
    h1: Seq<Card>,
    h2: Seq<Card>,
    streets: bool,
    sigma: Seq<u8>,
    a1: Seq<Card>,
    a2: Seq<Card>,
)
    requires
        forall|i: int| 0 <= i < h1.len() ==> (#[trigger] h1[i]).suit < 4,
        forall|i: int| 0 <= i < h2.len() ==> (#[trigger] h2[i]).suit < 4,
        isomorphic_result(res, h1, streets, sigma, a1),
        isomorphic_result(res, h2, streets, sigma, a2),
    ensures
        same_streets(h1, h2, streets),
{
    lemma_arrangement_len(a1, h1, streets);
    lemma_arrangement_len(a2, h2, streets);
    let r1 = relabel(a1, sigma);
    let r2 = relabel(a2, sigma);
    lemma_arrangement_len(res, r1, streets);
    lemma_arrangement_len(res, r2, streets);
    lemma_arrangement_suits(a1, h1, streets);
    lemma_arrangement_suits(a2, h2, streets);
    assert(h1.len() == h2.len());
    if streets && h1.len() > 2 {
        assert(relabel(a1.take(2), sigma) =~= r1.take(2));
        assert(relabel(a2.take(2), sigma) =~= r2.take(2));
        assert(relabel(a1.skip(2), sigma) =~= r1.skip(2));
        assert(relabel(a2.skip(2), sigma) =~= r2.skip(2));
        lemma_same_cards_sym(res.take(2), r1.take(2));
        lemma_same_cards_trans(r1.take(2), res.take(2), r2.take(2));
        lemma_same_cards_sym(res.skip(2), r1.skip(2));
        lemma_same_cards_trans(r1.skip(2), res.skip(2), r2.skip(2));
        lemma_unrelabel_same_cards(a1.take(2), a2.take(2), sigma);
        lemma_unrelabel_same_cards(a1.skip(2), a2.skip(2), sigma);
        lemma_same_cards_sym(a1.take(2), h1.take(2));
        lemma_same_cards_trans(h1.take(2), a1.take(2), a2.take(2));
        lemma_same_cards_trans(h1.take(2), a2.take(2), h2.take(2));
        lemma_same_cards_sym(a1.skip(2), h1.skip(2));
        lemma_same_cards_trans(h1.skip(2), a1.skip(2), a2.skip(2));
        lemma_same_cards_trans(h1.skip(2), a2.skip(2), h2.skip(2));
    } else {
        lemma_same_cards_sym(res, r1);
        lemma_same_cards_trans(r1, res, r2);
        lemma_unrelabel_same_cards(a1, a2, sigma);
        lemma_same_cards_sym(a1, h1);
        lemma_same_cards_trans(h1, a1, a2);
        lemma_same_cards_trans(h1, a2, h2);
    }
}

/// The representation of a representation is itself: `isomorphic_hand` applied to its own
/// result gives the same cards.
pub proof fn law_isomorphic_idempotent(
    r1: Seq<Card>,
    cards: Seq<Card>,
    streets: bool,
    s1: Seq<u8>,
    a1: Seq<Card>,
    r2: Seq<Card>,
    s2: Seq<u8>,
    a2: Seq<Card>,
)
    requires
        forall|i: int| 0 <= i < cards.len() ==> (#[trigger] cards[i]).suit < 4,
        isomorphic_result(r1, cards, streets, s1, a1),
        isomorphic_result(r2, r1, streets, s2, a2),
    ensures
        r2 == r1,
{
    lemma_arrangement_len(a1, cards, streets);
    lemma_arrangement_suits(a1, cards, streets);
    let ra = relabel(a1, s1);
    let rc = relabel(cards, s1);
    assert forall|i: int| 0 <= i < ra.len() implies (#[trigger] ra[i]).suit < 4 by {
        assert(a1[i].suit < 4);
    }
    lemma_arrangement_len(r1, ra, streets);
    lemma_arrangement_suits(r1, ra, streets);
    if streets && cards.len() > 2 {
        assert(relabel(a1.take(2), s1) =~= ra.take(2));
        assert(relabel(cards.take(2), s1) =~= rc.take(2));
        assert(relabel(a1.skip(2), s1) =~= ra.skip(2));
        assert(relabel(cards.skip(2), s1) =~= rc.skip(2));
        lemma_relabel_keeps_same_cards(a1.take(2), cards.take(2), s1);
        lemma_relabel_keeps_same_cards(a1.skip(2), cards.skip(2), s1);
        lemma_same_cards_sym(ra.take(2), rc.take(2));
        lemma_same_cards_sym(r1.take(2), ra.take(2));
        lemma_same_cards_trans(rc.take(2), ra.take(2), r1.take(2));
        lemma_same_cards_sym(ra.skip(2), rc.skip(2));
        lemma_same_cards_sym(r1.skip(2), ra.skip(2));
        lemma_same_cards_trans(rc.skip(2), ra.skip(2), r1.skip(2));
    } else {
        lemma_relabel_keeps_same_cards(a1, cards, s1);
        lemma_same_cards_sym(ra, rc);
        lemma_same_cards_sym(r1, ra);
        lemma_same_cards_trans(rc, ra, r1);
    }
    assert(same_streets(rc, r1, streets));
    law_isomorphic_hands_agree(r1, cards, s1, a1, r2, r1, s2, a2, streets, s1);
}

} // verus!
