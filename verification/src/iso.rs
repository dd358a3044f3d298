use vstd::prelude::*;
use crate::card::Card;
use crate::inline_vec::{HandCards, hand_from_vec, hand_items};

verus! {

/// How many times `x` occurs in `s`.
pub open spec fn occurrences<T>(s: Seq<T>, x: T) -> nat
    decreases s.len(),
{
    if s.len() == 0 {
        0
    } else {
        occurrences(s.drop_last(), x) + if s.last() == x { 1nat } else { 0nat }
    }
}

/// The two sequences hold the same cards, as many times each.
pub open spec fn same_cards(a: Seq<Card>, b: Seq<Card>) -> bool {
    forall|c: Card| #[trigger] occurrences(a, c) == occurrences(b, c)
}

/// Cards ordered by suit, then by rank.
pub open spec fn card_le(a: Card, b: Card) -> bool {
    a.suit < b.suit || (a.suit == b.suit && a.rank <= b.rank)
}

pub open spec fn sorted_cards(s: Seq<Card>) -> bool {
    forall|i: int, j: int| 0 <= i < j < s.len() ==> card_le(s[i], s[j])
}

/// `r` arranges the cards `cs` in the order of an isomorphic hand: when the streets are kept
/// and there is a board, the two hole cards come first, ordered by suit and rank, and then the
/// board cards, ordered the same way; otherwise all the cards are ordered by suit and rank.
pub open spec fn arrangement_of(r: Seq<Card>, cs: Seq<Card>, streets: bool) -> bool {
    if streets && cs.len() > 2 {
        &&& r.len() == cs.len()
        &&& sorted_cards(r.take(2))
        &&& sorted_cards(r.skip(2))
        &&& same_cards(r.take(2), cs.take(2))
        &&& same_cards(r.skip(2), cs.skip(2))
    } else {
        &&& sorted_cards(r)
        &&& same_cards(r, cs)
    }
}

/// The ranks of the cards of a suit, in the order they come.
pub open spec fn suit_ranks(s: Seq<Card>, suit: int) -> Seq<u8>
    decreases s.len(),
{
    if s.len() == 0 {
        Seq::empty()
    } else {
        let prev = suit_ranks(s.drop_last(), suit);
        if s.last().suit == suit { prev.push(s.last().rank) } else { prev }
    }
}

/// Lexicographic order, a proper prefix coming first.
pub open spec fn lex_le(a: Seq<u8>, b: Seq<u8>) -> bool
    decreases a.len(),
{
    if a.len() == 0 {
        true
    } else if b.len() == 0 {
        false
    } else if a[0] < b[0] {
        true
    } else if a[0] > b[0] {
        false
    } else {
        lex_le(a.drop_first(), b.drop_first())
    }
}

/// The order of suits in an isomorphic hand: suits with more cards first, and suits with as
/// many cards in lexicographic order of their ranks.
pub open spec fn suit_key_le(a: Seq<u8>, b: Seq<u8>) -> bool {
    a.len() > b.len() || (a.len() == b.len() && lex_le(a, b))
}

/// `sigma` maps each of the four suits to a different suit.
pub open spec fn suit_permutation(sigma: Seq<u8>) -> bool {
    &&& sigma.len() == 4
    &&& forall|a: int| 0 <= a < 4 ==> #[trigger] sigma[a] < 4
    &&& forall|a: int, b: int| 0 <= a < b < 4 ==> sigma[a] != sigma[b]
}

/// The cards with each suit renamed by `sigma`.
pub open spec fn relabel(cs: Seq<Card>, sigma: Seq<u8>) -> Seq<Card> {
    cs.map_values(|c: Card| Card { rank: c.rank, suit: sigma[c.suit as int] })
}

/// How many hole cards of the arranged cards `arr` have the suit: when the streets are kept and
/// there is a board, the first two cards are the hole cards; otherwise none count as such.
pub open spec fn hole_count(arr: Seq<Card>, suit: int, streets: bool) -> nat {
    if streets && arr.len() > 2 { suit_ranks(arr.take(2), suit).len() } else { 0 }
}

/// The key of a suit of the arranged cards `arr`: two less its number of hole cards, followed
/// by its ranks in the order they come. Suits with more cards come first, then, among suits with
/// as many cards, those with more hole cards, then by their ranks.
pub open spec fn suit_key(arr: Seq<Card>, suit: int, streets: bool) -> Seq<u8> {
    seq![(2 - hole_count(arr, suit, streets)) as u8] + suit_ranks(arr, suit)
}

/// `sigma` gives the suits of the arranged cards `arr` new names in the order of their keys.
pub open spec fn suits_ordered(arr: Seq<Card>, sigma: Seq<u8>, streets: bool) -> bool {
    forall|a: int, b: int| 0 <= a < 4 && 0 <= b < 4 && sigma[a] < sigma[b] ==>
        suit_key_le(#[trigger] suit_key(arr, a, streets), #[trigger] suit_key(arr, b, streets))
}

pub(crate) proof fn lemma_occurrences_concat<T>(a: Seq<T>, b: Seq<T>, x: T)
    ensures
        occurrences(a + b, x) == occurrences(a, x) + occurrences(b, x),
    decreases b.len(),
{
    if b.len() > 0 {
        lemma_occurrences_concat(a, b.drop_last(), x);
        assert((a + b).drop_last() =~= a + b.drop_last());
    } else {
        assert(a + b =~= a);
    }
}

pub(crate) proof fn lemma_occurrences_single<T>(c: T, x: T)
    ensures
        occurrences(seq![c], x) == if c == x { 1nat } else { 0nat },
{
    assert(seq![c].drop_last() =~= Seq::<T>::empty());
    assert(occurrences(Seq::<T>::empty(), x) == 0);
    assert(seq![c].last() == c);
}

/// Sorts the cards `cards[from..to]` by suit, then by rank.
fn sort_cards(cards: &[Card], from: usize, to: usize) -> (res: Vec<Card>)
    requires
        from <= to <= cards@.len(),
    ensures
        sorted_cards(res@),
        same_cards(res@, cards@.subrange(from as int, to as int)),
        res@.len() == to - from,
{
    let mut res: Vec<Card> = Vec::new();
    let ghost src = cards@.subrange(from as int, to as int);
    for i in from..to
        invariant
            from <= to <= cards@.len(),
            src == cards@.subrange(from as int, to as int),
            sorted_cards(res@),
            res@.len() == i - from,
            forall|x: Card| #[trigger] occurrences(res@, x) == occurrences(src.take(i - from), x),
    {
        let c = cards[i];
        let mut k: usize = 0;
        while k < res.len() && (res[k].suit < c.suit || (res[k].suit == c.suit && res[k].rank <= c.rank))
            invariant
                k <= res@.len(),
                forall|j: int| 0 <= j < k ==> card_le(res@[j], c),
            decreases res@.len() - k,
        {
            k = k + 1;
        }
        let mut next: Vec<Card> = Vec::new();
        for j in 0..k
            invariant
                k <= res@.len(),
                next@ == res@.take(j as int),
        {
            next.push(res[j]);
            proof { assert(res@.take(j + 1) =~= res@.take(j as int).push(res@[j as int])); }
        }
        next.push(c);
        for j in k..res.len()
            invariant
                k <= j <= res@.len(),
                next@ == res@.take(k as int) + seq![c] + res@.subrange(k as int, j as int),
        {
            next.push(res[j]);
            proof {
                assert(res@.subrange(k as int, j + 1) =~= res@.subrange(k as int, j as int).push(res@[j as int]));
            }
        }
        proof {
            let old_res = res@;
            assert(old_res.subrange(k as int, old_res.len() as int) =~= old_res.skip(k as int));
            let n = next@;
            assert(n =~= old_res.take(k as int) + seq![c] + old_res.skip(k as int));
            assert forall|a: int, b: int| 0 <= a < b < n.len() implies card_le(n[a], n[b]) by {
                if b < k {
                } else if b == k {
                    assert(n[b] == c);
                    assert(n[a] == old_res[a]);
                } else if a < k {
                    assert(n[a] == old_res[a]);
                    assert(n[b] == old_res[b - 1]);
                    assert(card_le(old_res[a], old_res[b - 1]));
                } else if a == k {
                    assert(n[b] == old_res[b - 1]);
                    assert(!card_le(old_res[k as int], c));
                    assert(k == b - 1 || card_le(old_res[k as int], old_res[b - 1]));
                } else {
                    assert(n[a] == old_res[a - 1]);
                    assert(n[b] == old_res[b - 1]);
                }
            }
            assert forall|x: Card| #[trigger] occurrences(n, x) == occurrences(src.take(i + 1 - from), x) by {
                lemma_occurrences_concat(old_res.take(k as int) + seq![c], old_res.skip(k as int), x);
                lemma_occurrences_concat(old_res.take(k as int), seq![c], x);
                lemma_occurrences_single(c, x);
                lemma_occurrences_concat(old_res.take(k as int), old_res.skip(k as int), x);
                assert(old_res.take(k as int) + old_res.skip(k as int) =~= old_res);
                assert(src.take(i + 1 - from).drop_last() =~= src.take(i - from));
                assert(src.take(i + 1 - from).last() == c);
            }
        }
        res = next;
    }
    proof { assert(src.take(to - from) =~= src); }
    res
}


/// Arranges cards in the order of an isomorphic hand (see `arrangement_of`).
pub fn sort_isomorphic(cards: &[Card], streets: bool) -> (res: Vec<Card>)
    ensures
        arrangement_of(res@, cards@, streets),
        res@.len() == cards@.len(),
{
    let n = cards.len();
    if streets && n > 2 {
        let preflop = sort_cards(cards, 0, 2);
        let board = sort_cards(cards, 2, n);
        let mut sorted: Vec<Card> = Vec::new();
        for j in 0..2
            invariant
                preflop@.len() == 2,
                sorted@ == preflop@.take(j as int),
        {
            sorted.push(preflop[j]);
            proof { assert(preflop@.take(j + 1) =~= preflop@.take(j as int).push(preflop@[j as int])); }
        }
        for j in 0..board.len()
            invariant
                preflop@.len() == 2,
                sorted@ == preflop@ + board@.take(j as int),
        {
            sorted.push(board[j]);
            proof { assert(board@.take(j + 1) =~= board@.take(j as int).push(board@[j as int])); }
        }
        proof {
            assert(board@.take(board@.len() as int) =~= board@);
            assert(sorted@.take(2) =~= preflop@);
            assert(sorted@.skip(2) =~= board@);
            assert(cards@.subrange(0, 2) =~= cards@.take(2));
            assert(cards@.subrange(2, n as int) =~= cards@.skip(2));
        }
        sorted
    } else {
        let sorted = sort_cards(cards, 0, n);
        proof { assert(cards@.subrange(0, n as int) =~= cards@); }
        sorted
    }
}

/// The ranks of the cards of one suit, in the order they come.
fn ranks_of_suit(cards: &Vec<Card>, suit: u8) -> (res: Vec<u8>)
    ensures
        res@ == suit_ranks(cards@, suit as int),
{
    let mut res: Vec<u8> = Vec::new();
    for i in 0..cards.len()
        invariant
            res@ == suit_ranks(cards@.take(i as int), suit as int),
    {
        proof { assert(cards@.take(i + 1).drop_last() =~= cards@.take(i as int)); }
        if cards[i].suit == suit {
            res.push(cards[i].rank);
        }
    }
    proof { assert(cards@.take(cards@.len() as int) =~= cards@); }
    res
}

/// The key of a suit of the arranged cards (see `suit_key`).
fn suit_key_exec(cards: &Vec<Card>, suit: u8, streets: bool) -> (res: Vec<u8>)
    ensures
        res@ == suit_key(cards@, suit as int, streets),
{
    let mut hole: usize = 0;
    if streets && cards.len() > 2 {
        let mut first_two: Vec<Card> = Vec::new();
        first_two.push(cards[0]);
        first_two.push(cards[1]);
        proof { assert(first_two@ =~= cards@.take(2)); }
        hole = ranks_of_suit(&first_two, suit).len();
        proof { lemma_suit_ranks_len(cards@.take(2), suit as int); }
    }
    let mut key: Vec<u8> = Vec::new();
    key.push((2 - hole) as u8);
    let ranks = ranks_of_suit(cards, suit);
    for i in 0..ranks.len()
        invariant
            key@ == seq![(2 - hole) as u8] + ranks@.take(i as int),
    {
        key.push(ranks[i]);
        proof { assert(ranks@.take(i + 1) =~= ranks@.take(i as int).push(ranks@[i as int])); }
    }
    proof { assert(ranks@.take(ranks@.len() as int) =~= ranks@); }
    key
}

/// A suit has no more ranks than there are cards.
pub(crate) proof fn lemma_suit_ranks_len(s: Seq<Card>, suit: int)
    ensures
        suit_ranks(s, suit).len() <= s.len(),
    decreases s.len(),
{
    if s.len() > 0 {
        lemma_suit_ranks_len(s.drop_last(), suit);
    }
}

proof fn lemma_lex_skip(a: Seq<u8>, b: Seq<u8>, i: int)
    requires
        0 <= i <= a.len(),
        i <= b.len(),
        a.take(i) == b.take(i),
    ensures
        lex_le(a, b) == lex_le(a.skip(i), b.skip(i)),
    decreases i,
{
    if i > 0 {
        assert(a[0] == a.take(i)[0] && b[0] == b.take(i)[0]);
        assert(a.drop_first().take(i - 1) =~= a.take(i).drop_first());
        assert(b.drop_first().take(i - 1) =~= b.take(i).drop_first());
        lemma_lex_skip(a.drop_first(), b.drop_first(), i - 1);
        assert(a.drop_first().skip(i - 1) =~= a.skip(i));
        assert(b.drop_first().skip(i - 1) =~= b.skip(i));
    } else {
        assert(a.skip(0) =~= a);
        assert(b.skip(0) =~= b);
    }
}

/// Whether `a` comes first or equal in lexicographic order.
fn lex_le_exec(a: &Vec<u8>, b: &Vec<u8>) -> (res: bool)
    ensures
        res == lex_le(a@, b@),
{
    let mut i: usize = 0;
    while i < a.len() && i < b.len() && a[i] == b[i]
        invariant
            i <= a@.len(),
            i <= b@.len(),
            a@.take(i as int) == b@.take(i as int),
        decreases a@.len() - i,
    {
        proof {
            assert(a@.take(i + 1) =~= a@.take(i as int).push(a@[i as int]));
            assert(b@.take(i + 1) =~= b@.take(i as int).push(b@[i as int]));
        }
        i = i + 1;
    }
    proof { lemma_lex_skip(a@, b@, i as int); }
    if i == a.len() {
        true
    } else if i == b.len() {
        false
    } else {
        a[i] < b[i]
    }
}

/// Lexicographic order is total.
pub proof fn lemma_lex_total(a: Seq<u8>, b: Seq<u8>)
    ensures
        lex_le(a, b) || lex_le(b, a),
    decreases a.len(),
{
    if a.len() > 0 && b.len() > 0 && a[0] == b[0] {
        lemma_lex_total(a.drop_first(), b.drop_first());
    }
}

/// Lexicographic order is transitive.
pub proof fn lemma_lex_transitive(a: Seq<u8>, b: Seq<u8>, c: Seq<u8>)
    requires
        lex_le(a, b),
        lex_le(b, c),
    ensures
        lex_le(a, c),
    decreases a.len(),
{
    if a.len() > 0 && b.len() > 0 && c.len() > 0 && a[0] == b[0] && b[0] == c[0] {
        lemma_lex_transitive(a.drop_first(), b.drop_first(), c.drop_first());
    }
}

/// The order of suit keys is total and transitive.
pub proof fn lemma_suit_key_order(a: Seq<u8>, b: Seq<u8>, c: Seq<u8>)
    ensures
        suit_key_le(a, b) || suit_key_le(b, a),
        suit_key_le(a, b) && suit_key_le(b, c) ==> suit_key_le(a, c),
{
    lemma_lex_total(a, b);
    if suit_key_le(a, b) && suit_key_le(b, c) && a.len() == b.len() && b.len() == c.len() {
        lemma_lex_transitive(a, b, c);
    }
}

/// Whether the suit with key `a` comes first or together with the suit with key `b`.
fn suit_key_le_exec(a: &Vec<u8>, b: &Vec<u8>) -> (res: bool)
    ensures
        res == suit_key_le(a@, b@),
{
    if a.len() == b.len() {
        lex_le_exec(a, b)
    } else {
        a.len() > b.len()
    }
}

pub(crate) proof fn lemma_occurrences_pos<T>(s: Seq<T>, i: int)
    requires
        0 <= i < s.len(),
    ensures
        occurrences(s, s[i]) >= 1,
    decreases s.len(),
{
    if i < s.len() - 1 {
        lemma_occurrences_pos(s.drop_last(), i);
        assert(s.drop_last()[i] == s[i]);
    }
}

proof fn lemma_occurrences_two<T>(s: Seq<T>, i: int, j: int)
    requires
        0 <= i < j < s.len(),
        s[i] == s[j],
    ensures
        occurrences(s, s[i]) >= 2,
    decreases s.len(),
{
    if j < s.len() - 1 {
        lemma_occurrences_two(s.drop_last(), i, j);
        assert(s.drop_last()[i] == s[i]);
    } else {
        lemma_occurrences_pos(s.drop_last(), i);
        assert(s.drop_last()[i] == s[i]);
    }
}

pub(crate) proof fn lemma_occurrences_found<T>(s: Seq<T>, x: T) -> (i: int)
    requires
        occurrences(s, x) >= 1,
    ensures
        0 <= i < s.len(),
        s[i] == x,
    decreases s.len(),
{
    if s.last() == x {
        s.len() - 1
    } else {
        let i = lemma_occurrences_found(s.drop_last(), x);
        assert(s.drop_last()[i] == s[i]);
        i
    }
}

/// The suits 0..4 ordered by their keys: suits with more cards first, then by their ranks.
fn order_suits(keys: &Vec<Vec<u8>>) -> (res: Vec<u8>)
    requires
        keys@.len() == 4,
    ensures
        res@.len() == 4,
        forall|x: u8| #[trigger] occurrences(res@, x) == if x < 4 { 1nat } else { 0nat },
        forall|i: int, j: int| 0 <= i < j < 4 ==>
            suit_key_le(keys@[res@[i] as int]@, keys@[res@[j] as int]@),
{
    let mut res: Vec<u8> = Vec::new();
    for c in 0..4u8
        invariant
            keys@.len() == 4,
            res@.len() == c,
            forall|x: u8| #[trigger] occurrences(res@, x) == if x < c { 1nat } else { 0nat },
            forall|i: int, j: int| 0 <= i < j < res@.len() ==>
                suit_key_le(keys@[res@[i] as int]@, keys@[res@[j] as int]@),
            forall|i: int| 0 <= i < res@.len() ==> #[trigger] res@[i] < c,
    {
        let mut k: usize = 0;
        while k < res.len() && suit_key_le_exec(&keys[res[k] as usize], &keys[c as usize])
            invariant
                keys@.len() == 4,
                k <= res@.len(),
                forall|i: int| 0 <= i < res@.len() ==> #[trigger] res@[i] < c,
                c < 4,
                forall|j: int| 0 <= j < k ==> suit_key_le(keys@[res@[j] as int]@, keys@[c as int]@),
            decreases res@.len() - k,
        {
            k = k + 1;
        }
        let mut next: Vec<u8> = Vec::new();
        for j in 0..k
            invariant
                k <= res@.len(),
                next@ == res@.take(j as int),
        {
            next.push(res[j]);
            proof { assert(res@.take(j + 1) =~= res@.take(j as int).push(res@[j as int])); }
        }
        next.push(c);
        for j in k..res.len()
            invariant
                k <= j <= res@.len(),
                next@ == res@.take(k as int) + seq![c] + res@.subrange(k as int, j as int),
        {
            next.push(res[j]);
            proof {
                assert(res@.subrange(k as int, j + 1) =~= res@.subrange(k as int, j as int).push(res@[j as int]));
            }
        }
        proof {
            let old_res = res@;
            assert(old_res.subrange(k as int, old_res.len() as int) =~= old_res.skip(k as int));
            let n = next@;
            assert(n =~= old_res.take(k as int) + seq![c] + old_res.skip(k as int));
            let key = |x: u8| keys@[x as int]@;
            assert forall|a: int, b: int| 0 <= a < b < n.len() implies
                suit_key_le(keys@[n[a] as int]@, keys@[n[b] as int]@) by {
                if b < k {
                } else if b == k {
                    assert(n[b] == c);
                    assert(n[a] == old_res[a]);
                } else if a < k {
                    assert(n[a] == old_res[a]);
                    assert(n[b] == old_res[b - 1]);
                } else if a == k {
                    assert(n[b] == old_res[b - 1]);
                    assert(!suit_key_le(keys@[old_res[k as int] as int]@, keys@[c as int]@));
                    lemma_suit_key_order(keys@[c as int]@, keys@[old_res[k as int] as int]@, keys@[old_res[b - 1] as int]@);
                    lemma_suit_key_order(keys@[old_res[k as int] as int]@, keys@[c as int]@, keys@[old_res[b - 1] as int]@);
                    if k < b - 1 {
                        assert(suit_key_le(keys@[old_res[k as int] as int]@, keys@[old_res[b - 1] as int]@));
                    }
                } else {
                    assert(n[a] == old_res[a - 1]);
                    assert(n[b] == old_res[b - 1]);
                }
            }
            assert forall|x: u8| #[trigger] occurrences(n, x) == if x < c + 1 { 1nat } else { 0nat } by {
                lemma_occurrences_concat(old_res.take(k as int) + seq![c], old_res.skip(k as int), x);
                lemma_occurrences_concat(old_res.take(k as int), seq![c], x);
                lemma_occurrences_single(c, x);
                lemma_occurrences_concat(old_res.take(k as int), old_res.skip(k as int), x);
                assert(old_res.take(k as int) + old_res.skip(k as int) =~= old_res);
            }
            assert forall|i: int| 0 <= i < n.len() implies #[trigger] n[i] < c + 1 by {
                if i < k {
                    assert(n[i] == old_res[i]);
                } else if i > k {
                    assert(n[i] == old_res[i - 1]);
                }
            }
        }
        res = next;
    }
    res
}

/// The result of `isomorphic_hand`: `arr` arranges the cards, `sigma` renames the suits in the
/// order of their keys in `arr`, and `res` arranges the renamed cards.
pub open spec fn isomorphic_result(res: Seq<Card>, cards: Seq<Card>, streets: bool, sigma: Seq<u8>, arr: Seq<Card>) -> bool {
    &&& suit_permutation(sigma)
    &&& arrangement_of(arr, cards, streets)
    &&& suits_ordered(arr, sigma, streets)
    &&& arrangement_of(res, relabel(arr, sigma), streets)
}

/// The isomorphic representation of the cards: the cards that `isomorphic_result` allows, which
/// are unique (see `law_isomorphic_unique`).
pub open spec fn isomorphic_representation(cards: Seq<Card>, streets: bool) -> Seq<Card> {
    choose|res: Seq<Card>| #[trigger] is_representation(res, cards, streets)
}

/// Some arrangement and renaming make `res` a representation of the cards.
pub open spec fn is_representation(res: Seq<Card>, cards: Seq<Card>, streets: bool) -> bool {
    exists|sigma: Seq<u8>, arr: Seq<Card>| #[trigger] isomorphic_result(res, cards, streets, sigma, arr)
}

/// Translates the given cards into their isomorphic representation: the order of the hole cards
/// and of the board cards does not matter (nor, when `streets` is false, which cards are hole
/// cards), and the suits are renamed so that the suit with the most cards becomes clubs, the
/// next diamonds, and so on; among suits with as many cards, those with more hole cards come
/// first, then they go by their ranks (see `suit_key`). Suits with the same key may take their
/// new names in either order.
pub fn isomorphic_hand(cards: &[Card], streets: bool) -> (res: HandCards)
    requires
        forall|i: int| 0 <= i < cards@.len() ==> (#[trigger] cards@[i]).suit < 4,
    ensures
        exists|sigma: Seq<u8>, arr: Seq<Card>| #[trigger] isomorphic_result(hand_items(res), cards@, streets, sigma, arr),
        hand_items(res) == isomorphic_representation(cards@, streets),
        hand_items(res).len() == cards@.len(),
        forall|i: int| 0 <= i < hand_items(res).len() ==> (#[trigger] hand_items(res)[i]).suit < 4,
        forall|i: int| 0 <= i < hand_items(res).len() ==> has_rank(cards@, (#[trigger] hand_items(res)[i]).rank),
{
    let sorted = sort_isomorphic(cards, streets);
    proof {
        assert forall|i: int| 0 <= i < sorted@.len() implies (#[trigger] sorted@[i]).suit < 4 by {
            let c = sorted@[i];
            if streets && cards@.len() > 2 {
                if i < 2 {
                    assert(sorted@.take(2)[i] == c);
                    lemma_occurrences_pos(sorted@.take(2), i);
                    let j = lemma_occurrences_found(cards@.take(2), c);
                    assert(cards@[j] == c);
                } else {
                    assert(sorted@.skip(2)[i - 2] == c);
                    lemma_occurrences_pos(sorted@.skip(2), i - 2);
                    let j = lemma_occurrences_found(cards@.skip(2), c);
                    assert(cards@[j + 2] == c);
                }
            } else {
                lemma_occurrences_pos(sorted@, i);
                let j = lemma_occurrences_found(cards@, c);
            }
        }
    }
    let mut keys: Vec<Vec<u8>> = Vec::new();
    for s in 0..4u8
        invariant
            keys@.len() == s,
            forall|a: int| 0 <= a < s ==> (#[trigger] keys@[a])@ == suit_key(sorted@, a, streets),
    {
        keys.push(suit_key_exec(&sorted, s, streets));
    }
    let order = order_suits(&keys);
    let mut mapping: Vec<u8> = vec![0u8, 0u8, 0u8, 0u8];
    proof {
        assert forall|j: int| 0 <= j < 4 implies #[trigger] order@[j] < 4 by {
            lemma_occurrences_pos(order@, j);
        }
    }
    for new_suit in 0..4u8
        invariant
            mapping@.len() == 4,
            order@.len() == 4,
            forall|j: int| 0 <= j < 4 ==> #[trigger] order@[j] < 4,
            forall|x: u8| #[trigger] occurrences(order@, x) == if x < 4 { 1nat } else { 0nat },
            forall|j: int| 0 <= j < new_suit ==> #[trigger] mapping@[order@[j] as int] == j,
    {
        let old_suit = order[new_suit as usize];
        proof {
            lemma_occurrences_pos(order@, new_suit as int);
            assert forall|j: int| 0 <= j < new_suit implies order@[j] != old_suit by {
                if order@[j] == old_suit {
                    lemma_occurrences_two(order@, j, new_suit as int);
                }
            }
        }
        mapping.set(old_suit as usize, new_suit);
    }
    let ghost sigma = mapping@;
    proof {
        assert forall|a: int| 0 <= a < 4 implies exists|j: int| 0 <= j < 4 && order@[j] == a && #[trigger] sigma[a] == j by {
            let j = lemma_occurrences_found(order@, a as u8);
            assert(mapping@[order@[j] as int] == j);
        }
        assert(suit_permutation(sigma)) by {
            assert forall|a: int| 0 <= a < 4 implies #[trigger] sigma[a] < 4 by {
                let j = lemma_occurrences_found(order@, a as u8);
                assert(mapping@[order@[j] as int] == j);
            }
            assert forall|a: int, b: int| 0 <= a < b < 4 implies sigma[a] != sigma[b] by {
                let ja = lemma_occurrences_found(order@, a as u8);
                let jb = lemma_occurrences_found(order@, b as u8);
                assert(mapping@[order@[ja] as int] == ja);
                assert(mapping@[order@[jb] as int] == jb);
            }
        }
        assert(suits_ordered(sorted@, sigma, streets)) by {
            assert forall|a: int, b: int| 0 <= a < 4 && 0 <= b < 4 && sigma[a] < sigma[b] implies
                suit_key_le(#[trigger] suit_key(sorted@, a, streets), #[trigger] suit_key(sorted@, b, streets)) by {
                let ja = lemma_occurrences_found(order@, a as u8);
                let jb = lemma_occurrences_found(order@, b as u8);
                assert(mapping@[order@[ja] as int] == ja);
                assert(mapping@[order@[jb] as int] == jb);
                assert(keys@[a]@ == suit_key(sorted@, a, streets));
                assert(keys@[b]@ == suit_key(sorted@, b, streets));
            }
        }
    }
    let mut isomorphic: Vec<Card> = Vec::new();
    for i in 0..sorted.len()
        invariant
            mapping@ == sigma,
            sigma.len() == 4,
            forall|k: int| 0 <= k < sorted@.len() ==> (#[trigger] sorted@[k]).suit < 4,
            isomorphic@ == relabel(sorted@.take(i as int), sigma),
    {
        let c = sorted[i];
        isomorphic.push(Card { rank: c.rank, suit: mapping[c.suit as usize] });
        proof {
            assert(relabel(sorted@.take(i + 1), sigma) =~= relabel(sorted@.take(i as int), sigma).push(
                Card { rank: c.rank, suit: sigma[c.suit as int] }));
        }
    }
    proof { assert(sorted@.take(sorted@.len() as int) =~= sorted@); }
    let sorted_hand = sort_isomorphic(&isomorphic, streets);
    proof {
        assert(isomorphic_result(sorted_hand@, cards@, streets, sigma, sorted@));
        assert(is_representation(sorted_hand@, cards@, streets));
        let rep = isomorphic_representation(cards@, streets);
        let (s2, arr2) = choose|s2: Seq<u8>, arr2: Seq<Card>| #[trigger] isomorphic_result(rep, cards@, streets, s2, arr2);
        crate::iso_laws::law_isomorphic_unique(sorted_hand@, rep, cards@, streets, sigma, sorted@, s2, arr2);
        assert forall|i: int| 0 <= i < sorted_hand@.len() implies (#[trigger] sorted_hand@[i]).suit < 4 by {
            let k = lemma_arrangement_member(sorted_hand@, isomorphic@, streets, i);
            assert(isomorphic@[k] == relabel(sorted@, sigma)[k]);
        }
        assert forall|i: int| 0 <= i < sorted_hand@.len() implies has_rank(cards@, (#[trigger] sorted_hand@[i]).rank) by {
            let k = lemma_arrangement_member(sorted_hand@, isomorphic@, streets, i);
            assert(isomorphic@[k] == relabel(sorted@, sigma)[k]);
            let j = lemma_arrangement_member(sorted@, cards@, streets, k);
            assert(sorted_hand@[i].rank == cards@[j].rank);
        }
    }
    hand_from_vec(sorted_hand)
}

/// One of the cards has this rank.
pub open spec fn has_rank(cards: Seq<Card>, rank: u8) -> bool {
    exists|j: int| 0 <= j < cards.len() && cards[j].rank == rank
}

/// Every card of an arrangement is one of the arranged cards.
pub(crate) proof fn lemma_arrangement_member(r: Seq<Card>, cs: Seq<Card>, streets: bool, i: int) -> (j: int)
    requires
        arrangement_of(r, cs, streets),
        0 <= i < r.len(),
    ensures
        0 <= j < cs.len(),
        r[i] == cs[j],
{
    let c = r[i];
    if streets && cs.len() > 2 {
        if i < 2 {
            assert(r.take(2)[i] == c);
            lemma_occurrences_pos(r.take(2), i);
            let j = lemma_occurrences_found(cs.take(2), c);
            assert(cs.take(2)[j] == cs[j]);
            j
        } else {
            assert(r.skip(2)[i - 2] == c);
            lemma_occurrences_pos(r.skip(2), i - 2);
            let j = lemma_occurrences_found(cs.skip(2), c);
            assert(cs.skip(2)[j] == cs[j + 2]);
            j + 2
        }
    } else {
        lemma_occurrences_pos(r, i);
        lemma_occurrences_found(cs, c)
    }
}


/// Two sequences ordered by suit and rank that hold the same cards are equal.
pub proof fn lemma_sorted_unique(x: Seq<Card>, y: Seq<Card>)
    requires
        sorted_cards(x),
        sorted_cards(y),
        same_cards(x, y),
    ensures
        x == y,
    decreases x.len() + y.len(),
{
    if x.len() == 0 && y.len() == 0 {
        assert(x =~= y);
    } else if x.len() == 0 {
        lemma_occurrences_pos(y, y.len() - 1);
        assert(occurrences(x, y.last()) == 0);
    } else if y.len() == 0 {
        lemma_occurrences_pos(x, x.len() - 1);
        assert(occurrences(y, x.last()) == 0);
    } else {
        lemma_occurrences_pos(x, x.len() - 1);
        lemma_occurrences_pos(y, y.len() - 1);
        assert(occurrences(y, x.last()) >= 1);
        assert(occurrences(x, y.last()) >= 1);
        let j = lemma_occurrences_found(y, x.last());
        let i = lemma_occurrences_found(x, y.last());
        assert(card_le(y[j], y.last()) || j == y.len() - 1);
        assert(card_le(x[i], x.last()) || i == x.len() - 1);
        assert(x.last() == y.last());
        assert(same_cards(x.drop_last(), y.drop_last())) by {
            assert forall|c: Card| #[trigger] occurrences(x.drop_last(), c) == occurrences(y.drop_last(), c) by {
                assert(occurrences(x, c) == occurrences(y, c));
            }
        }
        lemma_sorted_unique(x.drop_last(), y.drop_last());
        assert(x =~= x.drop_last().push(x.last()));
        assert(y =~= y.drop_last().push(y.last()));
    }
}

/// The arrangement of cards in the order of an isomorphic hand is unique.
pub proof fn law_arrangement_unique(r1: Seq<Card>, r2: Seq<Card>, cs: Seq<Card>, streets: bool)
    requires
        arrangement_of(r1, cs, streets),
        arrangement_of(r2, cs, streets),
    ensures
        r1 == r2,
{
    if streets && cs.len() > 2 {
        assert(same_cards(r1.take(2), r2.take(2)));
        assert(same_cards(r1.skip(2), r2.skip(2)));
        lemma_sorted_unique(r1.take(2), r2.take(2));
        lemma_sorted_unique(r1.skip(2), r2.skip(2));
        assert(r1 =~= r1.take(2) + r1.skip(2));
        assert(r2 =~= r2.take(2) + r2.skip(2));
    } else {
        lemma_sorted_unique(r1, r2);
    }
}

/// The two hands have the same hole cards and the same board cards, in any order (when the
/// streets are kept and there is a board), or simply the same cards.
pub open spec fn same_streets(c1: Seq<Card>, c2: Seq<Card>, streets: bool) -> bool {
    &&& c1.len() == c2.len()
    &&& if streets && c1.len() > 2 {
        same_cards(c1.take(2), c2.take(2)) && same_cards(c1.skip(2), c2.skip(2))
    } else {
        same_cards(c1, c2)
    }
}

/// The order of the hole cards and of the board cards does not matter: a representation of a
/// hand is a representation of every reordering of its hole cards and of its board cards (and,
/// when the streets are not kept, of every reordering of its cards).
pub proof fn law_isomorphic_order_invariant(
    res: Seq<Card>,
    c1: Seq<Card>,
    c2: Seq<Card>,
    streets: bool,
    sigma: Seq<u8>,
    arr: Seq<Card>,
)
    requires
        isomorphic_result(res, c1, streets, sigma, arr),
        same_streets(c1, c2, streets),
    ensures
        isomorphic_result(res, c2, streets, sigma, arr),
{
    if streets && c1.len() > 2 {
        assert forall|c: Card| #[trigger] occurrences(arr.take(2), c) == occurrences(c2.take(2), c) by {
            assert(occurrences(arr.take(2), c) == occurrences(c1.take(2), c));
            assert(occurrences(c1.take(2), c) == occurrences(c2.take(2), c));
        }
        assert forall|c: Card| #[trigger] occurrences(arr.skip(2), c) == occurrences(c2.skip(2), c) by {
            assert(occurrences(arr.skip(2), c) == occurrences(c1.skip(2), c));
            assert(occurrences(c1.skip(2), c) == occurrences(c2.skip(2), c));
        }
    } else {
        assert forall|c: Card| #[trigger] occurrences(arr, c) == occurrences(c2, c) by {
            assert(occurrences(arr, c) == occurrences(c1, c));
            assert(occurrences(c1, c) == occurrences(c2, c));
        }
    }
}

} // verus!
