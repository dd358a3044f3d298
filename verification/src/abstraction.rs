use std::collections::HashMap;
use vstd::std_specs::iter::IteratorSpec;
use vstd::prelude::*;
use crate::card::{Card, CLUBS, DIAMONDS, rank_char, rank_str};
use crate::hand::{card_codes, cards2hand, encodes};
use crate::canonical::{all_valid, remove_cards, lemma_without_valid};
use vstd::set_lib::lemma_len_subset;
use crate::counting::{
    dealt_set, deals_of, lemma_deals_all, lemma_deals_exhausted, lemma_deals_none, lemma_deals_split,
    lemma_picked_exhausted, lemma_picked_none, lemma_picked_split, lemma_without_distinct, picked_hands,
};
use crate::card::deck;
use crate::strength::{distinct_cards, lemma_full_deck_valid_distinct};
use crate::history::{
    Action, ActionHistory, BetSize, DEALER, FLOP, HistoryView, OPPONENT, PREFLOP, RIVER, TURN,
    valid_bet_abstraction,
};

verus! {

broadcast use vstd::std_specs::hash::group_hash_axioms;

/// Cards ordered by rank, then by suit (the order of `Card`).
pub open spec fn rank_le(a: Card, b: Card) -> bool {
    a.rank < b.rank || (a.rank == b.rank && a.suit <= b.suit)
}

/// Two cards in the order of `Card`.
pub open spec fn sorted_pair(a: Card, b: Card) -> Seq<Card> {
    if rank_le(a, b) { seq![a, b] } else { seq![b, a] }
}

/// Three cards in the order of `Card`.
pub open spec fn sorted_triple(a: Card, b: Card, c: Card) -> Seq<Card> {
    if rank_le(a, b) {
        if rank_le(b, c) { seq![a, b, c] } else if rank_le(a, c) { seq![a, c, b] } else { seq![c, a, b] }
    } else {
        if rank_le(a, c) { seq![b, a, c] } else if rank_le(b, c) { seq![b, c, a] } else { seq![c, b, a] }
    }
}

/// The flop key of a hand: its first two cards sorted, then its next three cards sorted.
pub open spec fn flop_cards(cards: Seq<Card>) -> Seq<Card> {
    sorted_pair(cards[0], cards[1]) + sorted_triple(cards[2], cards[3], cards[4])
}

/// The bin of a two-card hand, in 0..169: with the lower rank r1 and the higher rank r2 (counted
/// from 0 for a deuce), r1 * 13 + r2 for suited cards and r2 * 13 + r1 otherwise.
pub open spec fn preflop_bin_of(a: Card, b: Card) -> int {
    let (lo, hi) = if b.rank < a.rank { (b, a) } else { (a, b) };
    let r1 = lo.rank - 2;
    let r2 = hi.rank - 2;
    if lo.suit == hi.suit { r1 * 13 + r2 } else { r2 * 13 + r1 }
}

/// The card abstraction: maps each hand to the id of its abstraction bucket. Preflop hands have
/// a bucket of their own (169 of them); later hands are looked up by their flop cards.
pub struct Abstraction {
    flop: HashMap<u64, i32>,
    turn: HashMap<u64, i32>,
    river: HashMap<u64, i32>,
}

impl Abstraction {
    pub closed spec fn flop_table(&self) -> Map<u64, i32> {
        self.flop@
    }

    pub closed spec fn turn_table(&self) -> Map<u64, i32> {
        self.turn@
    }

    pub closed spec fn river_table(&self) -> Map<u64, i32> {
        self.river@
    }

    /// An abstraction of the given bucket tables for flop, turn and river hands.
    pub fn new(flop: HashMap<u64, i32>, turn: HashMap<u64, i32>, river: HashMap<u64, i32>) -> (res: Abstraction)
        ensures
            res.flop_table() == flop@,
            res.turn_table() == turn@,
            res.river_table() == river@,
    {
        Abstraction { flop, turn, river }
    }

    /// `bin` computes without panic: a hand of two cards, or of five or more whose flop key is
    /// in the flop table.
    pub open spec fn bin_defined(&self, cards: Seq<Card>) -> bool {
        ||| cards.len() == 2
        ||| {
            &&& cards.len() >= 5
            &&& forall|i: int| 0 <= i < 5 ==> (#[trigger] cards[i]).valid()
            &&& exists|h: u64| #[trigger] encodes(h, card_codes(flop_cards(cards)))
                && self.flop_table().contains_key(h)
        }
    }

    /// The bucket of a hand: its preflop bin for two cards, else the flop table's bucket for
    /// its flop key.
    pub open spec fn bin_of(&self, cards: Seq<Card>) -> int {
        if cards.len() == 2 {
            preflop_bin_of(cards[0], cards[1])
        } else {
            self.flop_table()[choose|h: u64| #[trigger] encodes(h, card_codes(flop_cards(cards)))] as int
        }
    }

    /// Maps a hand to its abstraction bucket.
    pub fn bin(&self, cards: &[Card]) -> (res: i32)
        requires
            self.bin_defined(cards@),
        ensures
            res == self.bin_of(cards@),
    {
        if cards.len() == 2 {
            Abstraction::preflop_bin(cards)
        } else {
            self.postflop_bin(cards)
        }
    }

    /// Whether `bin` computes on these cards (see `bin_defined`).
    pub fn can_bin(&self, cards: &[Card]) -> (res: bool)
        ensures
            res == self.bin_defined(cards@),
    {
        if cards.len() == 2 {
            return true;
        }
        if cards.len() < 5 {
            return false;
        }
        let mut i: usize = 0;
        while i < 5
            invariant
                cards@.len() >= 5,
                i <= 5,
                forall|j: int| 0 <= j < i ==> (#[trigger] cards@[j]).valid(),
            decreases 5 - i,
        {
            if !(2 <= cards[i].rank && cards[i].rank <= 14 && cards[i].suit < 4) {
                return false;
            }
            i += 1;
        }
        let key = flop_key(cards);
        proof {
            let first = cards@.take(5);
            assert(flop_cards(first) == flop_cards(cards@));
            lemma_flop_cards_valid(first);
            assert forall|j: int| 0 <= j < key@.len() implies 15 * (#[trigger] key@[j]).suit + key@[j].rank <= 255 by {
                assert(key@[j].valid());
            }
        }
        let hand = cards2hand(&key);
        let res = self.flop.contains_key(&hand);
        proof {
            if !res {
                if exists|h: u64| #[trigger] encodes(h, card_codes(flop_cards(cards@))) && self.flop_table().contains_key(h) {
                    let h0 = choose|h: u64| #[trigger] encodes(h, card_codes(flop_cards(cards@)))
                        && self.flop_table().contains_key(h);
                    crate::hand::lemma_encodes_unique(hand, h0, card_codes(flop_cards(cards@)));
                }
            }
        }
        res
    }

    /// Maps each possible preflop hand to an integer in 0..169.
    fn preflop_bin(cards: &[Card]) -> (res: i32)
        requires
            cards@.len() == 2,
        ensures
            res == preflop_bin_of(cards@[0], cards@[1]),
    {
        let (lo, hi) = if cards[1].rank < cards[0].rank { (cards[1], cards[0]) } else { (cards[0], cards[1]) };
        let rank1: i32 = lo.rank as i32 - 2;
        let rank2: i32 = hi.rank as i32 - 2;
        if lo.suit == hi.suit {
            rank1 * 13 + rank2
        } else {
            rank2 * 13 + rank1
        }
    }

    /// Looks up a hand of five or more cards by its flop key.
    fn postflop_bin(&self, cards: &[Card]) -> (res: i32)
        requires
            cards@.len() >= 5,
            self.bin_defined(cards@),
        ensures
            res == self.bin_of(cards@),
    {
        let key = flop_key(cards);
        let hand = cards2hand(&key);
        proof {
            let h0 = choose|h: u64| #[trigger] encodes(h, card_codes(flop_cards(cards@)))
                && self.flop_table().contains_key(h);
            crate::hand::lemma_encodes_unique(hand, h0, card_codes(flop_cards(cards@)));
            let h1 = choose|h: u64| #[trigger] encodes(h, card_codes(flop_cards(cards@)));
            crate::hand::lemma_encodes_unique(hand, h1, card_codes(flop_cards(cards@)));
        }
        *self.flop.get(&hand).unwrap()
    }

    /// Adds to the table, under the compact hand of its flop key, the flop table's bucket of
    /// every hand `prefix + t` for the picks `t` of `k` cards of `pool[start..]`; false when
    /// the flop table lacks the key of one of them.
    fn expand_picks(
        &self,
        pool: &Vec<Card>,
        start: usize,
        k: usize,
        prefix: &mut Vec<Card>,
        table: &mut HashMap<u64, i32>,
        Ghost(seen): Ghost<Set<Seq<Card>>>,
    ) -> (ok: bool)
        requires
            start <= pool@.len(),
            old(prefix)@.len() + k == 5,
            all_valid(pool@),
            distinct_cards(pool@),
            all_valid(old(prefix)@),
            expands_keys(old(table)@, self.flop_table(), seen),
        ensures
            final(prefix)@ == old(prefix)@,
            ok ==> expands_keys(final(table)@, self.flop_table(),
                seen + picked_hands(pool@.skip(start as int), k as nat, old(prefix)@)),
            !ok ==> !flop_keys_known(self.flop_table(), picked_hands(pool@.skip(start as int), k as nat, old(prefix)@)),
        decreases pool@.len() - start, k,
    {
        let ghost p0 = prefix@;
        let ghost s = pool@.skip(start as int);
        if k == 0 {
            proof {
                lemma_picked_none(s, p0);
                assert(seen + Set::empty().insert(p0) =~= seen.insert(p0));
            }
            let key = flop_key(prefix.as_slice());
            proof {
                assert forall|i: int| 0 <= i < key@.len() implies 15 * (#[trigger] key@[i]).suit + key@[i].rank <= 255 by {
                    lemma_flop_cards_valid(p0);
                    assert(key@[i].valid());
                }
            }
            let code = cards2hand(&key);
            let ghost m0 = table@;
            let ghost v2 = seen.insert(p0);
            match self.flop.get(&code) {
                Some(b) => {
                    table.insert(code, *b);
                    proof {
                        assert(has_flop_key(v2, code)) by {
                            assert(v2.contains(p0));
                        }
                        assert forall|x: u64| #[trigger] table@.contains_key(x) <==> has_flop_key(v2, x) by {
                            if x != code {
                                if has_flop_key(v2, x) {
                                    let h = choose|h: Seq<Card>| #[trigger] v2.contains(h) && encodes(x, card_codes(flop_cards(h)));
                                    if h == p0 {
                                        crate::hand::lemma_encodes_unique(x, code, card_codes(flop_cards(p0)));
                                    }
                                    assert(has_flop_key(seen, x));
                                }
                                if m0.contains_key(x) {
                                    let h = choose|h: Seq<Card>| #[trigger] seen.contains(h) && encodes(x, card_codes(flop_cards(h)));
                                    assert(v2.contains(h));
                                }
                            }
                        }
                    }
                    true
                },
                None => {
                    proof {
                        assert(Set::empty().insert(p0).contains(p0));
                        assert(has_flop_key(Set::empty().insert(p0), code));
                    }
                    false
                },
            }
        } else if start == pool.len() {
            proof {
                lemma_picked_exhausted(s, k as nat, p0);
                assert(seen + Set::empty() =~= seen);
            }
            true
        } else {
            let c = pool[start];
            let ghost s1 = pool@.skip(start + 1);
            proof {
                assert(s.drop_first() =~= s1);
                assert(s[0] == c);
                assert(distinct_cards(s)) by {
                    assert forall|i: int, j: int| 0 <= i < j < s.len() implies s[i] != s[j] by {
                        assert(s[i] == pool@[start + i] && s[j] == pool@[start + j]);
                    }
                }
                lemma_picked_split(s, k as nat, p0);
            }
            let ghost a = picked_hands(s1, (k - 1) as nat, p0.push(c));
            let ghost b = picked_hands(s1, k as nat, p0);
            prefix.push(c);
            proof {
                assert(prefix@ == p0.push(c));
                assert(all_valid(prefix@)) by {
                    assert forall|i: int| 0 <= i < prefix@.len() implies (#[trigger] prefix@[i]).valid() by {
                        if i < p0.len() {
                            assert(prefix@[i] == p0[i]);
                        }
                    }
                }
            }
            let ok1 = self.expand_picks(pool, start + 1, k - 1, prefix, table, Ghost(seen));
            prefix.pop();
            proof { assert(prefix@ =~= p0); }
            if !ok1 {
                proof { lemma_unknown_grows(self.flop_table(), a, picked_hands(s, k as nat, p0)); }
                return false;
            }
            let ok2 = self.expand_picks(pool, start + 1, k, prefix, table, Ghost(seen + a));
            proof {
                assert((seen + a) + b =~= seen + picked_hands(s, k as nat, p0));
                if !ok2 {
                    lemma_unknown_grows(self.flop_table(), b, picked_hands(s, k as nat, p0));
                }
            }
            ok2
        }
    }

    /// Adds to the table, under the compact hand of its flop key, the flop table's bucket of
    /// every hand `prefix + t + b` for the picks `t` of `k` cards of `deck[start..]` and `b` of
    /// `n_board` cards of the deck left after taking out the cards of `prefix + t`; false when
    /// the flop table lacks the key of one of them.
    fn expand_deals(
        &self,
        deck: &Vec<Card>,
        start: usize,
        k: usize,
        prefix: &mut Vec<Card>,
        n_board: usize,
        table: &mut HashMap<u64, i32>,
        Ghost(seen): Ghost<Set<Seq<Card>>>,
    ) -> (ok: bool)
        requires
            start <= deck@.len(),
            old(prefix)@.len() + k + n_board == 5,
            all_valid(deck@),
            distinct_cards(deck@),
            all_valid(old(prefix)@),
            expands_keys(old(table)@, self.flop_table(), seen),
        ensures
            final(prefix)@ == old(prefix)@,
            ok ==> expands_keys(final(table)@, self.flop_table(),
                seen + deals_of(deck@.skip(start as int), k as nat, old(prefix)@, deck@, n_board as nat)),
            !ok ==> !flop_keys_known(self.flop_table(),
                deals_of(deck@.skip(start as int), k as nat, old(prefix)@, deck@, n_board as nat)),
        decreases deck@.len() - start, k,
    {
        let ghost p0 = prefix@;
        let ghost s = deck@.skip(start as int);
        if k == 0 {
            let rest = remove_cards(deck, prefix);
            proof {
                lemma_deals_none(s, p0, deck@, n_board as nat);
                lemma_without_valid(deck@, p0);
                lemma_without_distinct(deck@, p0);
                assert(rest@.skip(0) =~= rest@);
            }
            self.expand_picks(&rest, 0, n_board, prefix, table, Ghost(seen))
        } else if start == deck.len() {
            proof {
                lemma_deals_exhausted(s, k as nat, p0, deck@, n_board as nat);
                assert(seen + Set::empty() =~= seen);
            }
            true
        } else {
            let c = deck[start];
            let ghost s1 = deck@.skip(start + 1);
            proof {
                assert(s.drop_first() =~= s1);
                assert(s[0] == c);
                assert(distinct_cards(s)) by {
                    assert forall|i: int, j: int| 0 <= i < j < s.len() implies s[i] != s[j] by {
                        assert(s[i] == deck@[start + i] && s[j] == deck@[start + j]);
                    }
                }
                lemma_deals_split(s, k as nat, p0, deck@, n_board as nat);
            }
            let ghost a = deals_of(s1, (k - 1) as nat, p0.push(c), deck@, n_board as nat);
            let ghost b = deals_of(s1, k as nat, p0, deck@, n_board as nat);
            let ghost all = deals_of(s, k as nat, p0, deck@, n_board as nat);
            prefix.push(c);
            proof {
                assert(prefix@ == p0.push(c));
                assert(all_valid(prefix@)) by {
                    assert forall|i: int| 0 <= i < prefix@.len() implies (#[trigger] prefix@[i]).valid() by {
                        if i < p0.len() {
                            assert(prefix@[i] == p0[i]);
                        }
                    }
                }
            }
            let ok1 = self.expand_deals(deck, start + 1, k - 1, prefix, n_board, table, Ghost(seen));
            prefix.pop();
            proof { assert(prefix@ =~= p0); }
            if !ok1 {
                proof { lemma_unknown_grows(self.flop_table(), a, all); }
                return false;
            }
            let ok2 = self.expand_deals(deck, start + 1, k, prefix, n_board, table, Ghost(seen + a));
            proof {
                assert((seen + a) + b =~= seen + all);
                if !ok2 {
                    lemma_unknown_grows(self.flop_table(), b, all);
                }
            }
            ok2
        }
    }

    /// Expands the flop table to every flop hand: each hand of two hole cards and three board
    /// cards dealt from the deck gets, under the compact hand of its hole cards and of its board
    /// cards, each in card order, its bucket. None when the flop table lacks one of those keys.
    pub fn expand_abstraction_keys(&self) -> (res: Option<HashMap<u64, i32>>)
        ensures
            res is Some <==> flop_keys_known(self.flop_table(), dealt_set(5)),
            res matches Some(t) ==> expands_keys(t@, self.flop_table(), dealt_set(5)),
    {
        let mut table: HashMap<u64, i32> = HashMap::new();
        let deck = deck();
        let mut prefix: Vec<Card> = Vec::new();
        proof {
            assert(deck@ =~= crate::canonical::full_deck());
            lemma_full_deck_valid_distinct();
            assert(prefix@ =~= Seq::<Card>::empty());
            lemma_deals_all(5);
            assert(table@ =~= Map::<u64, i32>::empty());
            assert(all_valid(prefix@));
            assert forall|x: u64| #[trigger] table@.contains_key(x) <==> has_flop_key(Set::empty(), x) by {
                if has_flop_key(Set::empty(), x) {
                    let h = choose|h: Seq<Card>| #[trigger] Set::<Seq<Card>>::empty().contains(h)
                        && encodes(x, card_codes(flop_cards(h)));
                }
            }
        }
        let ok = self.expand_deals(&deck, 0, 2, &mut prefix, 3, &mut table, Ghost(Set::empty()));
        proof {
            assert(Set::<Seq<Card>>::empty() + dealt_set(5) =~= dealt_set(5));
            if ok {
                assert forall|x: u64| #[trigger] has_flop_key(dealt_set(5), x) implies self.flop_table().contains_key(x) by {
                    assert(table@.contains_key(x));
                }
            }
        }
        if ok { Some(table) } else { None }
    }
}

/// The flop key of a hand of five or more cards: its first two cards sorted, then its next
/// three cards sorted.
fn flop_key(cards: &[Card]) -> (res: [Card; 5])
    requires
        cards@.len() >= 5,
    ensures
        res@ == flop_cards(cards@),
{
    let (c0, c1) = if card_le_exec(cards[0], cards[1]) { (cards[0], cards[1]) } else { (cards[1], cards[0]) };
    let (a, b, c) = (cards[2], cards[3], cards[4]);
    let (t0, t1, t2) = if card_le_exec(a, b) {
        if card_le_exec(b, c) { (a, b, c) } else if card_le_exec(a, c) { (a, c, b) } else { (c, a, b) }
    } else {
        if card_le_exec(a, c) { (b, a, c) } else if card_le_exec(b, c) { (b, c, a) } else { (c, b, a) }
    };
    let key = [c0, c1, t0, t1, t2];
    proof {
        assert(key@ =~= flop_cards(cards@));
    }
    key
}

/// The flop key of cards of the deck holds cards of the deck.
proof fn lemma_flop_cards_valid(cards: Seq<Card>)
    requires
        cards.len() >= 5,
        all_valid(cards),
    ensures
        all_valid(flop_cards(cards)),
{
    assert(cards[0].valid() && cards[1].valid() && cards[2].valid() && cards[3].valid() && cards[4].valid());
    let f = flop_cards(cards);
    assert forall|i: int| 0 <= i < f.len() implies (#[trigger] f[i]).valid() by {
        if i < 2 {
            assert(f[i] == sorted_pair(cards[0], cards[1])[i]);
        } else {
            assert(f[i] == sorted_triple(cards[2], cards[3], cards[4])[i - 2]);
        }
    }
}

/// A key that the flop table lacks for some hands, it lacks for more hands.
proof fn lemma_unknown_grows(flop: Map<u64, i32>, part: Set<Seq<Card>>, whole: Set<Seq<Card>>)
    requires
        part.subset_of(whole),
        !flop_keys_known(flop, part),
    ensures
        !flop_keys_known(flop, whole),
{
    let x = choose|x: u64| #[trigger] has_flop_key(part, x) && !flop.contains_key(x);
    let h = choose|h: Seq<Card>| #[trigger] part.contains(h) && encodes(x, card_codes(flop_cards(h)));
    assert(whole.contains(h));
    assert(has_flop_key(whole, x));
}

/// `x` is the compact hand of the flop key of one of the hands.
pub open spec fn has_flop_key(s: Set<Seq<Card>>, x: u64) -> bool {
    exists|h: Seq<Card>| #[trigger] s.contains(h) && encodes(x, card_codes(flop_cards(h)))
}

/// The flop table holds the flop key of every hand of the set.
pub open spec fn flop_keys_known(flop: Map<u64, i32>, s: Set<Seq<Card>>) -> bool {
    forall|x: u64| #[trigger] has_flop_key(s, x) ==> flop.contains_key(x)
}

/// `m` is the flop table cut down to the flop keys of the hands of `s`.
pub open spec fn expands_keys(m: Map<u64, i32>, flop: Map<u64, i32>, s: Set<Seq<Card>>) -> bool {
    &&& forall|x: u64| #[trigger] m.contains_key(x) <==> has_flop_key(s, x)
    &&& forall|x: u64| #[trigger] m.contains_key(x) ==> flop.contains_key(x) && m[x] == flop[x]
}

/// Whether card `a` comes before or equals card `b` in the order of `Card`.
fn card_le_exec(a: Card, b: Card) -> (res: bool)
    ensures
        res == rank_le(a, b),
{
    a.rank < b.rank || (a.rank == b.rank && a.suit <= b.suit)
}


/// The class of a two-card hand: its lower rank, its higher rank, and whether it is suited.
pub open spec fn preflop_class(a: Card, b: Card) -> (int, int, bool) {
    let (lo, hi) = if a.rank <= b.rank { (a.rank as int, b.rank as int) } else { (b.rank as int, a.rank as int) };
    (lo, hi, a.suit == b.suit)
}

proof fn lemma_base13(a: int, b: int, c: int, d: int)
    requires
        0 <= a <= 12,
        0 <= b <= 12,
        0 <= c <= 12,
        0 <= d <= 12,
        a * 13 + b == c * 13 + d,
    ensures
        a == c,
        b == d,
{
    assert(a == c) by (nonlinear_arith)
        requires
            0 <= b <= 12,
            0 <= d <= 12,
            a * 13 + b == c * 13 + d;
}

/// The preflop bin of two different cards of the deck lies in 0..169 and tells exactly the
/// class of the hand (its two ranks and whether it is suited), so the 169 classes of preflop
/// hands get 169 different bins.
pub proof fn law_preflop_bin_class(a: Card, b: Card, c: Card, d: Card)
    requires
        a.valid(),
        b.valid(),
        c.valid(),
        d.valid(),
        a != b,
        c != d,
    ensures
        0 <= preflop_bin_of(a, b) < 169,
        preflop_bin_of(a, b) == preflop_bin_of(c, d) <==> preflop_class(a, b) == preflop_class(c, d),
{
    let x = preflop_bin_of(a, b);
    let y = preflop_bin_of(c, d);
    let (lo1, hi1) = if b.rank < a.rank { (b, a) } else { (a, b) };
    let (lo2, hi2) = if d.rank < c.rank { (d, c) } else { (c, d) };
    let r1 = lo1.rank - 2;
    let r2 = hi1.rank - 2;
    let s1 = lo2.rank - 2;
    let s2 = hi2.rank - 2;
    assert(0 <= r1 * 13 + r2 < 169) by (nonlinear_arith)
        requires 0 <= r1 <= 12, 0 <= r2 <= 12;
    assert(0 <= r2 * 13 + r1 < 169) by (nonlinear_arith)
        requires 0 <= r1 <= 12, 0 <= r2 <= 12;
    if x == y {
        if lo1.suit == hi1.suit {
            if lo2.suit == hi2.suit {
                lemma_base13(r1, r2, s1, s2);
            } else {
                lemma_base13(r1, r2, s2, s1);
            }
        } else {
            if lo2.suit == hi2.suit {
                lemma_base13(r2, r1, s1, s2);
            } else {
                lemma_base13(r2, r1, s2, s1);
            }
        }
    }
}

/// A canonical preflop hand: a club, then a diamond of the same or a higher rank, or a club of
/// a higher rank.
pub open spec fn canonical_preflop(h: Seq<Card>) -> bool {
    &&& h.len() == 2
    &&& h[0].suit == CLUBS
    &&& 2 <= h[0].rank <= h[1].rank <= 14
    &&& (h[1].suit == DIAMONDS || (h[1].suit == CLUBS && h[0].rank < h[1].rank))
}

/// The position of a canonical preflop hand in the order of generation.
pub open spec fn preflop_order(h: Seq<Card>) -> int {
    (h[0].rank * 15 + h[1].rank) * 2 + if h[1].suit == CLUBS { 1int } else { 0int }
}

/// How many canonical preflop hands have a lower rank below `i`.
pub open spec fn preflop_rows(i: int) -> int {
    30 * i - i * i - 56
}

/// One hand of each of the 169 classes of preflop hands: for each pair of ranks an offsuit hand,
/// and a suited one when the ranks differ.
pub fn isomorphic_preflop_hands() -> (res: Vec<Vec<Card>>)
    ensures
        res@.len() == 169,
        forall|k: int| 0 <= k < 169 ==> canonical_preflop(#[trigger] res@[k]@),
        forall|k1: int, k2: int| 0 <= k1 < k2 < 169 ==> res@[k1]@ != res@[k2]@,
{
    let mut preflop_hands: Vec<Vec<Card>> = Vec::new();
    let mut i: u8 = 2;
    while i < 15
        invariant
            2 <= i <= 15,
            preflop_hands@.len() == preflop_rows(i as int),
            forall|k: int| 0 <= k < preflop_hands@.len() ==> canonical_preflop(#[trigger] preflop_hands@[k]@),
            forall|k1: int, k2: int| 0 <= k1 < k2 < preflop_hands@.len() ==>
                preflop_order(preflop_hands@[k1]@) < preflop_order(preflop_hands@[k2]@),
            forall|k: int| 0 <= k < preflop_hands@.len() ==> preflop_order(#[trigger] preflop_hands@[k]@) < (i * 15) * 2,
        decreases 15 - i,
    {
        let mut j: u8 = i;
        let ghost start = preflop_hands@.len();
        while j < 15
            invariant
                2 <= i < 15,
                i <= j <= 15,
                start == preflop_rows(i as int),
                preflop_hands@.len() == start + if j == i { 0int } else { 2 * (j - i) - 1 },
                forall|k: int| 0 <= k < preflop_hands@.len() ==> canonical_preflop(#[trigger] preflop_hands@[k]@),
                forall|k1: int, k2: int| 0 <= k1 < k2 < preflop_hands@.len() ==>
                    preflop_order(preflop_hands@[k1]@) < preflop_order(preflop_hands@[k2]@),
                forall|k: int| 0 <= k < preflop_hands@.len() ==> preflop_order(#[trigger] preflop_hands@[k]@) < (i * 15 + j) * 2,
            decreases 15 - j,
        {
            let offsuit = vec![Card { rank: i, suit: CLUBS as u8 }, Card { rank: j, suit: DIAMONDS as u8 }];
            proof { assert(preflop_order(offsuit@) == (i * 15 + j) * 2); }
            preflop_hands.push(offsuit);
            if i != j {
                let suited = vec![Card { rank: i, suit: CLUBS as u8 }, Card { rank: j, suit: CLUBS as u8 }];
                proof { assert(preflop_order(suited@) == (i * 15 + j) * 2 + 1); }
                preflop_hands.push(suited);
            }
            j = j + 1;
        }
        proof {
            assert(preflop_rows(i + 1) == preflop_rows(i as int) + 2 * (15 - i) - 1) by (nonlinear_arith);
        }
        i = i + 1;
    }
    proof {
        assert(preflop_rows(15) == 169) by (nonlinear_arith);
        assert forall|k1: int, k2: int| 0 <= k1 < k2 < 169 implies preflop_hands@[k1]@ != preflop_hands@[k2]@ by {
            assert(preflop_order(preflop_hands@[k1]@) < preflop_order(preflop_hands@[k2]@));
        }
    }
    preflop_hands
}

/// The buckets of a table look like those of an abstraction with `n_buckets` buckets: the least
/// is 0 and the greatest is at least `n_buckets - 10`.
pub open spec fn buckets_span(t: Map<u64, i32>, n_buckets: i32) -> bool {
    &&& exists|k: u64| #[trigger] t.contains_key(k) && t[k] >= n_buckets - 10
    &&& exists|k: u64| #[trigger] t.contains_key(k) && t[k] == 0
    &&& forall|k: u64| #[trigger] t.contains_key(k) ==> t[k] >= 0
}

/// Whether the buckets of a loaded table match the configured number of buckets (see
/// `buckets_span`).
pub fn buckets_match(table: &HashMap<u64, i32>, n_buckets: i32) -> (res: bool)
    ensures
        res == buckets_span(table@, n_buckets),
{
    let mut big = false;
    let mut zero = false;
    let mut nonneg = true;
    let ghost vals = vstd::std_specs::hash::spec_values_iter(table).remaining().unref();
    let ghost mut count: int = 0;
    let low: i64 = n_buckets as i64 - 10;
    for v in it: table.values()
        invariant
            it.seq().unref() == vals,
            count == it.index(),
            low == n_buckets - 10,
            big == exists|j: int| 0 <= j < count && #[trigger] vals[j] >= n_buckets - 10,
            zero == exists|j: int| 0 <= j < count && #[trigger] vals[j] == 0,
            nonneg == forall|j: int| 0 <= j < count ==> #[trigger] vals[j] >= 0,
    {
        proof {
            assert(*v == vals[count]);
        }
        if *v as i64 >= low {
            big = true;
        }
        if *v == 0 {
            zero = true;
        }
        if *v < 0 {
            nonneg = false;
        }
        proof {
            count = count + 1;
        }
    }
    proof {
        assert(count == vals.len());
        let t = table@;
        assert(vals.to_set() == t.values());
        assert(big == exists|k: u64| #[trigger] t.contains_key(k) && t[k] >= n_buckets - 10) by {
            if big {
                let j = choose|j: int| 0 <= j < count && #[trigger] vals[j] >= n_buckets - 10;
                assert(vals.to_set().contains(vals[j]));
                let k = choose|k: u64| #[trigger] t.contains_key(k) && t[k] == vals[j];
            }
            if exists|k: u64| #[trigger] t.contains_key(k) && t[k] >= n_buckets - 10 {
                let k = choose|k: u64| #[trigger] t.contains_key(k) && t[k] >= n_buckets - 10;
                assert(t.values().contains(t[k]));
                let j = choose|j: int| 0 <= j < vals.len() && vals[j] == t[k];
            }
        }
        assert(zero == exists|k: u64| #[trigger] t.contains_key(k) && t[k] == 0) by {
            if zero {
                let j = choose|j: int| 0 <= j < count && #[trigger] vals[j] == 0;
                assert(vals.to_set().contains(vals[j]));
                let k = choose|k: u64| #[trigger] t.contains_key(k) && t[k] == vals[j];
            }
            if exists|k: u64| #[trigger] t.contains_key(k) && t[k] == 0 {
                let k = choose|k: u64| #[trigger] t.contains_key(k) && t[k] == 0;
                assert(t.values().contains(t[k]));
                let j = choose|j: int| 0 <= j < vals.len() && vals[j] == t[k];
            }
        }
        assert(nonneg == forall|k: u64| #[trigger] t.contains_key(k) ==> t[k] >= 0) by {
            if nonneg {
                assert forall|k: u64| #[trigger] t.contains_key(k) implies t[k] >= 0 by {
                    assert(t.values().contains(t[k]));
                    let j = choose|j: int| 0 <= j < vals.len() && vals[j] == t[k];
                }
            } else {
                let j = choose|j: int| 0 <= j < count && !(#[trigger] vals[j] >= 0);
                assert(vals.to_set().contains(vals[j]));
                let k = choose|k: u64| #[trigger] t.contains_key(k) && t[k] == vals[j];
            }
        }
    }
    big && zero && nonneg
}

/// The keys among `keys` whose bucket in the table is `b`.
pub open spec fn bucket_keys(t: Map<u64, i32>, keys: Set<u64>, b: int) -> Set<u64> {
    keys.filter(|k: u64| t[k] == b)
}

/// How many keys of the table have the bucket `b`.
pub open spec fn bucket_size(t: Map<u64, i32>, b: int) -> nat {
    bucket_keys(t, t.dom(), b).len()
}

/// How many hands each bucket of a table holds.
pub fn bucket_sizes(table: &HashMap<u64, i32>, n_buckets: usize) -> (res: Vec<i32>)
    requires
        forall|k: u64| #[trigger] table@.contains_key(k) ==> 0 <= table@[k] < n_buckets,
        forall|b: int| 0 <= b < n_buckets ==> #[trigger] bucket_size(table@, b) <= i32::MAX,
    ensures
        res@.len() == n_buckets,
        forall|b: int| 0 <= b < n_buckets ==> #[trigger] res@[b] == bucket_size(table@, b),
{
    let ghost t = table@;
    let mut lens: Vec<i32> = Vec::new();
    for i in 0..n_buckets
        invariant
            lens@.len() == i,
            forall|b: int| 0 <= b < i ==> #[trigger] lens@[b] == 0,
    {
        lens.push(0);
    }
    let ghost pairs = vstd::std_specs::hash::spec_hash_map_iter(table).remaining().unref();
    let ghost mut seen: Set<u64> = Set::empty();
    let ghost mut count: int = 0;
    proof {
        assert forall|b: int| 0 <= b < n_buckets implies #[trigger] lens@[b] == bucket_keys(t, seen, b).len() by {
            assert(bucket_keys(t, seen, b) =~= Set::empty());
        }
    }
    for item in it: table.iter()
        invariant
            t == table@,
            it.seq() == vstd::std_specs::hash::spec_hash_map_iter(table).remaining(),
            it.seq().no_duplicates(),
            it.seq().unref() == pairs,
            count == it.index(),
            lens@.len() == n_buckets,
            seen.subset_of(t.dom()),
            forall|k: u64| #[trigger] seen.contains(k) <==> exists|j: int| 0 <= j < count && #[trigger] pairs[j].0 == k,
            forall|b: int| 0 <= b < n_buckets ==> #[trigger] lens@[b] == bucket_keys(t, seen, b).len(),
            forall|k: u64| #[trigger] t.contains_key(k) ==> 0 <= t[k] < n_buckets,
            forall|b: int| 0 <= b < n_buckets ==> #[trigger] bucket_size(t, b) <= i32::MAX,
    {
        let (k, v) = item;
        let b = *v as usize;
        proof {
            vstd::std_specs::hash::axiom_hashmap_view_finite_dom(*table);
            let key = *k;
            assert(pairs[count] == (key, *v));
            assert(t.contains_key(key) && t[key] == *v);
            assert(!seen.contains(key)) by {
                if seen.contains(key) {
                    let j = choose|j: int| 0 <= j < count && #[trigger] pairs[j].0 == key;
                    assert(t.contains_key(pairs[j].0) && t[pairs[j].0] == pairs[j].1);
                    assert(pairs[j] == pairs[count]);
                    assert(it.seq()[j] == it.seq()[count]);
                }
            }
            lemma_len_subset(seen, t.dom());
            let bb = b as int;
            assert(bb == t[key]);
            assert(bucket_keys(t, seen.insert(key), bb) =~= bucket_keys(t, seen, bb).insert(key));
            lemma_len_subset(bucket_keys(t, seen, bb), seen);
            lemma_len_subset(bucket_keys(t, t.dom(), bb), t.dom());
            lemma_len_subset(bucket_keys(t, seen.insert(key), bb), bucket_keys(t, t.dom(), bb));
            assert(bucket_keys(t, seen.insert(key), bb).len() == bucket_keys(t, seen, bb).len() + 1);
            assert(bucket_size(t, bb) <= i32::MAX);
        }
        let old_len = lens[b];
        lens.set(b, old_len + 1);
        proof {
            let key = *k;
            let old_seen = seen;
            seen = seen.insert(key);
            assert forall|c: int| 0 <= c < n_buckets implies #[trigger] lens@[c] == bucket_keys(t, seen, c).len() by {
                if c != b as int {
                    assert(bucket_keys(t, seen, c) =~= bucket_keys(t, old_seen, c));
                }
            }
            assert forall|k2: u64| #[trigger] seen.contains(k2) <==> exists|j: int| 0 <= j < count + 1 && #[trigger] pairs[j].0 == k2 by {
                if seen.contains(k2) && k2 != key {
                    let j = choose|j: int| 0 <= j < count && #[trigger] pairs[j].0 == k2;
                }
                if exists|j: int| 0 <= j < count + 1 && #[trigger] pairs[j].0 == k2 {
                    let j = choose|j: int| 0 <= j < count + 1 && #[trigger] pairs[j].0 == k2;
                    if j < count {
                        assert(old_seen.contains(k2));
                    }
                }
            }
            count = count + 1;
        }
    }
    proof {
        assert(seen =~= t.dom()) by {
            assert forall|k: u64| t.contains_key(k) implies seen.contains(k) by {
                let v = vstd::std_specs::hash::spec_hash_map_iter(table).remaining();
                assert(v.contains((&k, &t[k])));
                let j = choose|j: int| 0 <= j < v.len() && v[j] == (&k, &t[k]);
                assert(pairs[j].0 == k);
            }
        }
    }
    lens
}

/// The least positive bucket size, if any bucket holds hands.
pub fn smallest_bucket(sizes: &[i32]) -> (res: Option<i32>)
    ensures
        res is None <==> forall|b: int| 0 <= b < sizes@.len() ==> #[trigger] sizes@[b] <= 0,
        res matches Some(m) ==> m > 0 && (exists|b: int| 0 <= b < sizes@.len() && #[trigger] sizes@[b] == m)
            && forall|b: int| 0 <= b < sizes@.len() && #[trigger] sizes@[b] > 0 ==> m <= sizes@[b],
{
    let mut best: Option<i32> = None;
    for i in 0..sizes.len()
        invariant
            best is None <==> forall|b: int| 0 <= b < i ==> #[trigger] sizes@[b] <= 0,
            best matches Some(m) ==> m > 0 && (exists|b: int| 0 <= b < i && #[trigger] sizes@[b] == m)
                && forall|b: int| 0 <= b < i && #[trigger] sizes@[b] > 0 ==> m <= sizes@[b],
    {
        let x = sizes[i];
        if x > 0 {
            match best {
                None => { best = Some(x); },
                Some(m) => {
                    if x < m {
                        best = Some(x);
                    }
                },
            }
        }
    }
    best
}

/// The chart name of a starting hand: the ranks of its two cards, then `s` when they are suited
/// and `o` when not, as in "AKs" or "72o".
pub open spec fn preflop_name(a: Card, b: Card) -> Seq<char> {
    seq![rank_char(a.rank as int), rank_char(b.rank as int), if a.suit == b.suit { 's' } else { 'o' }]
}

/// Names a starting hand for the preflop chart (see `preflop_name`).
pub fn preflop_hand_name(hand: &[Card]) -> (res: String)
    requires
        hand@.len() >= 2,
        2 <= hand@[0].rank <= 14,
        2 <= hand@[1].rank <= 14,
    ensures
        res@ == preflop_name(hand@[0], hand@[1]),
{
    let mut name = rank_str(hand[0].rank);
    let second = rank_str(hand[1].rank);
    name.append(second.as_str());
    let suited = hand[0].suit == hand[1].suit;
    let tail = if suited { "s" } else { "o" };
    proof {
        reveal_strlit("s");
        reveal_strlit("o");
    }
    name.append(tail);
    name
}

} // verus!
