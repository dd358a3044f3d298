use std::collections::HashMap;
use vstd::prelude::*;
use crate::card::{Card, cards_text, cards2str, valid_cards_text, parse_cards_text};
use crate::hand::{bitmap_defined, bitmap_shift, bitmap_sum, cards2bitmap, law_bitmap_membership};
use crate::canonical::{all_valid, full_deck, is_combo, lemma_combo_distinct, lemma_combo_same_cards, lemma_combo_subset};
use crate::card::{deck, deck_card};

verus! {

broadcast use vstd::std_specs::hash::group_hash_axioms;

/// The kind of a poker hand and its strength within the kind, as rs_poker ranks it; a larger
/// strength is a better hand of the same kind.
#[derive(Debug, Clone, Copy, PartialEq, Eq, Structural)]
pub enum PokerRank {
    HighCard(u32),
    OnePair(u32),
    TwoPair(u32),
    ThreeOfAKind(u32),
    Straight(u32),
    Flush(u32),
    FullHouse(u32),
    FourOfAKind(u32),
    StraightFlush(u32),
}

impl PokerRank {
    /// The kind of hand, from 0 (high card) to 8 (straight flush).
    pub open spec fn kind(self) -> int {
        match self {
            PokerRank::HighCard(_) => 0,
            PokerRank::OnePair(_) => 1,
            PokerRank::TwoPair(_) => 2,
            PokerRank::ThreeOfAKind(_) => 3,
            PokerRank::Straight(_) => 4,
            PokerRank::Flush(_) => 5,
            PokerRank::FullHouse(_) => 6,
            PokerRank::FourOfAKind(_) => 7,
            PokerRank::StraightFlush(_) => 8,
        }
    }

    /// The strength within the kind.
    pub open spec fn strength(self) -> u32 {
        match self {
            PokerRank::HighCard(s) => s,
            PokerRank::OnePair(s) => s,
            PokerRank::TwoPair(s) => s,
            PokerRank::ThreeOfAKind(s) => s,
            PokerRank::Straight(s) => s,
            PokerRank::Flush(s) => s,
            PokerRank::FullHouse(s) => s,
            PokerRank::FourOfAKind(s) => s,
            PokerRank::StraightFlush(s) => s,
        }
    }
}

/// The rank that rs_poker gives the hand written by a text of card names.
pub uninterp spec fn poker_rank(hand: Seq<char>) -> PokerRank;

/// No card occurs twice.
pub open spec fn distinct_cards(cards: Seq<Card>) -> bool {
    forall|i: int, j: int| 0 <= i < j < cards.len() ==> cards[i] != cards[j]
}

/// The two sequences hold the same cards.
pub open spec fn same_card_set(a: Seq<Card>, b: Seq<Card>) -> bool {
    forall|c: Card| #[trigger] a.contains(c) <==> b.contains(c)
}

/// `t` is a text of card names that names the cards of `cards`, each once, in some order.
pub open spec fn names_same_cards(t: Seq<char>, cards: Seq<Card>) -> bool {
    &&& valid_cards_text(t)
    &&& distinct_cards(parse_cards_text(t))
    &&& same_card_set(parse_cards_text(t), cards)
}

/// Every other order of the same cards has the same strength value.
pub open spec fn set_ranked(cards: Seq<Card>) -> bool {
    forall|cs: Seq<Card>| all_valid(cs) && distinct_cards(cs) && same_card_set(cs, cards) ==>
        #[trigger] hand_value(cs) == hand_value(cards)
}

/// Ranks a hand of five to seven cards with rs_poker: `Hand::new_from_str` reads the text (it
/// accepts a text of distinct card names) into a set of cards, and `Rankable::rank` ranks the best
/// five of them. The contract claims that the result is a function of the text, that texts
/// naming the same set of cards get the same rank (a `Hand` is a set of cards), and that every
/// strength rs_poker builds stays below 2^26 (two 13-bit rank masks, as rank.rs builds them).
/// Not said: how the rank is computed. It is called with five to seven cards: `rank` panics on
/// some hands of four cards, and on hands of eight that are two four-of-a-kinds.
#[verifier::external_body]
fn rank_hand(hand: &str) -> (res: PokerRank)
    requires
        valid_cards_text(hand@),
        distinct_cards(parse_cards_text(hand@)),
        10 <= hand@.len() <= 14,
    ensures
        res == poker_rank(hand@),
        forall|t: Seq<char>| names_same_cards(t, parse_cards_text(hand@)) ==> #[trigger] poker_rank(t) == res,
        res.strength() < 0x400_0000,
{
    let parsed = rs_poker::core::Hand::new_from_str(hand).unwrap();
    match rs_poker::core::Rankable::rank(&parsed) {
        rs_poker::core::Rank::HighCard(s) => PokerRank::HighCard(s),
        rs_poker::core::Rank::OnePair(s) => PokerRank::OnePair(s),
        rs_poker::core::Rank::TwoPair(s) => PokerRank::TwoPair(s),
        rs_poker::core::Rank::ThreeOfAKind(s) => PokerRank::ThreeOfAKind(s),
        rs_poker::core::Rank::Straight(s) => PokerRank::Straight(s),
        rs_poker::core::Rank::Flush(s) => PokerRank::Flush(s),
        rs_poker::core::Rank::FullHouse(s) => PokerRank::FullHouse(s),
        rs_poker::core::Rank::FourOfAKind(s) => PokerRank::FourOfAKind(s),
        rs_poker::core::Rank::StraightFlush(s) => PokerRank::StraightFlush(s),
    }
}

/// The strength value of a rank: 100 000 000 per kind plus the strength within the kind, so a
/// better hand has a larger value.
pub open spec fn rank_value(rank: PokerRank) -> int {
    rank.kind() * 100_000_000 + rank.strength()
}

/// The strength value of a rank (see `rank_value`).
pub fn rank_strength(rank: PokerRank) -> (res: i32)
    requires
        rank.strength() < 0x400_0000,
    ensures
        res == rank_value(rank),
{
    let step: i32 = 100_000_000;
    let (rank_val, rank_strength): (i32, u32) = match rank {
        PokerRank::HighCard(strength) => (0, strength),
        PokerRank::OnePair(strength) => (1, strength),
        PokerRank::TwoPair(strength) => (2, strength),
        PokerRank::ThreeOfAKind(strength) => (3, strength),
        PokerRank::Straight(strength) => (4, strength),
        PokerRank::Flush(strength) => (5, strength),
        PokerRank::FullHouse(strength) => (6, strength),
        PokerRank::FourOfAKind(strength) => (7, strength),
        PokerRank::StraightFlush(strength) => (8, strength),
    };
    rank_val * step + rank_strength as i32
}

/// Each kind of hand beats every weaker kind, whatever the strengths within the kinds, in the
/// order of rs_poker's `Rank`: high card, one pair, two pair, three of a kind, straight, flush,
/// full house, four of a kind, straight flush. Within a kind a larger strength gives a larger
/// value. The values are the kind's place in that order (from 0) times 100 000 000, plus the
/// strength.
pub proof fn law_rank_value_order(s: u32, t: u32)
    requires
        s < 0x400_0000,
        t < 0x400_0000,
    ensures
        rank_value(PokerRank::HighCard(s)) < rank_value(PokerRank::OnePair(t)),
        rank_value(PokerRank::OnePair(s)) < rank_value(PokerRank::TwoPair(t)),
        rank_value(PokerRank::TwoPair(s)) < rank_value(PokerRank::ThreeOfAKind(t)),
        rank_value(PokerRank::ThreeOfAKind(s)) < rank_value(PokerRank::Straight(t)),
        rank_value(PokerRank::Straight(s)) < rank_value(PokerRank::Flush(t)),
        rank_value(PokerRank::Flush(s)) < rank_value(PokerRank::FullHouse(t)),
        rank_value(PokerRank::FullHouse(s)) < rank_value(PokerRank::FourOfAKind(t)),
        rank_value(PokerRank::FourOfAKind(s)) < rank_value(PokerRank::StraightFlush(t)),
        s < t ==> rank_value(PokerRank::HighCard(s)) < rank_value(PokerRank::HighCard(t)),
        s < t ==> rank_value(PokerRank::OnePair(s)) < rank_value(PokerRank::OnePair(t)),
        s < t ==> rank_value(PokerRank::TwoPair(s)) < rank_value(PokerRank::TwoPair(t)),
        s < t ==> rank_value(PokerRank::ThreeOfAKind(s)) < rank_value(PokerRank::ThreeOfAKind(t)),
        s < t ==> rank_value(PokerRank::Straight(s)) < rank_value(PokerRank::Straight(t)),
        s < t ==> rank_value(PokerRank::Flush(s)) < rank_value(PokerRank::Flush(t)),
        s < t ==> rank_value(PokerRank::FullHouse(s)) < rank_value(PokerRank::FullHouse(t)),
        s < t ==> rank_value(PokerRank::FourOfAKind(s)) < rank_value(PokerRank::FourOfAKind(t)),
        s < t ==> rank_value(PokerRank::StraightFlush(s)) < rank_value(PokerRank::StraightFlush(t)),
        rank_value(PokerRank::HighCard(s)) == s,
        rank_value(PokerRank::OnePair(s)) == 100_000_000 + s,
        rank_value(PokerRank::TwoPair(s)) == 200_000_000 + s,
        rank_value(PokerRank::ThreeOfAKind(s)) == 300_000_000 + s,
        rank_value(PokerRank::Straight(s)) == 400_000_000 + s,
        rank_value(PokerRank::Flush(s)) == 500_000_000 + s,
        rank_value(PokerRank::FullHouse(s)) == 600_000_000 + s,
        rank_value(PokerRank::FourOfAKind(s)) == 700_000_000 + s,
        rank_value(PokerRank::StraightFlush(s)) == 800_000_000 + s,
{
}

/// Evaluates the strength of a hand of five to seven cards with rs_poker: a larger value is a
/// better hand, and the order of the cards does not matter. The five-to-seven bound is the
/// domain on which the call into rs_poker is known not to panic (see `rank_hand`); every hand
/// the library ranks, a flop, turn or river hand, lies in it.
pub fn hand_strength(cards: &[Card]) -> (res: i32)
    requires
        forall|i: int| 0 <= i < cards@.len() ==> (#[trigger] cards@[i]).valid(),
        distinct_cards(cards@),
        5 <= cards@.len() <= 7,
    ensures
        res == rank_value(poker_rank(cards_text(cards@))),
        set_ranked(cards@),
{
    let hand = cards2str(cards);
    proof { lemma_cards_text_parse(cards@); }
    let rank = rank_hand(hand.as_str());
    proof {
        assert forall|cs: Seq<Card>| all_valid(cs) && distinct_cards(cs) && same_card_set(cs, cards@) implies
            #[trigger] hand_value(cs) == hand_value(cards@) by {
            lemma_cards_text_parse(cs);
            assert(names_same_cards(cards_text(cs), parse_cards_text(hand@)));
            assert(poker_rank(cards_text(cs)) == rank);
        }
    }
    rank_strength(rank)
}

/// The names of valid cards form a text of card names that reads back as the same cards.
pub proof fn lemma_cards_text_parse(cards: Seq<Card>)
    requires
        forall|i: int| 0 <= i < cards.len() ==> (#[trigger] cards[i]).valid(),
    ensures
        valid_cards_text(cards_text(cards)),
        parse_cards_text(cards_text(cards)) == cards,
        cards_text(cards).len() == 2 * cards.len(),
    decreases cards.len(),
{
    let t = cards_text(cards);
    if cards.len() > 0 {
        let prev = cards.drop_last();
        lemma_cards_text_parse(prev);
        let pt = cards_text(prev);
        let c = cards.last();
        assert(c == cards[cards.len() - 1]);
        assert(t == pt + c.name());
        assert forall|k: int| 0 <= k < t.len() / 2 implies rank_of_char_some(#[trigger] t[2 * k]) by {
            if k < pt.len() / 2 {
                assert(t[2 * k] == pt[2 * k]);
            } else {
                assert(t[2 * k] == c.name()[0]);
            }
        }
        assert forall|k: int| 0 <= k < t.len() / 2 implies suit_of_char_some(#[trigger] t[2 * k + 1]) by {
            if k < pt.len() / 2 {
                assert(t[2 * k + 1] == pt[2 * k + 1]);
            } else {
                assert(t[2 * k + 1] == c.name()[1]);
            }
        }
        assert(parse_cards_text(t) =~= cards) by {
            assert forall|k: int| 0 <= k < cards.len() implies parse_cards_text(t)[k] == cards[k] by {
                if k < prev.len() {
                    assert(t[2 * k] == pt[2 * k]);
                    assert(t[2 * k + 1] == pt[2 * k + 1]);
                    assert(parse_cards_text(pt)[k] == prev[k]);
                } else {
                    assert(t[2 * k] == c.name()[0]);
                    assert(t[2 * k + 1] == c.name()[1]);
                }
            }
        }
    } else {
        assert(parse_cards_text(t) =~= cards);
    }
}

pub open spec fn rank_of_char_some(c: char) -> bool {
    crate::card::rank_of_char(c) is Some
}

pub open spec fn suit_of_char_some(c: char) -> bool {
    crate::card::suit_of_char(c) is Some
}

/// A lookup table from bitmap hands to hand strengths.
pub struct FastHandTable {
    strengths: HashMap<u64, i32>,
}

impl View for FastHandTable {
    type V = Map<u64, i32>;

    closed spec fn view(&self) -> Map<u64, i32> {
        self.strengths@
    }
}

impl FastHandTable {
    /// The table of every hand of seven cards: the saved strengths when there are any, else
    /// the strength of every seven cards picked from the deck, evaluated with rs_poker (the
    /// caller may then save them).
    pub fn new(saved: Option<HashMap<u64, i32>>) -> (res: FastHandTable)
        ensures
            match saved {
                Some(m) => res@ == m@,
                None => all_hands_table(res@),
            },
    {
        match saved {
            Some(strengths) => FastHandTable { strengths },
            None => {
                let mut table = FastHandTable::empty();
                let deck = deck();
                let mut prefix: Vec<Card> = Vec::new();
                proof {
                    assert(deck@ =~= full_deck());
                    lemma_full_deck_valid_distinct();
                    assert(prefix@ + deck@.skip(0) =~= deck@);
                }
                table.add_picks(&deck, 0, 7, &mut prefix);
                proof {
                    let t0 = table@;
                    let e = Seq::<Card>::empty();
                    assert(deck@.skip(0) =~= deck@);
                    assert forall|key: u64| #[trigger] t0.contains_key(key) implies
                        picked_value(key, t0[key], full_deck(), 7, Seq::<Card>::empty()) by {
                        assert(!Map::<u64, i32>::empty().contains_key(key));
                    }
                    assert forall|key: u64| #[trigger] t0.contains_key(key) implies
                        exists|h: Seq<Card>| h.len() == 7 && #[trigger] is_combo(full_deck(), h)
                            && bitmap_sum(h) == key && t0[key] == hand_value(h) by {
                        let t = choose|t: Seq<Card>| t.len() == 7 && #[trigger] is_combo(full_deck(), t)
                            && bitmap_sum(e + t) == key && hand_value(e + t) == t0[key];
                        assert(e + t =~= t);
                    }
                    assert forall|h: Seq<Card>| h.len() == 7 && #[trigger] is_combo(full_deck(), h) implies
                        t0.contains_key(bitmap_sum(h) as u64) && t0[bitmap_sum(h) as u64] == hand_value(h) by {
                        assert(e + h =~= h);
                        let key = bitmap_sum(h) as u64;
                        lemma_full_deck_valid_distinct();
                        lemma_combo_subset(full_deck(), h);
                        lemma_combo_distinct(full_deck(), h);
                        assert forall|i: int| 0 <= i < h.len() implies (#[trigger] h[i]).valid() by {
                            let j = choose|j: int| 0 <= j < full_deck().len() && full_deck()[j] == h[i];
                        }
                        law_bitmap_membership(h, Card { rank: 2, suit: 0 });
                        assert(bitmap_sum(h) == key);
                        let h2 = choose|h2: Seq<Card>| h2.len() == 7 && #[trigger] is_combo(full_deck(), h2)
                            && bitmap_sum(h2) == key && t0[key] == hand_value(h2);
                        lemma_bitmap_injective(h, h2);
                    }
                    assert forall|cs: Seq<Card>| cs.len() == 7 && all_valid(cs) && distinct_cards(cs) implies
                        t0.contains_key(#[trigger] bitmap_sum(cs) as u64) && t0[bitmap_sum(cs) as u64] == hand_value(cs) by {
                        let h = lemma_seven_cards_picked(cs);
                        law_bitmap_order_independent(h, cs);
                        assert(e + h =~= h);
                        assert(t0.contains_key(bitmap_sum(h) as u64) && t0[bitmap_sum(h) as u64] == hand_value(h));
                        assert(set_ranked(e + h));
                        assert(same_card_set(cs, h));
                        assert(hand_value(cs) == hand_value(h));
                    }
                }
                table
            },
        }
    }

    /// Records the strength of `prefix + t` for every pick `t` of `k` cards of `pool[start..]`.
    fn add_picks(&mut self, pool: &Vec<Card>, start: usize, k: usize, prefix: &mut Vec<Card>)
        requires
            start <= pool@.len(),
            old(prefix)@.len() + k == 7,
            all_valid(pool@),
            all_valid(old(prefix)@),
            distinct_cards(old(prefix)@ + pool@.skip(start as int)),
        ensures
            final(prefix)@ == old(prefix)@,
            forall|key: u64| old(self)@.contains_key(key) ==> #[trigger] final(self)@.contains_key(key),
            forall|key: u64| #[trigger] final(self)@.contains_key(key) ==>
                (old(self)@.contains_key(key) && final(self)@[key] == old(self)@[key])
                || picked_value(key, final(self)@[key], pool@.skip(start as int), k as nat, old(prefix)@),
            forall|t: Seq<Card>| t.len() == k && #[trigger] is_combo(pool@.skip(start as int), t) ==>
                final(self)@.contains_key(bitmap_sum(old(prefix)@ + t) as u64)
                && set_ranked(old(prefix)@ + t),
        decreases pool@.len() - start, k,
    {
        let ghost p0 = prefix@;
        let ghost o0 = self@;
        let ghost s = pool@.skip(start as int);
        let ghost e = Seq::<Card>::empty();
        if k == 0 {
            proof {
                assert(p0 + s =~= p0 + s);
                assert(distinct_cards(p0)) by {
                    assert forall|i: int, j: int| 0 <= i < j < p0.len() implies p0[i] != p0[j] by {
                        assert((p0 + s)[i] == p0[i]);
                        assert((p0 + s)[j] == p0[j]);
                    }
                }
                lemma_bitmap_bound(p0);
            }
            self.add_hand(prefix.as_slice());
            proof {
                assert(p0 + e =~= p0);
                assert(is_combo(s, e));
                assert forall|key: u64| #[trigger] self@.contains_key(key) implies
                    (o0.contains_key(key) && self@[key] == o0[key])
                    || picked_value(key, self@[key], s, 0, p0) by {
                    if key == bitmap_sum(p0) as u64 {
                        assert(bitmap_sum(p0 + e) == key);
                    }
                }
                assert forall|t: Seq<Card>| t.len() == k && #[trigger] is_combo(s, t) implies
                    self@.contains_key(bitmap_sum(p0 + t) as u64) && set_ranked(p0 + t) by {
                    assert(t =~= e);
                }
            }
            return;
        }
        if start == pool.len() {
            proof {
                assert forall|t: Seq<Card>| t.len() == k && #[trigger] is_combo(s, t) implies
                    self@.contains_key(bitmap_sum(p0 + t) as u64) && set_ranked(p0 + t) by {
                    assert(s.len() == 0);
                    assert(!is_combo(s, t));
                }
            }
            return;
        }
        let c = pool[start];
        let ghost s1 = pool@.skip(start + 1);
        proof {
            assert(s.drop_first() =~= s1);
            assert(s[0] == c);
        }
        prefix.push(c);
        let ghost p1 = prefix@;
        proof {
            assert(p1 + s1 =~= p0 + s);
            assert(all_valid(p1)) by {
                assert forall|i: int| 0 <= i < p1.len() implies (#[trigger] p1[i]).valid() by {
                    if i < p0.len() {
                        assert(p1[i] == p0[i]);
                    }
                }
            }
        }
        self.add_picks(pool, start + 1, k - 1, prefix);
        let ghost o1 = self@;
        prefix.pop();
        proof {
            assert(prefix@ =~= p0);
            lemma_distinct_skip_one(p0, s);
        }
        self.add_picks(pool, start + 1, k, prefix);
        proof {
            let o2 = self@;
            assert forall|key: u64| #[trigger] o2.contains_key(key) implies
                (o0.contains_key(key) && o2[key] == o0[key])
                || picked_value(key, o2[key], s, k as nat, p0) by {
                if o1.contains_key(key) && o2[key] == o1[key] {
                    if !(o0.contains_key(key) && o1[key] == o0[key]) {
                        let t1 = choose|t: Seq<Card>| t.len() == k - 1 && #[trigger] is_combo(s1, t)
                            && bitmap_sum(p1 + t) == key && hand_value(p1 + t) == o1[key];
                        let t = seq![c] + t1;
                        assert(t.drop_first() =~= t1);
                        assert(t[0] == c);
                        assert(is_combo(s, t));
                        assert(p0 + t =~= p1 + t1);
                    }
                } else {
                    let t = choose|t: Seq<Card>| t.len() == k && #[trigger] is_combo(s1, t)
                        && bitmap_sum(p0 + t) == key && hand_value(p0 + t) == o2[key];
                    assert(is_combo(s, t));
                }
            }
            assert forall|t: Seq<Card>| t.len() == k && #[trigger] is_combo(s, t) implies
                o2.contains_key(bitmap_sum(p0 + t) as u64) && set_ranked(p0 + t) by {
                if !is_combo(s1, t) {
                    assert(t[0] == c && is_combo(s1, t.drop_first()));
                    assert(p1 + t.drop_first() =~= p0 + t);
                }
            }
        }
    }

    /// An empty table.
    pub fn empty() -> (res: FastHandTable)
        ensures
            res@ == Map::<u64, i32>::empty(),
    {
        FastHandTable { strengths: HashMap::new() }
    }

    /// The strengths, keyed by bitmap hand.
    pub fn strengths(&self) -> (res: &HashMap<u64, i32>)
        ensures
            res@ == self@,
    {
        &self.strengths
    }

    /// Evaluates a hand with rs_poker and records its strength under its bitmap.
    pub fn add_hand(&mut self, cards: &[Card])
        requires
            forall|i: int| 0 <= i < cards@.len() ==> (#[trigger] cards@[i]).valid(),
            distinct_cards(cards@),
            5 <= cards@.len() <= 7,
            bitmap_sum(cards@) <= u64::MAX,
        ensures
            final(self)@ == old(self)@.insert(bitmap_sum(cards@) as u64,
                rank_value(poker_rank(cards_text(cards@))) as i32),
            set_ranked(cards@),
    {
        let strength = hand_strength(cards);
        proof {
            assert forall|i: int| 0 <= i < cards@.len() implies bitmap_defined(#[trigger] cards@[i]) by {
                assert(cards@[i].valid());
            }
        }
        let bitmap = cards2bitmap(cards);
        self.strengths.insert(bitmap, strength);
    }

    /// Whether the table holds a strength for these cards (at most seven cards of the deck).
    pub fn can_look_up(&self, cards: &[Card]) -> (res: bool)
        requires
            all_valid(cards@),
            cards@.len() <= 7,
        ensures
            forall|i: int| 0 <= i < cards@.len() ==> bitmap_defined(#[trigger] cards@[i]),
            bitmap_sum(cards@) <= u64::MAX,
            res == self@.contains_key(bitmap_sum(cards@) as u64),
    {
        proof { lemma_bitmap_bound(cards@); }
        let compact = cards2bitmap(cards);
        self.strengths.contains_key(&compact)
    }

    /// The strength of a hand, looked up by its bitmap.
    pub fn hand_strength(&self, hand: &[Card]) -> (res: i32)
        requires
            forall|i: int| 0 <= i < hand@.len() ==> bitmap_defined(#[trigger] hand@[i]),
            bitmap_sum(hand@) <= u64::MAX,
            self@.contains_key(bitmap_sum(hand@) as u64),
        ensures
            res == self@[bitmap_sum(hand@) as u64],
    {
        let compact = cards2bitmap(hand);
        *self.strengths.get(&compact).unwrap()
    }
}

/// The strength value that `FastHandTable` records for a hand.
pub open spec fn hand_value(cards: Seq<Card>) -> i32 {
    rank_value(poker_rank(cards_text(cards))) as i32
}

/// `v` is the value of `prefix + t` for some pick `t` of `k` cards of `s` whose bitmap is `key`.
pub open spec fn picked_value(key: u64, v: i32, s: Seq<Card>, k: nat, prefix: Seq<Card>) -> bool {
    exists|t: Seq<Card>| t.len() == k && #[trigger] is_combo(s, t)
        && bitmap_sum(prefix + t) == key && hand_value(prefix + t) == v
}

/// The table holds, under the bitmap of every seven cards picked from the deck, their strength
/// value, and nothing else; so any seven distinct cards of the deck, in any order, are found
/// under their bitmap with their strength value.
pub open spec fn all_hands_table(t: Map<u64, i32>) -> bool {
    &&& forall|h: Seq<Card>| h.len() == 7 && #[trigger] is_combo(full_deck(), h) ==>
        t.contains_key(bitmap_sum(h) as u64) && t[bitmap_sum(h) as u64] == hand_value(h)
    &&& forall|key: u64| #[trigger] t.contains_key(key) ==>
        exists|h: Seq<Card>| h.len() == 7 && #[trigger] is_combo(full_deck(), h) && bitmap_sum(h) == key
    &&& forall|cs: Seq<Card>| cs.len() == 7 && all_valid(cs) && distinct_cards(cs) ==>
        t.contains_key(#[trigger] bitmap_sum(cs) as u64) && t[bitmap_sum(cs) as u64] == hand_value(cs)
}

/// Taking out one card takes its bit out of the bitmap sum.
proof fn lemma_bitmap_sum_remove(b: Seq<Card>, j: int)
    requires
        0 <= j < b.len(),
    ensures
        bitmap_sum(b) == bitmap_sum(b.remove(j)) + vstd::arithmetic::power2::pow2(bitmap_shift(b[j]) as nat),
    decreases b.len(),
{
    if j == b.len() - 1 {
        assert(b.remove(j) =~= b.drop_last());
    } else {
        lemma_bitmap_sum_remove(b.drop_last(), j);
        assert(b.remove(j).drop_last() =~= b.drop_last().remove(j));
        assert(b.remove(j).last() == b.last());
        assert(b.drop_last()[j] == b[j]);
    }
}

/// Distinct cards, in any order, have the same bitmap sum, and there are as many of them.
pub proof fn law_bitmap_order_independent(a: Seq<Card>, b: Seq<Card>)
    requires
        distinct_cards(a),
        distinct_cards(b),
        same_card_set(a, b),
    ensures
        bitmap_sum(a) == bitmap_sum(b),
        a.len() == b.len(),
    decreases a.len(),
{
    if a.len() == 0 {
        if b.len() > 0 {
            assert(b.contains(b[0]));
            assert(a.contains(b[0]) <==> b.contains(b[0]));
            assert(!a.contains(b[0]));
        }
        assert(b =~= Seq::<Card>::empty());
    } else {
        let l = a.last();
        assert(a.contains(l)) by { assert(a[a.len() - 1] == l); }
        let j = choose|j: int| 0 <= j < b.len() && b[j] == l;
        let a1 = a.drop_last();
        let b1 = b.remove(j);
        assert(distinct_cards(a1)) by {
            assert forall|x: int, y: int| 0 <= x < y < a1.len() implies a1[x] != a1[y] by {
                assert(a1[x] == a[x] && a1[y] == a[y]);
            }
        }
        assert(distinct_cards(b1)) by {
            assert forall|x: int, y: int| 0 <= x < y < b1.len() implies b1[x] != b1[y] by {
                let xx = if x < j { x } else { x + 1 };
                let yy = if y < j { y } else { y + 1 };
                assert(b1[x] == b[xx] && b1[y] == b[yy]);
            }
        }
        assert(same_card_set(a1, b1)) by {
            assert forall|c: Card| #[trigger] a1.contains(c) <==> b1.contains(c) by {
                if a1.contains(c) {
                    let x = choose|x: int| 0 <= x < a1.len() && a1[x] == c;
                    assert(a[x] == c && x != a.len() - 1);
                    assert(a.contains(c));
                    assert(a.contains(c) <==> b.contains(c));
                    let y = choose|y: int| 0 <= y < b.len() && b[y] == c;
                    assert(y != j);
                    let yy = if y < j { y } else { y - 1 };
                    assert(b1[yy] == c);
                }
                if b1.contains(c) {
                    let y = choose|y: int| 0 <= y < b1.len() && b1[y] == c;
                    let yy = if y < j { y } else { y + 1 };
                    assert(b[yy] == c && yy != j);
                    if yy < j { assert(b[yy] != b[j]); } else { assert(b[j] != b[yy]); }
                    assert(c != l);
                    assert(b.contains(c));
                    assert(a.contains(c) <==> b.contains(c));
                    let x = choose|x: int| 0 <= x < a.len() && a[x] == c;
                    assert(x != a.len() - 1);
                    assert(a1[x] == c);
                }
            }
        }
        law_bitmap_order_independent(a1, b1);
        lemma_bitmap_sum_remove(b, j);
    }
}

/// For distinct cards of the deck, equal bitmap sums mean the same cards.
pub proof fn law_bitmap_same_cards(a: Seq<Card>, b: Seq<Card>)
    requires
        all_valid(a),
        all_valid(b),
        distinct_cards(a),
        distinct_cards(b),
    ensures
        bitmap_sum(a) == bitmap_sum(b) <==> same_card_set(a, b),
{
    if same_card_set(a, b) {
        law_bitmap_order_independent(a, b);
    }
    if bitmap_sum(a) == bitmap_sum(b) {
        assert forall|c: Card| #[trigger] a.contains(c) <==> b.contains(c) by {
            if c.valid() {
                law_bitmap_membership(a, c);
                law_bitmap_membership(b, c);
            } else {
                if a.contains(c) {
                    let i = choose|i: int| 0 <= i < a.len() && a[i] == c;
                    assert(a[i].valid());
                }
                if b.contains(c) {
                    let i = choose|i: int| 0 <= i < b.len() && b[i] == c;
                    assert(b[i].valid());
                }
            }
        }
    }
}

/// The cards of `s` that are among `cs`, in the order of `s`.
spec fn pick_of(s: Seq<Card>, cs: Seq<Card>) -> Seq<Card>
    decreases s.len(),
{
    if s.len() == 0 {
        s
    } else if cs.contains(s[0]) {
        seq![s[0]] + pick_of(s.drop_first(), cs)
    } else {
        pick_of(s.drop_first(), cs)
    }
}

/// Picking the cards among `cs` is a pick of `s` holding exactly the cards of both.
proof fn lemma_pick_of(s: Seq<Card>, cs: Seq<Card>)
    ensures
        is_combo(s, pick_of(s, cs)),
        forall|c: Card| #[trigger] pick_of(s, cs).contains(c) <==> s.contains(c) && cs.contains(c),
    decreases s.len(),
{
    if s.len() > 0 {
        let s1 = s.drop_first();
        let r = pick_of(s1, cs);
        lemma_pick_of(s1, cs);
        let p = pick_of(s, cs);
        if cs.contains(s[0]) {
            assert(p.drop_first() =~= r);
            assert(p[0] == s[0]);
        }
        assert forall|c: Card| #[trigger] p.contains(c) <==> s.contains(c) && cs.contains(c) by {
            if s.contains(c) && cs.contains(c) {
                let i = choose|i: int| 0 <= i < s.len() && s[i] == c;
                if i > 0 {
                    assert(s1[i - 1] == c);
                    assert(r.contains(c));
                    let k = choose|k: int| 0 <= k < r.len() && r[k] == c;
                    if cs.contains(s[0]) {
                        assert(p[k + 1] == c);
                    }
                } else {
                    assert(p[0] == c);
                }
            }
            if p.contains(c) {
                let k = choose|k: int| 0 <= k < p.len() && p[k] == c;
                if cs.contains(s[0]) && k == 0 {
                    assert(s[0] == c);
                } else {
                    let kk = if cs.contains(s[0]) { k - 1 } else { k };
                    assert(r[kk] == c);
                    assert(r.contains(c));
                    let i = choose|i: int| 0 <= i < s1.len() && s1[i] == c;
                    assert(s[i + 1] == c);
                }
            }
        }
    }
}

/// Every card of the standard deck is in the full deck.
proof fn lemma_valid_in_deck(c: Card)
    requires
        c.valid(),
    ensures
        full_deck().contains(c),
{
    let i = 4 * (c.rank - 2) + c.suit;
    assert(i / 4 == c.rank - 2 && i % 4 == c.suit);
    assert(full_deck()[i] == deck_card(i));
    assert(full_deck()[i] == c);
}

/// Any seven distinct cards of the deck are, in some order, seven cards picked from the deck.
proof fn lemma_seven_cards_picked(cs: Seq<Card>) -> (h: Seq<Card>)
    requires
        cs.len() == 7,
        all_valid(cs),
        distinct_cards(cs),
    ensures
        h.len() == 7,
        is_combo(full_deck(), h),
        distinct_cards(h),
        all_valid(h),
        same_card_set(h, cs),
{
    let d = full_deck();
    lemma_full_deck_valid_distinct();
    let h = pick_of(d, cs);
    lemma_pick_of(d, cs);
    lemma_combo_distinct(d, h);
    lemma_combo_subset(d, h);
    assert forall|c: Card| #[trigger] h.contains(c) <==> cs.contains(c) by {
        if cs.contains(c) {
            let i = choose|i: int| 0 <= i < cs.len() && cs[i] == c;
            assert(cs[i].valid());
            lemma_valid_in_deck(c);
        }
    }
    assert forall|i: int| 0 <= i < h.len() implies (#[trigger] h[i]).valid() by {
        let j = choose|j: int| 0 <= j < d.len() && d[j] == h[i];
    }
    law_bitmap_order_independent(h, cs);
    h
}

/// Different picks of cards of the deck have different bitmaps.
pub proof fn lemma_bitmap_injective(h1: Seq<Card>, h2: Seq<Card>)
    requires
        is_combo(full_deck(), h1),
        is_combo(full_deck(), h2),
        bitmap_sum(h1) == bitmap_sum(h2),
    ensures
        h1 == h2,
{
    let d = full_deck();
    lemma_full_deck_valid_distinct();
    lemma_combo_subset(d, h1);
    lemma_combo_subset(d, h2);
    lemma_combo_distinct(d, h1);
    lemma_combo_distinct(d, h2);
    assert forall|i: int| 0 <= i < h1.len() implies (#[trigger] h1[i]).valid() by {
        let j = choose|j: int| 0 <= j < d.len() && d[j] == h1[i];
    }
    assert forall|i: int| 0 <= i < h2.len() implies (#[trigger] h2[i]).valid() by {
        let j = choose|j: int| 0 <= j < d.len() && d[j] == h2[i];
    }
    assert forall|c: Card| #[trigger] h1.contains(c) == h2.contains(c) by {
        if c.valid() {
            law_bitmap_membership(h1, c);
            law_bitmap_membership(h2, c);
        } else {
            if h1.contains(c) {
                let i = choose|i: int| 0 <= i < h1.len() && h1[i] == c;
            }
            if h2.contains(c) {
                let i = choose|i: int| 0 <= i < h2.len() && h2[i] == c;
            }
        }
    }
    lemma_combo_same_cards(d, h1, h2);
}

/// The cards of the full deck are valid and distinct.
pub(crate) proof fn lemma_full_deck_valid_distinct()
    ensures
        all_valid(full_deck()),
        distinct_cards(full_deck()),
{
    let d = full_deck();
    assert forall|i: int| 0 <= i < d.len() implies (#[trigger] d[i]).valid() by {
        assert(d[i] == deck_card(i));
    }
    assert forall|i: int, j: int| 0 <= i < j < d.len() implies d[i] != d[j] by {
        assert(d[i] == deck_card(i));
        assert(d[j] == deck_card(j));
        if d[i] == d[j] {
            assert(i / 4 == j / 4);
            assert(i % 4 == j % 4);
            assert(i == 4 * (i / 4) + i % 4);
            assert(j == 4 * (j / 4) + j % 4);
        }
    }
}

/// Taking the first card after the prefix away keeps the cards distinct.
proof fn lemma_distinct_skip_one(p: Seq<Card>, s: Seq<Card>)
    requires
        s.len() > 0,
        distinct_cards(p + s),
    ensures
        distinct_cards(p + s.drop_first()),
{
    let a = p + s;
    let b = p + s.drop_first();
    assert forall|i: int, j: int| 0 <= i < j < b.len() implies b[i] != b[j] by {
        let ii = if i < p.len() { i } else { i + 1 };
        let jj = if j < p.len() { j } else { j + 1 };
        assert(b[i] == a[ii]);
        assert(b[j] == a[jj]);
    }
}

/// The bitmap of at most seven valid cards fits in 64 bits.
pub(crate) proof fn lemma_bitmap_bound(cards: Seq<Card>)
    requires
        all_valid(cards),
        cards.len() <= 7,
    ensures
        bitmap_sum(cards) <= cards.len() * 0x8000000000000,
        forall|i: int| 0 <= i < cards.len() ==> bitmap_defined(#[trigger] cards[i]),
    decreases cards.len(),
{
    vstd::arithmetic::power2::lemma2_to64_rest();
    if cards.len() > 0 {
        let prev = cards.drop_last();
        assert(all_valid(prev)) by {
            assert forall|i: int| 0 <= i < prev.len() implies (#[trigger] prev[i]).valid() by {
                assert(prev[i] == cards[i]);
            }
        }
        lemma_bitmap_bound(prev);
        let c = cards.last();
        assert(c == cards[cards.len() - 1]);
        assert(c.valid());
        let e = bitmap_shift(c) as nat;
        if e < 51 {
            vstd::arithmetic::power2::lemma_pow2_strictly_increases(e, 51);
        }
        assert forall|i: int| 0 <= i < cards.len() implies bitmap_defined(#[trigger] cards[i]) by {
            if i < prev.len() {
                assert(prev[i] == cards[i]);
            }
        }
    }
}

} // verus!
