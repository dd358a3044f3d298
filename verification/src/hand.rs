use vstd::prelude::*;
use vstd::string::*;
use crate::card::{Card, cards_text, cards2str, valid_cards_text, parse_cards_text, rank_of_char, suit_of_char, CLUBS, DIAMONDS, HEARTS, SPADES};

verus! {

// A compact hand is a u64 whose bytes, from the least significant up, hold the cards in order;
// a card is stored as 15 * suit + rank, so its byte is never zero, and unused bytes are zero.

/// Byte `i` (0..8) of a compact hand.
pub open spec fn hand_byte(hand: u64, i: u64) -> u64 {
    (hand >> ((8 * i) as u64)) & 0xFFu64
}

/// The byte that stores a card.
pub open spec fn card_code(c: Card) -> u64 {
    (15 * c.suit + c.rank) as u64
}

/// The card that a byte stores.
pub open spec fn code_card(b: int) -> Card {
    Card { rank: (b % 15) as u8, suit: (b / 15) as u8 }
}

/// `hand` holds exactly the given bytes, from the least significant byte up.
pub open spec fn encodes(hand: u64, codes: Seq<u64>) -> bool {
    &&& codes.len() <= 8
    &&& forall|k: int| 0 <= k < codes.len() ==> hand_byte(hand, k as u64) == #[trigger] codes[k]
    &&& forall|k: int| codes.len() <= k < 8 ==> #[trigger] hand_byte(hand, k as u64) == 0
}

/// The bytes that store a sequence of cards.
pub open spec fn card_codes(cards: Seq<Card>) -> Seq<u64> {
    cards.map_values(|c: Card| card_code(c))
}

/// 256 to the power `n`.
pub open spec fn pow256(n: nat) -> int
    decreases n,
{
    if n == 0 { 1 } else { 256 * pow256((n - 1) as nat) }
}

/// The least `n` in 0..8 with 256^n > hand, or -1 when there is none.
pub open spec fn hand_len_from(hand: u64, n: nat) -> int
    decreases 8 - n,
{
    if n >= 8 {
        -1
    } else if pow256(n) > hand {
        n as int
    } else {
        hand_len_from(hand, n + 1)
    }
}

pub open spec fn hand_len(hand: u64) -> int {
    hand_len_from(hand, 0)
}

/// How many cards `hand2cards` reads from a compact hand.
pub open spec fn hand_count(hand: u64) -> nat {
    if hand_len(hand) < 0 { 0 } else { hand_len(hand) as nat }
}

/// The cards that `hand2cards` reads from a compact hand.
pub open spec fn hand_cards(hand: u64) -> Seq<Card> {
    Seq::new(hand_count(hand), |k: int| code_card(hand_byte(hand, k as u64) as int))
}

/// The byte at position `card_index` (0..8) of a compact hand.
pub fn card(hand: u64, card_index: i32) -> (res: i32)
    requires
        0 <= card_index < 8,
    ensures
        res == hand_byte(hand, card_index as u64),
{
    let shift: u64 = 8 * card_index as u64;
    proof {
        assert(((hand & (0xFFu64 << shift)) >> shift) == (hand >> shift) & 0xFFu64
            && (hand >> shift) & 0xFFu64 <= 255) by (bit_vector)
            requires shift < 64;
    }
    ((hand & 0xFF << shift) >> shift) as i32
}

/// The suit of a card byte: the quotient by 15, rounded towards zero.
pub fn suit(card: i32) -> (res: i32)
    ensures
        card >= 0 ==> res == card / 15,
        card < 0 ==> res == -((-card) / 15),
{
    card / 15_i32
}

/// The rank of a card byte: the remainder by 15, with the sign of `card`.
pub fn rank(card: i32) -> (res: i32)
    ensures
        card >= 0 ==> res == card % 15,
        card < 0 ==> res == -((-card) % 15),
{
    card % 15_i32
}


/// The powers of 256 that fit in a u64.
pub proof fn lemma_pow256_values()
    ensures
        pow256(0) == 1,
        pow256(1) == 0x100,
        pow256(2) == 0x1_0000,
        pow256(3) == 0x100_0000,
        pow256(4) == 0x1_0000_0000,
        pow256(5) == 0x100_0000_0000,
        pow256(6) == 0x1_0000_0000_0000,
        pow256(7) == 0x100_0000_0000_0000,
        pow256(8) == 0x1_0000_0000_0000_0000,
{
    reveal_with_fuel(pow256, 9);
}

/// How many cards a compact hand holds: the least n in 0..8 with 256^n > hand, or -1 when the
/// hand is at least 256^7.
pub fn len(hand: u64) -> (res: i32)
    ensures
        res == hand_len(hand),
{
    let mut n: u32 = 0;
    let mut power: u64 = 1;
    while n < 8
        invariant
            n <= 8,
            n < 8 ==> power == pow256(n as nat),
            n < 8 ==> power <= 0x0100_0000_0000_0000,
            hand_len(hand) == hand_len_from(hand, n as nat),
        decreases 8 - n,
    {
        if power > hand {
            return n as i32;
        }
        if n < 7 {
            proof { lemma_pow256_values(); }
            power = power * 256;
        }
        n = n + 1;
    }
    -1
}

/// Adding a byte above the bytes already written leaves those bytes and writes the new one.
proof fn lemma_add_byte(r: u64, c: u64, i: u64)
    by (bit_vector)
    requires
        i < 8,
        c < 256,
        r >> (8 * i) == 0,
    ensures
        r + (c << (8 * i)) <= 0xFFFF_FFFF_FFFF_FFFF,
        forall|k: u64| k < i ==> #[trigger] ((((r + (c << (8 * i))) as u64) >> (8 * k)) & 0xFF) == (r >> (8 * k)) & 0xFF,
        (((r + (c << (8 * i))) as u64) >> (8 * i)) & 0xFF == c,
        i < 7 ==> ((r + (c << (8 * i))) as u64) >> (8 * (i + 1)) == 0,
{
}

/// A hand below 256^i has no byte at or above position i.
proof fn lemma_high_bytes_zero(r: u64, i: u64)
    by (bit_vector)
    requires
        i <= 8,
        i < 8 ==> r >> (8 * i) == 0,
        i == 8 ==> true,
    ensures
        forall|k: u64| i <= k < 8 ==> #[trigger] ((r >> (8 * k)) & 0xFF) == 0,
{
}

/// Writes cards into a compact hand, one byte each.
pub fn cards2hand(cards: &[Card]) -> (res: u64)
    requires
        cards@.len() <= 8,
        forall|i: int| 0 <= i < cards@.len() ==> 15 * (#[trigger] cards@[i]).suit + cards@[i].rank <= 255,
    ensures
        encodes(res, card_codes(cards@)),
{
    let mut result: u64 = 0;
    proof {
        assert(0u64 >> 0u64 == 0) by (bit_vector);
    }
    for i in 0..cards.len()
        invariant
            cards@.len() <= 8,
            forall|i: int| 0 <= i < cards@.len() ==> 15 * (#[trigger] cards@[i]).suit + cards@[i].rank <= 255,
            i < 8 ==> result >> (8 * i as u64) == 0,
            forall|k: int| 0 <= k < i ==> hand_byte(result, k as u64) == card_code(#[trigger] cards@[k]),
    {
        let card = cards[i];
        let code: u64 = (15 * card.suit + card.rank) as u64;
        proof {
            lemma_add_byte(result, code, i as u64);
        }
        result += code << (8 * i);
    }
    proof {
        lemma_high_bytes_zero(result, cards@.len() as u64);
        assert(encodes(result, card_codes(cards@)));
    }
    result
}


/// Reads a text of card names, such as "AsKd", into a compact hand.
pub fn str2hand(hand_str: &str) -> (res: u64)
    requires
        valid_cards_text(hand_str@),
        hand_str@.len() <= 16,
    ensures
        encodes(res, card_codes(parse_cards_text(hand_str@))),
{
    let mut result: u64 = 0;
    let n = hand_str.unicode_len() / 2;
    proof {
        assert(0u64 >> 0u64 == 0) by (bit_vector);
    }
    for k in 0..n
        invariant
            n == hand_str@.len() / 2,
            n <= 8,
            valid_cards_text(hand_str@),
            k < 8 ==> result >> (8 * k as u64) == 0,
            forall|j: int| 0 <= j < k ==> hand_byte(result, j as u64)
                == card_code(#[trigger] parse_cards_text(hand_str@)[j]),
    {
        assert(rank_of_char(hand_str@[2 * k]) is Some);
        assert(suit_of_char(hand_str@[2 * k + 1]) is Some);
        let r = hand_str.get_char(2 * k);
        let s = hand_str.get_char(2 * k + 1);
        let rank: i32 = if r == '2' { 2 } else if r == '3' { 3 } else if r == '4' { 4 }
            else if r == '5' { 5 } else if r == '6' { 6 } else if r == '7' { 7 }
            else if r == '8' { 8 } else if r == '9' { 9 } else if r == 'T' { 10 }
            else if r == 'J' { 11 } else if r == 'Q' { 12 } else if r == 'K' { 13 } else { 14 };
        let suit: i32 = if s == 'c' { CLUBS } else if s == 'd' { DIAMONDS } else if s == 'h' {
            HEARTS
        } else {
            SPADES
        };
        let code: u64 = (15 * suit + rank) as u64;
        proof {
            lemma_add_byte(result, code, k as u64);
        }
        result += code << (8 * k);
    }
    proof {
        lemma_high_bytes_zero(result, n as u64);
        assert(encodes(result, card_codes(parse_cards_text(hand_str@))));
    }
    result
}

/// Reads the cards of a compact hand: as many as `len` counts, none when it counts -1.
pub fn hand2cards(hand: u64) -> (res: Vec<Card>)
    ensures
        res@ == hand_cards(hand),
{
    let mut result: Vec<Card> = Vec::new();
    let n = len(hand);
    proof { lemma_hand_len_range(hand); }
    let mut i: i32 = 0;
    while i < n
        invariant
            n == hand_len(hand),
            n <= 7,
            0 <= i,
            n >= 0 ==> i <= n,
            n < 0 ==> i == 0,
            result@ =~= hand_cards(hand).take(i as int),
        decreases n - i,
    {
        let b = card(hand, i);
        assert(0 <= b <= 255) by {
            assert((hand >> ((8 * i) as u64)) & 0xFFu64 <= 255) by (bit_vector);
        }
        let suit = suit(b) as u8;
        let rank = rank(b) as u8;
        result.push(Card { suit, rank });
        assert(Card { suit, rank } == hand_cards(hand)[i as int]);
        i = i + 1;
    }
    proof {
        assert(hand_cards(hand).take(hand_count(hand) as int) =~= hand_cards(hand));
    }
    result
}

/// Every card of the hand decodes to a card of the standard deck.
pub open spec fn hand_is_valid(hand: u64) -> bool {
    forall|k: int| 0 <= k < hand_count(hand) ==> (#[trigger] hand_cards(hand)[k]).valid()
}

/// Writes the cards of a compact hand as a text of card names.
pub fn hand2str(hand: u64) -> (res: String)
    requires
        hand_is_valid(hand),
    ensures
        res@ == cards_text(hand_cards(hand)),
{
    let cards = hand2cards(hand);
    cards2str(cards.as_slice())
}

/// `len` counts at most 7 cards.
pub proof fn lemma_hand_len_range(hand: u64)
    ensures
        -1 <= hand_len(hand) <= 7,
{
    lemma_hand_len_from_range(hand, 0);
}

proof fn lemma_hand_len_from_range(hand: u64, n: nat)
    ensures
        -1 <= hand_len_from(hand, n) <= 7,
        hand_len_from(hand, n) == -1 || hand_len_from(hand, n) >= n,
    decreases 8 - n,
{
    if n < 8 && pow256(n) <= hand {
        lemma_hand_len_from_range(hand, n + 1);
    }
}

/// A hand below 256^n is exactly one whose bytes from position n up are zero.
proof fn lemma_shift_is_bound(h: u64, n: nat)
    requires
        n < 8,
    ensures
        (h >> ((8 * n) as u64) == 0) <==> (h as int) < pow256(n),
{
    lemma_pow256_values();
    if n == 0 {
        assert((h >> 0u64 == 0) <==> h < 1) by (bit_vector);
    } else if n == 1 {
        assert((h >> 8u64 == 0) <==> h < 0x100) by (bit_vector);
    } else if n == 2 {
        assert((h >> 16u64 == 0) <==> h < 0x1_0000) by (bit_vector);
    } else if n == 3 {
        assert((h >> 24u64 == 0) <==> h < 0x100_0000) by (bit_vector);
    } else if n == 4 {
        assert((h >> 32u64 == 0) <==> h < 0x1_0000_0000) by (bit_vector);
    } else if n == 5 {
        assert((h >> 40u64 == 0) <==> h < 0x100_0000_0000) by (bit_vector);
    } else if n == 6 {
        assert((h >> 48u64 == 0) <==> h < 0x1_0000_0000_0000) by (bit_vector);
    } else {
        assert((h >> 56u64 == 0) <==> h < 0x100_0000_0000_0000) by (bit_vector);
    }
}

proof fn lemma_zero_step(h: u64, m: u64)
    by (bit_vector)
    requires
        m < 7,
        (h >> (8 * (m + 1))) == 0,
        (h >> (8 * m)) & 0xFF == 0,
    ensures
        h >> (8 * m) == 0,
{
}

proof fn lemma_nonzero_byte(h: u64, m: u64)
    by (bit_vector)
    requires
        m < 8,
        (h >> (8 * m)) & 0xFF != 0,
    ensures
        h >> (8 * m) != 0,
{
}

/// A hand whose bytes from position m up are zero is below 256^m.
proof fn lemma_zero_above(h: u64, m: nat)
    requires
        m <= 7,
        forall|k: int| m <= k < 8 ==> #[trigger] hand_byte(h, k as u64) == 0,
    ensures
        h >> ((8 * m) as u64) == 0,
    decreases 7 - m,
{
    let mi: int = m as int;
    assert(hand_byte(h, mi as u64) == 0);
    if m == 7 {
        assert((h >> 56u64) & 0xFF == 0 ==> h >> 56u64 == 0) by (bit_vector);
    } else {
        lemma_zero_above(h, m + 1);
        lemma_zero_step(h, m as u64);
    }
}

/// `len` counts exactly the cards of a hand written by `cards2hand` or `str2hand`, for hands of
/// at most seven cards.
pub proof fn lemma_len_of_encoded(h: u64, codes: Seq<u64>)
    requires
        encodes(h, codes),
        codes.len() <= 7,
        forall|k: int| 0 <= k < codes.len() ==> #[trigger] codes[k] != 0,
    ensures
        hand_len(h) == codes.len(),
{
    let n = codes.len();
    lemma_zero_above(h, n);
    lemma_shift_is_bound(h, n);
    if n > 0 {
        assert(hand_byte(h, (n - 1) as u64) == codes[n - 1]);
        lemma_nonzero_byte(h, (n - 1) as u64);
        lemma_shift_is_bound(h, (n - 1) as nat);
    }
    lemma_hand_len_from_prefix(h, 0, n);
}

proof fn lemma_pow256_monotone(a: nat, b: nat)
    requires
        a <= b,
    ensures
        pow256(a) <= pow256(b),
        pow256(a) >= 1,
    decreases b - a,
{
    if a < b {
        lemma_pow256_monotone(a, (b - 1) as nat);
        lemma_pow256_monotone((b - 1) as nat, (b - 1) as nat);
    } else {
        lemma_pow256_pos(a);
    }
}

proof fn lemma_pow256_pos(a: nat)
    ensures
        pow256(a) >= 1,
    decreases a,
{
    if a > 0 {
        lemma_pow256_pos((a - 1) as nat);
    }
}

proof fn lemma_hand_len_from_prefix(h: u64, i: nat, n: nat)
    requires
        i <= n <= 7,
        (h as int) < pow256(n),
        n > 0 ==> (h as int) >= pow256((n - 1) as nat),
    ensures
        hand_len_from(h, i) == n,
    decreases n - i,
{
    if i < n {
        lemma_pow256_monotone(i, (n - 1) as nat);
        lemma_hand_len_from_prefix(h, i + 1, n);
    }
}

/// Reading back a hand written by `cards2hand` gives the same cards, for at most seven cards of
/// the standard deck.
pub proof fn law_cards_roundtrip(h: u64, cards: Seq<Card>)
    requires
        cards.len() <= 7,
        forall|i: int| 0 <= i < cards.len() ==> (#[trigger] cards[i]).valid(),
        encodes(h, card_codes(cards)),
    ensures
        hand_cards(h) == cards,
{
    let codes = card_codes(cards);
    assert forall|k: int| 0 <= k < codes.len() implies #[trigger] codes[k] != 0 by {
        assert(cards[k].valid());
    }
    lemma_len_of_encoded(h, codes);
    assert forall|k: int| 0 <= k < cards.len() implies #[trigger] hand_cards(h)[k] == cards[k] by {
        assert(cards[k].valid());
        assert(hand_byte(h, k as u64) == codes[k]);
        let c = cards[k];
        let b = 15 * c.suit + c.rank;
        assert(b % 15 == c.rank && b / 15 == c.suit);
    }
    assert(hand_cards(h) =~= cards);
}

/// The names of the cards read from a text of card names give back the text.
pub proof fn law_text_roundtrip(s: Seq<char>)
    requires
        valid_cards_text(s),
    ensures
        cards_text(parse_cards_text(s)) == s,
    decreases s.len(),
{
    let cards = parse_cards_text(s);
    if s.len() > 0 {
        let t = s.take(s.len() - 2);
        assert(valid_cards_text(t)) by {
            assert forall|k: int| 0 <= k < t.len() / 2 implies rank_of_char(#[trigger] t[2 * k]) is Some by {
                assert(t[2 * k] == s[2 * k]);
            }
            assert forall|k: int| 0 <= k < t.len() / 2 implies suit_of_char(#[trigger] t[2 * k + 1]) is Some by {
                assert(t[2 * k + 1] == s[2 * k + 1]);
            }
        }
        law_text_roundtrip(t);
        assert(cards.drop_last() =~= parse_cards_text(t));
        let k = s.len() / 2 - 1;
        assert(rank_of_char(s[2 * k]) is Some);
        assert(suit_of_char(s[2 * k + 1]) is Some);
        assert(cards.last().name() =~= seq![s[2 * k], s[2 * k + 1]]);
        assert(s =~= t + seq![s[2 * k], s[2 * k + 1]]);
    } else {
        assert(s =~= Seq::<char>::empty());
    }
}

/// Writing back a hand read by `str2hand` gives the same text, for at most seven cards.
pub proof fn law_hand_text_roundtrip(h: u64, s: Seq<char>)
    requires
        valid_cards_text(s),
        s.len() <= 14,
        encodes(h, card_codes(parse_cards_text(s))),
    ensures
        hand_is_valid(h),
        cards_text(hand_cards(h)) == s,
{
    let cards = parse_cards_text(s);
    assert forall|i: int| 0 <= i < cards.len() implies (#[trigger] cards[i]).valid() by {
        assert(rank_of_char(s[2 * i]) is Some);
        assert(suit_of_char(s[2 * i + 1]) is Some);
    }
    law_cards_roundtrip(h, cards);
    law_text_roundtrip(s);
}


// A bitmap hand has one bit per card: bit 52 - 13 * suit - (rank - 1), so the clubs take bits
// 51 down to 39, the diamonds 38 down to 26, the hearts 25 down to 13 and the spades 12 down to 0.

/// The bit of a card in a bitmap hand.
pub open spec fn bitmap_shift(c: Card) -> int {
    52 - 13 * c.suit - (c.rank - 1)
}

/// `cards2bitmap` computes the bit of this card without overflow.
pub open spec fn bitmap_defined(c: Card) -> bool {
    &&& 1 <= c.rank
    &&& 13 * c.suit <= 52
    &&& c.rank - 1 <= 52 - 13 * c.suit
}

/// The sum of the bits of the cards (a card given twice counts twice).
pub open spec fn bitmap_sum(cards: Seq<Card>) -> nat
    decreases cards.len(),
{
    if cards.len() == 0 {
        0
    } else {
        bitmap_sum(cards.drop_last()) + vstd::arithmetic::power2::pow2(bitmap_shift(cards.last()) as nat)
    }
}

proof fn lemma_bitmap_sum_prefix(cards: Seq<Card>, i: int)
    requires
        0 <= i <= cards.len(),
    ensures
        bitmap_sum(cards.take(i)) <= bitmap_sum(cards),
    decreases cards.len() - i,
{
    if i < cards.len() {
        lemma_bitmap_sum_prefix(cards, i + 1);
        assert(cards.take(i + 1).drop_last() =~= cards.take(i));
    } else {
        assert(cards.take(i) =~= cards);
    }
}

/// Sets the bit of every card in a 64-bit bitmap.
pub fn cards2bitmap(cards: &[Card]) -> (res: u64)
    requires
        forall|i: int| 0 <= i < cards@.len() ==> bitmap_defined(#[trigger] cards@[i]),
        bitmap_sum(cards@) <= u64::MAX,
    ensures
        res == bitmap_sum(cards@),
{
    let mut bitmap: u64 = 0;
    for i in 0..cards.len()
        invariant
            forall|i: int| 0 <= i < cards@.len() ==> bitmap_defined(#[trigger] cards@[i]),
            bitmap_sum(cards@) <= u64::MAX,
            bitmap == bitmap_sum(cards@.take(i as int)),
    {
        let card = cards[i];
        assert(bitmap_defined(card));
        let shift: u8 = 52 - 13 * card.suit - (card.rank - 1);
        proof {
            vstd::bits::lemma_u64_pow2_no_overflow(shift as nat);
            vstd::bits::lemma_u64_shl_is_mul(1, shift as u64);
            lemma_bitmap_sum_prefix(cards@, i + 1);
            assert(cards@.take(i + 1).drop_last() =~= cards@.take(i as int));
        }
        let card_bit: u64 = 1 << shift;
        bitmap += card_bit;
    }
    assert(cards@.take(cards@.len() as int) =~= cards@);
    bitmap
}


/// Adding the bit of a card that is not yet set sets that bit and leaves the others.
proof fn lemma_add_bit(x: u64, s: u64, k: u64)
    by (bit_vector)
    requires
        x < 0x10_0000_0000_0000,
        s < 52,
        k < 64,
        (x >> s) & 1 == 0,
    ensures
        x + (1u64 << s) < 0x10_0000_0000_0000,
        (((x + (1u64 << s)) as u64) >> k) & 1 == if k == s { 1u64 } else { (x >> k) & 1 },
{
}

/// Different cards of the standard deck have different bits.
proof fn lemma_bitmap_shift_injective(c: Card, d: Card)
    requires
        c.valid(),
        d.valid(),
        bitmap_shift(c) == bitmap_shift(d),
    ensures
        c == d,
{
}

/// The bitmap of distinct cards of the standard deck has the bit of a card set exactly when the
/// card is among them (so it tells which cards a hand holds), and stays below 2^52.
pub proof fn law_bitmap_membership(cards: Seq<Card>, c: Card)
    requires
        forall|i: int| 0 <= i < cards.len() ==> (#[trigger] cards[i]).valid(),
        forall|i: int, j: int| 0 <= i < j < cards.len() ==> cards[i] != cards[j],
        c.valid(),
    ensures
        bitmap_sum(cards) < 0x10_0000_0000_0000,
        ((bitmap_sum(cards) as u64) >> (bitmap_shift(c) as u64)) & 1 == if cards.contains(c) { 1u64 } else { 0u64 },
    decreases cards.len(),
{
    if cards.len() == 0 {
        let k = bitmap_shift(c) as u64;
        assert((0u64 >> k) & 1 == 0) by (bit_vector);
    } else {
        let p = cards.drop_last();
        let l = cards.last();
        assert(l == cards[cards.len() - 1]);
        assert(forall|i: int| 0 <= i < p.len() ==> (#[trigger] p[i]) == cards[i]);
        law_bitmap_membership(p, c);
        law_bitmap_membership(p, l);
        assert(!p.contains(l)) by {
            if p.contains(l) {
                let i = choose|i: int| 0 <= i < p.len() && p[i] == l;
                assert(cards[i] == cards[cards.len() - 1]);
            }
        }
        let x = bitmap_sum(p) as u64;
        let sh = bitmap_shift(l) as u64;
        let k = bitmap_shift(c) as u64;
        lemma_add_bit(x, sh, k);
        vstd::bits::lemma_u64_pow2_no_overflow(sh as nat);
        vstd::bits::lemma_u64_shl_is_mul(1, sh);
        assert(bitmap_sum(cards) == bitmap_sum(p) + vstd::arithmetic::power2::pow2(sh as nat));
        if k == sh {
            lemma_bitmap_shift_injective(c, l);
        } else {
            assert(c != l);
        }
        assert(cards.contains(c) == (p.contains(c) || c == l)) by {
            if cards.contains(c) && c != l {
                let i = choose|i: int| 0 <= i < cards.len() && cards[i] == c;
                assert(i < cards.len() - 1);
                assert(p[i] == c);
            }
            if p.contains(c) {
                let i = choose|i: int| 0 <= i < p.len() && p[i] == c;
                assert(cards[i] == c);
            }
        }
    }
}

/// The number of bits set among the lowest `n` bits of `x`.
pub open spec fn bits_set_below(x: u64, n: nat) -> nat
    decreases n,
{
    if n == 0 {
        0
    } else {
        bits_set_below(x, (n - 1) as nat) + (((x >> ((n - 1) as u64)) & 1) as nat)
    }
}

/// The number of bits set in a 64-bit word.
pub open spec fn ones_count(x: u64) -> nat {
    bits_set_below(x, 64)
}

proof fn lemma_bits_set_zero(n: nat)
    requires
        n <= 64,
    ensures
        bits_set_below(0, n) == 0,
    decreases n,
{
    if n > 0 {
        lemma_bits_set_zero((n - 1) as nat);
        let k = (n - 1) as u64;
        assert((0u64 >> k) & 1 == 0) by (bit_vector);
    }
}

/// Setting a bit that was clear adds one to the count of the bits below it.
proof fn lemma_bits_set_add_bit(x: u64, s: u64, n: nat)
    requires
        x < 0x10_0000_0000_0000,
        s < 52,
        (x >> s) & 1 == 0,
        n <= 64,
    ensures
        x + (1u64 << s) < 0x10_0000_0000_0000,
        bits_set_below((x + (1u64 << s)) as u64, n) == bits_set_below(x, n) + if s < n { 1int } else { 0int },
    decreases n,
{
    lemma_add_bit(x, s, 0);
    if n > 0 {
        lemma_bits_set_add_bit(x, s, (n - 1) as nat);
        lemma_add_bit(x, s, (n - 1) as u64);
    }
}

/// The bitmap of distinct cards of the standard deck has as many bits set as there are cards.
pub proof fn law_bitmap_ones(cards: Seq<Card>)
    requires
        forall|i: int| 0 <= i < cards.len() ==> (#[trigger] cards[i]).valid(),
        forall|i: int, j: int| 0 <= i < j < cards.len() ==> cards[i] != cards[j],
    ensures
        ones_count(bitmap_sum(cards) as u64) == cards.len(),
    decreases cards.len(),
{
    if cards.len() == 0 {
        lemma_bits_set_zero(64);
    } else {
        let p = cards.drop_last();
        let l = cards.last();
        assert(l == cards[cards.len() - 1]);
        assert(forall|i: int| 0 <= i < p.len() ==> (#[trigger] p[i]) == cards[i]);
        law_bitmap_ones(p);
        law_bitmap_membership(p, l);
        assert(!p.contains(l)) by {
            if p.contains(l) {
                let i = choose|i: int| 0 <= i < p.len() && p[i] == l;
                assert(cards[i] == cards[cards.len() - 1]);
            }
        }
        let x = bitmap_sum(p) as u64;
        let sh = bitmap_shift(l) as u64;
        lemma_bits_set_add_bit(x, sh, 64);
        vstd::bits::lemma_u64_pow2_no_overflow(sh as nat);
        vstd::bits::lemma_u64_shl_is_mul(1, sh);
        assert(bitmap_sum(cards) == bitmap_sum(p) + vstd::arithmetic::power2::pow2(sh as nat));
    }
}

/// A compact hand holds exactly the given bytes in only one way: so `str2hand` of a text and
/// `cards2hand` of the cards that `str2cards` reads from it give the same hand.
pub proof fn lemma_encodes_unique(h1: u64, h2: u64, codes: Seq<u64>)
    requires
        encodes(h1, codes),
        encodes(h2, codes),
    ensures
        h1 == h2,
{
    assert(hand_byte(h1, 0) == hand_byte(h2, 0)) by { lemma_byte_agree(h1, h2, codes, 0); }
    assert(hand_byte(h1, 1) == hand_byte(h2, 1)) by { lemma_byte_agree(h1, h2, codes, 1); }
    assert(hand_byte(h1, 2) == hand_byte(h2, 2)) by { lemma_byte_agree(h1, h2, codes, 2); }
    assert(hand_byte(h1, 3) == hand_byte(h2, 3)) by { lemma_byte_agree(h1, h2, codes, 3); }
    assert(hand_byte(h1, 4) == hand_byte(h2, 4)) by { lemma_byte_agree(h1, h2, codes, 4); }
    assert(hand_byte(h1, 5) == hand_byte(h2, 5)) by { lemma_byte_agree(h1, h2, codes, 5); }
    assert(hand_byte(h1, 6) == hand_byte(h2, 6)) by { lemma_byte_agree(h1, h2, codes, 6); }
    assert(hand_byte(h1, 7) == hand_byte(h2, 7)) by { lemma_byte_agree(h1, h2, codes, 7); }
    assert(h1 == h2) by (bit_vector)
        requires
            (h1 >> 0u64) & 0xFF == (h2 >> 0u64) & 0xFF,
            (h1 >> 8u64) & 0xFF == (h2 >> 8u64) & 0xFF,
            (h1 >> 16u64) & 0xFF == (h2 >> 16u64) & 0xFF,
            (h1 >> 24u64) & 0xFF == (h2 >> 24u64) & 0xFF,
            (h1 >> 32u64) & 0xFF == (h2 >> 32u64) & 0xFF,
            (h1 >> 40u64) & 0xFF == (h2 >> 40u64) & 0xFF,
            (h1 >> 48u64) & 0xFF == (h2 >> 48u64) & 0xFF,
            (h1 >> 56u64) & 0xFF == (h2 >> 56u64) & 0xFF,
    ;
}

proof fn lemma_byte_agree(h1: u64, h2: u64, codes: Seq<u64>, k: int)
    requires
        encodes(h1, codes),
        encodes(h2, codes),
        0 <= k < 8,
    ensures
        hand_byte(h1, k as u64) == hand_byte(h2, k as u64),
{
    if k < codes.len() {
        assert(hand_byte(h1, k as u64) == codes[k]);
        assert(hand_byte(h2, k as u64) == codes[k]);
    } else {
        assert(hand_byte(h1, k as u64) == 0);
        assert(hand_byte(h2, k as u64) == 0);
    }
}

} // verus!
