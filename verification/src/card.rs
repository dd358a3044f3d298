use vstd::prelude::*;
use vstd::string::*;

verus! {

pub const CLUBS: i32 = 0;
pub const DIAMONDS: i32 = 1;
pub const HEARTS: i32 = 2;
pub const SPADES: i32 = 3;

/// A playing card: `rank` runs from 2 (deuce) to 14 (ace), `suit` from 0 (clubs) to 3 (spades).
/// Cards are ordered by rank first and by suit second.
#[derive(Hash, Debug, Clone, Copy, PartialEq, Eq, Structural, PartialOrd, Ord)]
pub struct Card {
    pub rank: u8,
    pub suit: u8,
}

/// The rank written by a character, if it writes one.
pub open spec fn rank_of_char(c: char) -> Option<u8> {
    if c == '2' { Some(2u8) }
    else if c == '3' { Some(3u8) }
    else if c == '4' { Some(4u8) }
    else if c == '5' { Some(5u8) }
    else if c == '6' { Some(6u8) }
    else if c == '7' { Some(7u8) }
    else if c == '8' { Some(8u8) }
    else if c == '9' { Some(9u8) }
    else if c == 'T' { Some(10u8) }
    else if c == 'J' { Some(11u8) }
    else if c == 'Q' { Some(12u8) }
    else if c == 'K' { Some(13u8) }
    else if c == 'A' { Some(14u8) }
    else { None }
}

/// The suit written by a character, if it writes one.
pub open spec fn suit_of_char(c: char) -> Option<u8> {
    if c == 'c' { Some(0u8) }
    else if c == 'd' { Some(1u8) }
    else if c == 'h' { Some(2u8) }
    else if c == 's' { Some(3u8) }
    else { None }
}

/// The character that writes a rank (2..=14).
pub open spec fn rank_char(rank: int) -> char {
    if rank == 2 { '2' } else if rank == 3 { '3' } else if rank == 4 { '4' }
    else if rank == 5 { '5' } else if rank == 6 { '6' } else if rank == 7 { '7' }
    else if rank == 8 { '8' } else if rank == 9 { '9' } else if rank == 10 { 'T' }
    else if rank == 11 { 'J' } else if rank == 12 { 'Q' } else if rank == 13 { 'K' } else { 'A' }
}

/// The character that writes a suit (0..=3).
pub open spec fn suit_char(suit: int) -> char {
    if suit == 0 { 'c' } else if suit == 1 { 'd' } else if suit == 2 { 'h' } else { 's' }
}

impl Card {
    /// A card of the standard deck.
    pub open spec fn valid(self) -> bool {
        2 <= self.rank <= 14 && self.suit < 4
    }

    /// The two characters that name the card.
    pub open spec fn name(self) -> Seq<char> {
        seq![rank_char(self.rank as int), suit_char(self.suit as int)]
    }

    /// Reads a card from its two-character name, such as "Td" or "As"; characters after the
    /// second are ignored.
    pub fn new(card: &str) -> (res: Card)
        requires
            card@.len() >= 2,
            rank_of_char(card@[0]) is Some,
            suit_of_char(card@[1]) is Some,
        ensures
            res.rank == rank_of_char(card@[0]).unwrap(),
            res.suit == suit_of_char(card@[1]).unwrap(),
            res.valid(),
    {
        let r = card.get_char(0);
        let s = card.get_char(1);
        let rank: u8 = if r == '2' { 2 } else if r == '3' { 3 } else if r == '4' { 4 }
            else if r == '5' { 5 } else if r == '6' { 6 } else if r == '7' { 7 }
            else if r == '8' { 8 } else if r == '9' { 9 } else if r == 'T' { 10 }
            else if r == 'J' { 11 } else if r == 'Q' { 12 } else if r == 'K' { 13 } else { 14 };
        let suit: u8 = if s == 'c' { 0 } else if s == 'd' { 1 } else if s == 'h' { 2 } else { 3 };
        Card { rank, suit }
    }

    /// The card's two-character name, such as "Td".
    pub fn to_string(&self) -> (res: String)
        requires
            self.valid(),
        ensures
            res@ == self.name(),
    {
        let mut s = String::from_str(rank_text(self.rank));
        s.append(suit_text(self.suit));
        s
    }
}

/// A string literal holding the character of a rank.
fn rank_text(rank: u8) -> (s: &'static str)
    requires
        2 <= rank <= 14,
    ensures
        s@ == seq![rank_char(rank as int)],
{
    proof {
        reveal_strlit("2"); reveal_strlit("3"); reveal_strlit("4"); reveal_strlit("5");
        reveal_strlit("6"); reveal_strlit("7"); reveal_strlit("8"); reveal_strlit("9");
        reveal_strlit("T"); reveal_strlit("J"); reveal_strlit("Q"); reveal_strlit("K");
        reveal_strlit("A");
    }
    match rank {
        2 => "2",
        3 => "3",
        4 => "4",
        5 => "5",
        6 => "6",
        7 => "7",
        8 => "8",
        9 => "9",
        10 => "T",
        11 => "J",
        12 => "Q",
        13 => "K",
        _ => "A",
    }
}

/// A string literal holding the character of a suit.
fn suit_text(suit: u8) -> (s: &'static str)
    requires
        suit < 4,
    ensures
        s@ == seq![suit_char(suit as int)],
{
    proof {
        reveal_strlit("c"); reveal_strlit("d"); reveal_strlit("h"); reveal_strlit("s");
    }
    match suit {
        0 => "c",
        1 => "d",
        2 => "h",
        _ => "s",
    }
}

/// The one-character name of a rank.
pub fn rank_str(rank: u8) -> (res: String)
    requires
        2 <= rank <= 14,
    ensures
        res@ == seq![rank_char(rank as int)],
{
    String::from_str(rank_text(rank))
}

/// The card at index `i` of `deck`.
pub open spec fn deck_card(i: int) -> Card {
    Card { rank: (2 + i / 4) as u8, suit: (i % 4) as u8 }
}

/// All 52 cards, by rank from deuce to ace and, within a rank, by suit.
pub fn deck() -> (res: Vec<Card>)
    ensures
        res@ == Seq::new(52, |i: int| deck_card(i)),
{
    let mut deck: Vec<Card> = Vec::with_capacity(52);
    let mut rank: u8 = 2;
    while rank < 15
        invariant
            2 <= rank <= 15,
            deck@ == Seq::new((4 * (rank - 2)) as nat, |i: int| deck_card(i)),
        decreases 15 - rank,
    {
        let mut suit: u8 = 0;
        while suit < 4
            invariant
                2 <= rank < 15,
                suit <= 4,
                deck@ == Seq::new((4 * (rank - 2) + suit) as nat, |i: int| deck_card(i)),
            decreases 4 - suit,
        {
            proof {
                let i = 4 * (rank - 2) + suit;
                assert(i / 4 == rank - 2 && i % 4 == suit as int);
            }
            deck.push(Card { rank, suit });
            suit = suit + 1;
        }
        rank = rank + 1;
    }
    deck
}

/// Copies the cards that a slice of references points to.
pub fn deepcopy(vec: &[&Card]) -> (res: Vec<Card>)
    ensures
        res@.len() == vec@.len(),
        forall|i: int| 0 <= i < vec@.len() ==> res@[i] == *vec@[i],
{
    let mut result: Vec<Card> = Vec::new();
    for i in 0..vec.len()
        invariant
            result@.len() == i,
            forall|j: int| 0 <= j < i ==> result@[j] == *vec@[j],
    {
        result.push(*vec[i]);
    }
    result
}

/// The names of the cards, one after the other.
pub open spec fn cards_text(cards: Seq<Card>) -> Seq<char>
    decreases cards.len(),
{
    if cards.len() == 0 {
        Seq::empty()
    } else {
        cards_text(cards.drop_last()) + cards.last().name()
    }
}

/// Writes the cards one after the other, as in "AsKd".
pub fn cards2str(cards: &[Card]) -> (res: String)
    requires
        forall|i: int| 0 <= i < cards@.len() ==> (#[trigger] cards@[i]).valid(),
    ensures
        res@ == cards_text(cards@),
{
    let mut result = String::new();
    for i in 0..cards.len()
        invariant
            forall|k: int| 0 <= k < cards@.len() ==> (#[trigger] cards@[k]).valid(),
            result@ == cards_text(cards@.take(i as int)),
    {
        let name = cards[i].to_string();
        result.append(name.as_str());
        proof {
            assert(cards@.take(i + 1).drop_last() =~= cards@.take(i as int));
        }
    }
    proof {
        assert(cards@.take(cards@.len() as int) =~= cards@);
    }
    result
}

/// A text of card names, two characters each.
pub open spec fn valid_cards_text(s: Seq<char>) -> bool {
    &&& s.len() % 2 == 0
    &&& forall|k: int| 0 <= k < s.len() / 2 ==> rank_of_char(#[trigger] s[2 * k]) is Some
    &&& forall|k: int| 0 <= k < s.len() / 2 ==> suit_of_char(#[trigger] s[2 * k + 1]) is Some
}

/// The card named by characters `2k` and `2k + 1` of a text.
pub open spec fn text_card(s: Seq<char>, k: int) -> Card {
    Card { rank: rank_of_char(s[2 * k]).unwrap(), suit: suit_of_char(s[2 * k + 1]).unwrap() }
}

/// The cards that a text of card names names.
pub open spec fn parse_cards_text(s: Seq<char>) -> Seq<Card> {
    Seq::new(s.len() / 2, |k: int| text_card(s, k))
}

/// Reads every card of a text such as "AsKd".
pub fn str2cards(hand_str: &str) -> (res: Vec<Card>)
    requires
        valid_cards_text(hand_str@),
    ensures
        res@ == parse_cards_text(hand_str@),
{
    let mut result: Vec<Card> = Vec::new();
    let len = hand_str.unicode_len();
    let n = len / 2;
    for k in 0..n
        invariant
            len == hand_str@.len(),
            n == len / 2,
            valid_cards_text(hand_str@),
            result@ =~= parse_cards_text(hand_str@).take(k as int),
    {
        assert(rank_of_char(hand_str@[2 * k]) is Some);
        assert(suit_of_char(hand_str@[2 * k + 1]) is Some);
        let piece = hand_str.substring_char(2 * k, 2 * k + 2);
        let card = Card::new(piece);
        result.push(card);
    }
    result
}

/// Reads one card name for each string.
pub fn strvec2cards(strvec: &[&str]) -> (res: Vec<Card>)
    requires
        forall|i: int| 0 <= i < strvec@.len() ==> {
            &&& (#[trigger] strvec@[i])@.len() >= 2
            &&& rank_of_char(strvec@[i]@[0]) is Some
            &&& suit_of_char(strvec@[i]@[1]) is Some
        },
    ensures
        res@.len() == strvec@.len(),
        forall|i: int| 0 <= i < strvec@.len() ==> (#[trigger] res@[i]) == text_card(strvec@[i]@, 0),
{
    let mut cardvec: Vec<Card> = Vec::new();
    for i in 0..strvec.len()
        invariant
            cardvec@.len() == i,
            forall|j: int| 0 <= j < i ==> (#[trigger] cardvec@[j]) == text_card(strvec@[j]@, 0),
            forall|i: int| 0 <= i < strvec@.len() ==> {
                &&& (#[trigger] strvec@[i])@.len() >= 2
                &&& rank_of_char(strvec@[i]@[0]) is Some
                &&& suit_of_char(strvec@[i]@[1]) is Some
            },
    {
        let c = Card::new(strvec[i]);
        cardvec.push(c);
    }
    cardvec
}

/// Whether the character writes a rank.
pub(crate) fn is_rank_char(c: char) -> (res: bool)
    ensures
        res == (rank_of_char(c) is Some),
{
    c == '2' || c == '3' || c == '4' || c == '5' || c == '6' || c == '7' || c == '8' || c == '9'
        || c == 'T' || c == 'J' || c == 'Q' || c == 'K' || c == 'A'
}

/// Whether the character writes a suit.
pub(crate) fn is_suit_char(c: char) -> (res: bool)
    ensures
        res == (suit_of_char(c) is Some),
{
    c == 'c' || c == 'd' || c == 'h' || c == 's'
}

/// Whether a text names cards, two characters each, as `str2cards` reads them.
pub fn is_cards_text(text: &str) -> (res: bool)
    ensures
        res == valid_cards_text(text@),
{
    let len = text.unicode_len();
    if len % 2 != 0 {
        return false;
    }
    let n = len / 2;
    for k in 0..n
        invariant
            len == text@.len(),
            len % 2 == 0,
            n == len / 2,
            forall|j: int| 0 <= j < k ==> rank_of_char(#[trigger] text@[2 * j]) is Some,
            forall|j: int| 0 <= j < k ==> suit_of_char(#[trigger] text@[2 * j + 1]) is Some,
    {
        if !is_rank_char(text.get_char(2 * k)) {
            assert(!valid_cards_text(text@)) by {
                assert(!(rank_of_char(text@[2 * (k as int)]) is Some));
            }
            return false;
        }
        if !is_suit_char(text.get_char(2 * k + 1)) {
            assert(!valid_cards_text(text@)) by {
                assert(!(suit_of_char(text@[2 * (k as int) + 1]) is Some));
            }
            return false;
        }
    }
    true
}

} // verus!
