use vstd::prelude::*;
use crate::card::Card;
use crate::hand::{bitmap_defined, bitmap_sum};
use crate::history::{ActionHistory, ActionType, HistoryView, lemma_replay_range};
use crate::strength::{FastHandTable, all_hands_table, distinct_cards, hand_value, lemma_bitmap_bound};
use crate::canonical::all_valid;

verus! {

/// The hand ended with a fold.
pub open spec fn ended_by_fold(h: HistoryView) -> bool {
    h.actions.len() > 0 && h.actions.last().action == ActionType::Fold
}

/// The chips that the folder has lost: what the folder put in, blinds included. After a fold
/// the player to act is the winner, so the folder is the other player.
pub open spec fn fold_winnings(h: HistoryView) -> int {
    let folder = 1 - h.state().player;
    let left = if folder == 0 { h.stack_sizes().0 } else { h.stack_sizes().1 };
    h.config.stack_size - left
}

/// The utility of a terminal history for `player`, in half chips: after a fold the winner gets
/// what the folder put in and the folder loses it; at showdown the better hand wins half the
/// pot, and a tie gives nothing.
pub open spec fn terminal_value(h: HistoryView, player: int, player_strength: int, opp_strength: int) -> int {
    if ended_by_fold(h) {
        if h.state().player == player { 2 * fold_winnings(h) } else { -2 * fold_winnings(h) }
    } else if player_strength > opp_strength {
        h.pot()
    } else if player_strength < opp_strength {
        -h.pot()
    } else {
        0
    }
}

/// The table can look up the strength of these cards.
pub open spec fn lookup_defined(table: Map<u64, i32>, cards: Seq<Card>) -> bool {
    &&& forall|i: int| 0 <= i < cards.len() ==> bitmap_defined(#[trigger] cards[i])
    &&& bitmap_sum(cards) <= u64::MAX
    &&& table.contains_key(bitmap_sum(cards) as u64)
}

/// The strength that the table holds for these cards.
pub open spec fn table_strength(table: Map<u64, i32>, cards: Seq<Card>) -> int {
    table[bitmap_sum(cards) as u64] as int
}

/// The utility of a finished hand for `player` (DEALER or OPPONENT), in half chips, so that it
/// is exact: after a fold, twice what the folder put in (won or lost); at showdown, plus or
/// minus the pot, or 0 for a tie, the hands being the hole cards followed by the board.
pub fn terminal_utility_half_chips(
    player_preflop_hand: &[Card],
    opp_preflop_hand: &[Card],
    board: &[Card],
    history: &ActionHistory,
    player: usize,
    table: &FastHandTable,
) -> (res: i32)
    requires
        history.wf(),
        history@.actions.len() > 0,
        player <= 1,
        !ended_by_fold(history@) ==> lookup_defined(table@, player_preflop_hand@ + board@),
        !ended_by_fold(history@) ==> lookup_defined(table@, opp_preflop_hand@ + board@),
    ensures
        res == terminal_value(
            history@,
            player as int,
            table_strength(table@, player_preflop_hand@ + board@),
            table_strength(table@, opp_preflop_hand@ + board@),
        ),
{
    proof { history.lemma_wf(); }
    let last = history.last_action();
    let folded = match last {
        Some(a) => a.action == ActionType::Fold,
        None => false,
    };
    if folded {
        let winner = history.player();
        let folder = 1 - winner;
        let stacks = history.stack_sizes();
        let config = history.config();
        proof {
            assert(0 <= stacks[folder as int] <= config.stack_size);
            assert(2 * config.stack_size <= u16::MAX);
        }
        let winnings: i32 = config.stack_size as i32 - stacks[folder] as i32;
        assert(0 <= winnings <= 32767);
        if winner == player {
            return 2 * winnings;
        } else {
            return 0 - 2 * winnings;
        }
    }
    let pot = history.pot();
    let mut player_hand: Vec<Card> = Vec::new();
    let mut opponent_hand: Vec<Card> = Vec::new();
    append_cards(&mut player_hand, player_preflop_hand);
    append_cards(&mut player_hand, board);
    append_cards(&mut opponent_hand, opp_preflop_hand);
    append_cards(&mut opponent_hand, board);
    let player_strength = table.hand_strength(player_hand.as_slice());
    let opponent_strength = table.hand_strength(opponent_hand.as_slice());
    if player_strength > opponent_strength {
        pot as i32
    } else if player_strength < opponent_strength {
        -(pot as i32)
    } else {
        0
    }
}

/// Appends the cards to the vector.
fn append_cards(v: &mut Vec<Card>, cards: &[Card])
    ensures
        final(v)@ == old(v)@ + cards@,
{
    let ghost start = v@;
    for i in 0..cards.len()
        invariant
            v@ == start + cards@.take(i as int),
    {
        v.push(cards[i]);
        proof { assert(cards@.take(i + 1) =~= cards@.take(i as int).push(cards@[i as int])); }
    }
    proof { assert(cards@.take(cards@.len() as int) =~= cards@); }
}

/// The game is zero-sum: for any finished hand, what one player gains the other loses, when
/// each is given its own hole cards and the same board.
pub proof fn law_terminal_utility_zero_sum(h: HistoryView, s0: int, s1: int)
    requires
        h.valid(),
    ensures
        terminal_value(h, 0, s0, s1) + terminal_value(h, 1, s1, s0) == 0,
{
    lemma_replay_range(h.config, h.actions);
}

/// How many entries of `s` are below `i`.
pub open spec fn count_below(s: Seq<usize>, i: int) -> int
    decreases s.len(),
{
    if s.len() == 0 {
        0
    } else {
        count_below(s.drop_last(), i) + if s.last() < i { 1int } else { 0int }
    }
}

/// The entries of `s` increase strictly.
pub open spec fn strictly_increasing(s: Seq<usize>) -> bool {
    forall|a: int, b: int| 0 <= a < b < s.len() ==> s[a] < s[b]
}

/// Counts the entries below `i` of an increasing sequence: they are the first `z`.
proof fn lemma_count_below(s: Seq<usize>, i: int, z: int)
    requires
        strictly_increasing(s),
        0 <= z <= s.len(),
        forall|a: int| 0 <= a < z ==> s[a] < i,
        forall|a: int| z <= a < s.len() ==> s[a] >= i,
    ensures
        count_below(s, i) == z,
    decreases s.len(),
{
    if s.len() > 0 {
        let p = s.drop_last();
        assert(strictly_increasing(p)) by {
            assert forall|a: int, b: int| 0 <= a < b < p.len() implies p[a] < p[b] by {
                assert(p[a] == s[a] && p[b] == s[b]);
            }
        }
        assert(s.last() == s[s.len() - 1]);
        if z == s.len() {
            lemma_count_below(p, i, z - 1);
        } else {
            lemma_count_below(p, i, z);
        }
    }
}

/// Puts back the entries that were skipped: a sequence of `len` entries where each skipped
/// index holds `filler` and the other indices take the values in order. The skipped indices
/// increase strictly and are below `len`, and there is a value for each other index.
pub fn restore_skipped<T: Copy>(len: usize, skipped: &[usize], values: &[T], filler: T) -> (res: Vec<T>)
    requires
        strictly_increasing(skipped@),
        forall|a: int| 0 <= a < skipped@.len() ==> #[trigger] skipped@[a] < len,
        values@.len() + skipped@.len() >= len,
    ensures
        res@.len() == len,
        forall|i: int| 0 <= i < len ==> #[trigger] res@[i] == if skipped@.contains(i as usize) {
            filler
        } else {
            values@[i - count_below(skipped@, i)]
        },
{
    let mut result: Vec<T> = Vec::new();
    let mut value_idx: usize = 0;
    let mut skipped_idx: usize = 0;
    for i in 0..len
        invariant
            strictly_increasing(skipped@),
            forall|a: int| 0 <= a < skipped@.len() ==> #[trigger] skipped@[a] < len,
            values@.len() + skipped@.len() >= len,
            skipped_idx <= skipped@.len(),
            forall|a: int| 0 <= a < skipped_idx ==> #[trigger] skipped@[a] < i,
            forall|a: int| skipped_idx <= a < skipped@.len() ==> #[trigger] skipped@[a] >= i,
            value_idx + skipped_idx == i,
            result@.len() == i,
            forall|k: int| 0 <= k < i ==> #[trigger] result@[k] == if skipped@.contains(k as usize) {
                filler
            } else {
                values@[k - count_below(skipped@, k)]
            },
    {
        proof { lemma_count_below(skipped@, i as int, skipped_idx as int); }
        if skipped_idx < skipped.len() && skipped[skipped_idx] == i {
            result.push(filler);
            proof { assert(skipped@[skipped_idx as int] == i); }
            skipped_idx = skipped_idx + 1;
        } else {
            proof {
                assert(!skipped@.contains(i)) by {
                    if skipped@.contains(i) {
                        let a = choose|a: int| 0 <= a < skipped@.len() && skipped@[a] == i;
                        if a > skipped_idx {
                            assert(skipped@[skipped_idx as int] < skipped@[a]);
                        }
                    }
                }
                assert(value_idx < values@.len()) by {
                    assert forall|a: int| skipped_idx <= a < skipped@.len() implies #[trigger] skipped@[a] > i by {
                        if skipped@[a] == i {
                            if a > skipped_idx {
                                assert(skipped@[skipped_idx as int] < skipped@[a]);
                            }
                        }
                    }
                    lemma_count_above(skipped@, skipped_idx as int, i as int, len as int);
                }
            }
            result.push(values[value_idx]);
            value_idx = value_idx + 1;
        }
        proof {
            assert forall|a: int| skipped_idx <= a < skipped@.len() implies #[trigger] skipped@[a] >= i + 1 by {
                if skipped@[a] == i {
                    if a > skipped_idx {
                        assert(skipped@[skipped_idx as int] < skipped@[a]);
                    } else if a < skipped_idx {
                    }
                }
            }
        }
    }
    result
}

/// Strictly increasing entries above `i` and below `len` are fewer than `len - i`.
proof fn lemma_count_above(s: Seq<usize>, z: int, i: int, len: int)
    requires
        strictly_increasing(s),
        0 <= z <= s.len(),
        i < len,
        forall|a: int| z <= a < s.len() ==> #[trigger] s[a] > i,
        forall|a: int| 0 <= a < s.len() ==> #[trigger] s[a] < len,
    ensures
        s.len() - z <= len - i - 1,
    decreases s.len() - z,
{
    if z < s.len() {
        assert(s[z] > i);
        assert forall|a: int| z + 1 <= a < s.len() implies #[trigger] s[a] > s[z] by {}
        lemma_count_above(s, z + 1, s[z] as int, len);
    }
}

/// A table of every hand of seven cards (as `FastHandTable::new` builds it) can look up any seven
/// distinct cards of the deck, in any order, and finds their strength value there; so at showdown
/// `terminal_utility_half_chips` can be called on any two pairs of hole cards and a board of five,
/// all distinct, and compares their strengths.
pub proof fn law_full_table_lookup(t: Map<u64, i32>, cards: Seq<Card>)
    requires
        all_hands_table(t),
        cards.len() == 7,
        all_valid(cards),
        distinct_cards(cards),
    ensures
        lookup_defined(t, cards),
        table_strength(t, cards) == hand_value(cards),
{
    lemma_bitmap_bound(cards);
    assert(t.contains_key(bitmap_sum(cards) as u64));
}

} // verus!
