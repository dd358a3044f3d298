# optimus

A heads-up no-limit Texas hold'em bot: card and hand representations, hand strength, betting
histories, action and card abstraction, and the counterfactual-regret training and real-time
solving that build and play its strategy.

The library in `src/` is verified with Verus:

- `card`, `hand`: cards, their names, compact (one byte per card) and bitmap hands.
- `strength`: hand strength with rs_poker and the lookup table of seven-card hands.
- `history`, `history_laws`, `translate_laws`: the betting rules of a hand, the abstract
  game's next actions, and the translation of bets onto a bet abstraction.
- `iso`, `iso_laws`, `canonical`: isomorphic (suit- and order-independent) hands, and the sets
  of them for the flop, turn and river.
- `counting`: how many dealt hands share each isomorphic representation.
- `abstraction`, `infoset`: card abstraction buckets (and the flop table expanded to every flop
  hand) and information sets.
- `utility`: the utility of a finished hand.
- `server`: what the web interface is told of a hand.
- `inline_vec`: smallvec's inline vectors, which hold a history's actions, its next actions and
  the cards of an isomorphic hand.

The program in `app/` reads and writes the tables and the parameter file, trains the strategy
(floating-point CFR), plays, and serves the web interface.
