# card_sim

A card-combat simulator for deck-building games, written in Verus. It takes
a card catalog, a deck and an enemy's damage per turn, plays greedy turns
(an opening bash, then attacks, then skills, card by card while energy is
left) over sampled shuffles, and sums damage dealt, block gained and damage
taken. A sweep report compares adding each card of a rarity to the deck.

## Layout

- `src/model/`: cards and the catalog, decks with their add / remove /
  upgrade operations, enemy patterns and statuses.
- `src/sim/`: draw piles and drawing (shuffling through `rand`), exact
  enumeration of draws and of play orders, the greedy turn, the per-turn
  evaluation and the sampling of whole combats.
- `src/report/`: which card effects the simulator supports, CSV escaping and
  the insight labels of the sweep report.
- `src/cli.rs`: output formats, deck mutations from the command line, file
  names and the rarity selection of a sweep.
- `app/`: the program: argument parsing, YAML loading, and everything that
  uses floating point (expectations, scores, report rendering).
- `tests/`: tests of the library on concrete values.

Every function under `src/` is verified by Verus against its contract; the
few calls into `std` and `rand` that Verus cannot see go through small
trusted wrappers in `src/text.rs` and `src/sim/rng.rs`.
