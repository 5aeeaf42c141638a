# quackulator

Rules engine and self-play simulator for *The Quacks of Quedlinburg* (ingredient set 1).

`src/` is a Verus library: every function there carries a contract that Verus proves, with
one exception that Verus takes on trust: `text::std_upper`, which calls the standard
library's `char::to_uppercase` and whose result is only named (`upper_of`).

- `data.rs` – the pot track, chip types and prices, bags (counting, reading and writing bag
  text such as `W1x4 W2x2 W3 O1 G1`), rat tails.
- `solver.rs` – the rules of one brew: pot state, placing a chip (explosion, pumpkin bonus,
  mandrake, flask), memo keys, crow-skull reveal enumeration, the payout-table layout.
- `game.rs` – the random source, a player's holdings, the end-of-round bookkeeping (chip
  effects, keep VP or coins, bonus die), ruby spends, cash-out, sharing games among workers.
- `shop.rs` – legal purchases, costs, shop restrictions and the shop plans the value model
  weighs.
- `table.rs` – rules that couple the players at one table (leader, bonus die, black chips,
  winners).
- `text.rs`, `model.rs` – text handling, feature names and the layout of a weights file.

`app/` is the program around it: the command line, threads, file I/O and everything valued
in doubles (the expectimax solver's values, the learned model and its fitting).
