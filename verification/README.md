# spaced_recall

An SM-2 style spaced repetition scheduler with a deck of named cards, kept
as JSON or as tab-separated plain text, verified with Verus.

- `src/scheduler.rs`: cards, ratings and the review step. The ease factor is
  a floating-point quantity; a card carries it as the decimal text Rust
  prints for the `f64`, and the floating-point results of a review are
  handed in as `EaseFacts`.
- `src/deck.rs`: the deck, its plain text format and its JSON format. The
  readers take, from the caller, the text Rust writes for the `f64` of each
  ease literal, so `2.50` is read as `2.5`.
- `src/json.rs`: the JSON reader (objects, strings and numbers).
- `src/round_trip.rs`: the proof that the JSON writer's output reads back
  as the same deck.
- `src/name_map.rs`: a map from names to values kept in name order.
- `src/text.rs`: characters, decimal numbers, the number grammars of
  `str::parse`, the order of names, lines and fields.
- `src/cli.rs`, `src/due.rs`: command-line flags and the listing of due
  cards.
- `app/`: the `srs` command line: argument handling, deck files, and the
  floating-point arithmetic.
