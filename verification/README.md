# iomrascalai

A Go engine's core, verified with Verus.

- `src/board`: points and moves, the rules of play (captures, ko, suicide,
  passes, resignation), eyes, area scoring, hypothetical plays, Zobrist keys,
  and laws of the rules (`board/laws.rs`); reading ahead for a chain in
  atari or in a ladder (`board/reading.rs`).
- `src/game`: a game with positional superko, built on the board and a key
  table with the hash of every position seen.
- `src/engine`: move statistics, priors, a random engine, the nodes of the
  UCT search tree (`engine/uct/node.rs`: expansion with priors, pruning for a
  new root, recording playouts) and the move a search settles on
  (`engine/mc.rs`).
- `src/gtp`, `src/cli`, `src/options`: the GTP interpreter (commands, board
  display, scoring, time settings), moves typed at a prompt and option
  values.
- `app/`: the program around the library: options, the interactive prompt
  and the GTP loop on standard input.

Collections: the liberties of a chain are a `Vec<Coord>` in which no point
occurs twice, and the statistics of the candidate moves a `Vec` of
`(Move, MoveStat)` pairs in which no move occurs twice. With keys of a struct
type such as `Coord` or `Move`, Verus proves nothing of what a `HashSet` or
`HashMap` holds after an insertion, so the crate keeps these as vectors and
states the no-duplicates rule as their invariant.
