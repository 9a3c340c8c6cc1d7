# minebot

A verified simulator for the "lambda lifting" mine puzzle, with the bookkeeping
of the search bots that play it.

A mine is a grid of cells: rock, earth, walls, lambdas, a lift, trampolines and
their targets, and one robot. Each turn the robot moves (or waits), rocks fall
and slide, the lift opens once every lambda is collected, and the water rises.

Layout:

- `src/geom.rs`: points, directions, rectangles, and row-by-row scans of a rectangle.
- `src/space.rs`: cell contents, their one-byte codes and their map characters.
- `src/mine.rs`: images of a mine, read from and printed to map text, and mine
  versions made by lists of edits.
- `src/text.rs`: lines, words, lower case and integers of metadata text.
- `src/state.rs`: a game, its metadata, and one turn of the rules.
- `src/rules.rs`: what every turn keeps (proved lemmas).
- `src/settle.rs`: why a turn need only look for moving rocks near the
  unsettled region: parsed games are settled, turns keep them settled, and the
  scan of a settled game misses no rock that can move.
- `src/random.rs`: the bots' seeded generator (from `rand`) and ranged draws.
- `src/bots.rs`: positions of a search, the best so far, command weights and
  the random choice of commands and bag slots.
- `src/hist.rs`: positions of the interactive player, with undo, marks and the
  meaning of each key.
- `app/`: the command-line programs (`mapcat`, `maprun`, `randbot`, `evobot`,
  `rlrun`, `sigtest`), terminal modes and signal handling.
