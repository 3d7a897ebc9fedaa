# hsearch

A staged solver for the 3^4 hypercube puzzle, written in Verus and proved
against its contracts.

A scramble is solved in four stages. Each stage keeps a compact state (a few
packed integers) that stands for the part of the puzzle it cares about, a set
of twists it may apply, and a target. An iterative-deepening search extends
every partial solution of one stage by segments, searched at increasing
depth, that reach the stage's target. Pruning tables, built by search from
the targets, give for a state's key the fewest twists found from the target
to a state with that key, and the search cuts branches whose bound exceeds
the twists left.

## Layout

- `src/linalg`: vectors, facets and signed permutation matrices of the
  four-dimensional cube.
- `src/puzzle`: twists, their names and data, and a simple piece-by-piece
  simulation of the puzzle.
- `src/stages`: the stage representations, each with its move relation, its
  twist set and the way it reads a puzzle state. The `TracksPuzzle` trait
  states that a state standing for a puzzle, moved by a twist, stands for the
  twisted puzzle; `tracking.rs` and `stickers.rs` hold the facts about packed
  fields, slots and stickers that its proofs rest on.
- `src/search`: canonical twist sequences, partial solutions, the
  iterative-deepening search and the staged solver.
- `src/prune`: pruning maps (with their byte format), tables and subset tries.
- `app/`: the program that draws seeded scrambles, runs the solver and prints
  the results.
- `tests/`: tests of the library.
