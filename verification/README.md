# sokoban_solver

A Sokoban solver whose logic is verified with Verus.

Levels are read in the XSB format or in a custom format of two characters a cell (`<>`
a wall; first a box `B` or the player `P`, then a goal `_` or the remover `R`), either
with goals or with a single remover that takes away every box pushed onto it.

The solver prepares a level (walls off what the player cannot reach, checks the border
and the numbers of boxes and goals, computes for every cell how many pushes a lone box
needs to a goal) and runs an A* search over pushes, counting moves, pushes or both. A
solution it returns solves the level; when it returns none, no moves solve the level.

Layout:

- `src/` — the verified library: positions and directions, grids, levels and their
  two text formats (parsing and printing), moves and solutions, the rules of the game
  as specifications (`rules.rs`), and the solver under `src/solver/`: preprocessing,
  push distances, the A* search with its heap, the reconstruction of moves, and the
  proof that a search which finds nothing has shown the level unsolvable. The plain
  push search used to find dead cells is shown to return a path with the fewest
  pushes (`simple.rs`, with the facts about its estimate in `estimate.rs`).
- `tests/` — tests of the library.
- `app/` — the command line program: reads level files, runs the solver and prints
  the solution and statistics.
