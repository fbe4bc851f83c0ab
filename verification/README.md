# bugrs

A search for mazes on which a simple "bug" walks as long as possible, with its
rules proved in Verus.

The bug starts at the top-left tile inside the borders and walks to the
bottom-right one, each time stepping to the least visited of the four tiles
around it. A maze is built by asking for walls: a wall takes the kind of the
border walls it touches (left and bottom, or top and right), and a request that
would join the two kinds is refused.

Layout:

- `src/bug`: the grid and the bug. `grid_spec` models a grid as a sequence of
  tiles and defines what a wall request does (a flood of the new wall's kind
  over the loose walls it touches); `flood_lemmas` proves the recursive wall
  request against it; `separation` proves that the two wall kinds never meet.
- `src/search`: the depth-first search over wall placements (`search`), its
  termination measure (`progress`), and the state shared by parallel workers
  (`multisearch`).
- `src/generators`: random and annealed wall placements, given the random
  choices as arguments.
- `src/util`: a small digit reader.
- `app/`: the program: worker threads behind a lock, and the annealing loop,
  whose acceptance rule is floating point.

Not included: an annealer over wall placements written as lists of numbers,
and a Monte Carlo tree search. Neither has a defined way to turn such a list
into a grid, and both choose their moves by floating-point scores.
