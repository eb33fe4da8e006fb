# simulated_annealing

A simulated-annealing solver for the travelling salesman problem, with its
combinatorial core formally verified.

`src/` is the verified library:

- `matrix` — the packed upper-triangular layout of the weight matrix
  (`tri_index`), proved to be a bijection between pairs of positions and
  slots.
- `tour` — the visiting order of a tour (`TourOrder`), its random
  two-position swap moves (fixed by the generator's seed), and the slots of
  the edges a move touches; the change of a path's weight under a swap is
  proved to be the change on those edges, for every weighting.
- `weights` — which known connection prices each pair of instance cities.
- `instance_reader` — tokenizing and resolving an instance text.
- `instance_writer` — rendering instances and solutions as city ids, and the
  names of the output files.
- `round_trip` — a rendered instance parses back to itself when the cities'
  ids are distinct.
- `db`, `batch`, `run_ids` — the database location, the bookkeeping of a
  batch of moves, and small id types.

`app/` is the program around it: argument parsing, the SQLite database, and
everything that computes with floating-point distances, costs and
temperatures.
