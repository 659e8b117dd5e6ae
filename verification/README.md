# battlesnake

A Battlesnake server whose game logic is a library verified with Verus.

## Layout

- `src/` — the verified library.
  - `types.rs`: directions and coordinates.
  - `bits.rs`, `bitboard.rs`: 128-bit boards read as sets of cells; neighbourhoods
    and flood fills, with their results stated as reachability and BFS distance.
  - `api.rs`: the game state the server receives, as plain data.
  - `simulator.rs`: a compact state and the rules of a turn (movement, food,
    hazards, collisions, head-to-head), stated as spec functions; laws about
    survivors, eating and head-to-head meetings.
  - `board.rs`: the board as the move heuristics see it: safety, flood fills,
    food choice, corridor search and two kinds of territory.
  - `territory.rs`: territory by racing every head at once, with its meaning
    proved in terms of BFS layers.
  - `heuristic.rs`: the integer measures behind position evaluation.
  - `minimax.rs`: state hashing, killer and history tables, move ordering and the
    transposition table of the search.
  - `opponent.rs`: what a game tracker remembers between turns.
  - `strategy.rs`: aggression mode, candidate moves, random moves and play-outs.
- `tests/` — tests of the library.
- `app/` — the HTTP server (actix-web), the JSON shapes (serde), and the parts
  that score with floating point or against the clock: position evaluation, the
  game-tree search and move selection.
