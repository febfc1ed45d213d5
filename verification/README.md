# parts_unknown

The rules of a turn-based tactics game on a hex map, verified with Verus: creatures made of
parts, cards played from those parts, statuses that alter actions and answer events, and
enemies that plan and carry out intents.

- `src/` is the verified library. `world.rs` holds the game state and its operations
  (executing actions, the enemies' turn, moving, playing cards); `creature.rs`, `part.rs`,
  `entity.rs` and `status.rs` say how each entity resolves actions; `map.rs` and `hex.rs`
  hold the board, ranges, lines of sight and path finding; `card.rs`, `npc.rs` and
  `library/` the cards, enemy behavior and the starting creatures; `ts_data.rs` writes the
  TypeScript declarations of the data types that cross into JavaScript. Chance (shuffles,
  random picks) and the open set of the path search go through small trusted wrappers in
  `random.rs` and `open_set.rs`. The hex grid itself (coordinates, distance, neighbors in
  a fixed direction order, areas and lines) is this crate's own, in `hex.rs`; no grid
  library is used. The `hex` entry in `Cargo.toml` is a hex-encoding crate that nothing
  uses.
- `tests/` runs the library on concrete games.
- `app/` is the browser glue: JavaScript bindings, serde copies of the library's values,
  the floating-point line drawing that produces lines of sight, and a shared cell whose
  borrowing rules come from the library.
