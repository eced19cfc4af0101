# battlefield

The headless logic of a real-time medieval battle game, written in Verus:
every function in `src/` carries a contract that Verus proves.

## Layout

- `src/grid.rs`, `unit.rs`, `zone.rs`, `building.rs` — the tile grid, unit
  kinds and stats, settlement tiers, building kinds, footprints and the base
  placer that keeps structures apart.
- `src/combat.rs` — melee, ranged and healing arithmetic.
- `src/heap.rs`, `src/flowfield.rs` — a binary heap and multi-source
  Dijkstra flow fields, with proofs that costs are exact and directions
  descend.
- `src/mapgen/` — procedural map generation as a budgeted state machine
  whose step states what each stage does to the grid: integer value noise,
  water and forest layers, rocks and bushes, the settlement network, road
  planning (a spanning tree plus loops) and an A* router whose routes are
  proved cheapest, and village layouts.
- `src/recruit.rs`, `src/start.rs` — the recruit economy (who raises
  recruits, headroom under the caps, round-robin choice of the building a
  recruit walks to) and the opening position (capitals held, starting
  army).
- `src/setup.rs` — what a battle puts on a generated map: buildings from
  the plan, footprints, road aprons, gold stones, shorelines and the
  nearest-standable-tile search.
- `src/render_util.rs`, `rendering.rs`, `asset_manifest.rs`, `particle.rs`,
  `pawn.rs`, `sheep.rs`, `config.rs` — integer rendering helpers, sprite
  tables and configuration defaults.
- `app/` — the floating-point and serde parts: capital layouts rotated to a
  facing, the JSON game configuration and loading-bar fractions.
- `tests/` — executable tests of the library.
