# claimlands

A turn-based territory game on a tiled planet, with its rules proved in
Verus.

Four factions claim land, found territories around capitals, recruit and
upgrade units, build towns and fields, and capture each other's ground. A
match ends by elimination or by holding most of the land long enough.

## Layout

- `src/` — the verified library.
  - the board: `ids`, `topology` (adjacency, hop distances, connected
    components, graph centre), `topo` (lines, grids, hex grids, tori, the
    icosahedron), `tileset`
  - the world and its rules: `state`, `rules`, `rules_default`,
    `rules_check`, `cost_filters`, `command`, `event`
  - play: `apply` (validation, the legal moves, the effect of each command),
    `movement`, `territory` (rebuilding a faction's territories), `treasury`,
    `economy`, `growth`, `turn`, `victory`, `session` (history and undo),
    `playout` (random play)
  - soundness: `invariants` (what must hold of a world, reported as violations) and
    `soundness` (what the quiet commands keep)
  - fingerprints: `digest`, `hash`, `pack`, `planet_hash`, `rng`
  - worlds from files and generators: `builder`, `levels`, `golden`,
    `replay_text`, `geodesic`, `terrain`, `cover`, `arith`
- `tests/` — tests of the library, run against the compiled crate.
- `app/` — the command-line tool: argument handling, file input and output,
  the serde/RON mirrors of the library's types, and the floating-point
  geometry of the planet (the geodesic sphere and its Goldberg dual).
