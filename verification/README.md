# Battle AI and component tables

A verified library for a hex-grid tactics game.

- `components`: `ComponentContainer`, a table of components keyed by entity
  id, and `IdIter`, which hands out a table's ids.
- `hex`: axial hex coordinates, distances, directions and `HexMap`, a value
  per tile of a map of some radius.
- `state`: what the AI reads of a battle (agents, owners, positions, move
  points, blocked tiles) and queries on it.
- `utils`: a Fisher-Yates shuffle driven by a random-index source.
- `battle`: the AI. The rules engine, the pathfinder, path costs and
  truncation, and the random source are handed to it as an `Engine` of
  functions; every decision the AI takes from their answers is proved
  against its contract.

`app/` holds the `zcomponents_storage!` macro, which declares a storage of
several component tables, and an `Iterator` adaptor over `IdIter`.
