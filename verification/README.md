# tilemap_query

Verified queries and edits over a tile map: maps own layers (by layer id),
layers own a grid of chunks, chunks own a grid of tile slots. Entities are
identified by their 64-bit ids; the entities that an edit despawns are
returned as lists, in the order the edit visits them.

- `src/tile.rs`: positions, sizes, errors, slot-index arithmetic.
- `src/chunk.rs`, `src/layer.rs`, `src/tilemap.rs`: the components and their views.
- `src/query_view.rs`, `src/despawn_view.rs`: the model of a whole query and
  the spec functions the contracts are stated in.
- `src/map_query.rs`: `MapQuery`, the verified API.
- `src/laws.rs`: properties that relate several operations.
- `app/`: the ECS side: components, conversions, and a `MapQuery` over ECS
  queries that runs each operation in the model and applies its despawns.
