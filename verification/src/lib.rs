//! A verified model of the tile-map query layer of an ECS tile-map renderer:
//! maps own layers, layers own a grid of chunks, chunks own a grid of tile
//! slots. Entities are identified by their 64-bit id. Every query and every
//! edit is a verified function over that model; the entity despawns that an
//! edit calls for are handed back to the caller as lists of entity ids.

pub mod tile;
pub mod chunk;
pub mod layer;
pub mod tilemap;
pub mod query_view;
pub mod despawn_view;
pub mod map_query;
pub mod laws;
pub mod lookup_laws;
