use tilemap_query::chunk::Chunk;
use tilemap_query::layer::{Layer, LayerSettings};
use tilemap_query::tile::{chunk_pos_for, get_tile_index, ChunkPos, ChunkSize, MapSize, MapTileError, TilePos};
use tilemap_query::tilemap::TileMap;

#[test]
fn tile_index_is_row_major() {
    assert_eq!(get_tile_index(TilePos(3, 2), 5), 13);
    assert_eq!(get_tile_index(TilePos(0, 0), 5), 0);
    assert_eq!(get_tile_index(TilePos(4, 0), 5), 4);
}

#[test]
fn chunk_pos_divides_by_the_chunk_size() {
    assert_eq!(chunk_pos_for(TilePos(7, 3), ChunkSize(4, 2)), ChunkPos(1, 1));
    assert_eq!(chunk_pos_for(TilePos(3, 1), ChunkSize(4, 2)), ChunkPos(0, 0));
}

#[test]
fn to_chunk_pos_subtracts_the_chunk_origin() {
    let chunk = Chunk::new(ChunkPos(2, 1), ChunkSize(4, 3));
    assert_eq!(chunk.to_chunk_pos(TilePos(9, 5)), Ok(TilePos(1, 2)));
    assert_eq!(chunk.to_chunk_pos(TilePos(8, 3)), Ok(TilePos(0, 0)));
    assert_eq!(chunk.to_chunk_pos(TilePos(12, 3)), Err(MapTileError::OutOfBounds(TilePos(12, 3))));
    assert_eq!(chunk.to_chunk_pos(TilePos(7, 3)), Err(MapTileError::OutOfBounds(TilePos(7, 3))));
    assert_eq!(chunk.to_chunk_pos(TilePos(9, 6)), Err(MapTileError::OutOfBounds(TilePos(9, 6))));
}

#[test]
fn chunk_lookup_of_tiles() {
    let mut chunk = Chunk::new(ChunkPos(0, 0), ChunkSize(3, 2));
    assert_eq!(chunk.tiles.len(), 6);
    chunk.tiles[5] = Some(42);
    assert_eq!(chunk.get_tile_entity(TilePos(2, 1)), Some(42));
    assert_eq!(chunk.get_tile_entity(TilePos(1, 1)), None);
    assert_eq!(chunk.get_tile_entity(TilePos(3, 0)), None);
}

#[test]
fn layer_chunk_lookup_and_size() {
    let layer = Layer {
        settings: LayerSettings {
            map_size: MapSize(2, 3),
            chunk_size: ChunkSize(4, 5),
            layer_id: 1,
            map_id: 2,
        },
        chunks: vec![Some(10), None, Some(12), Some(13), Some(14), Some(15)],
    };
    assert_eq!(layer.get_chunk(ChunkPos(0, 1)), Some(12));
    assert_eq!(layer.get_chunk(ChunkPos(1, 0)), None);
    assert_eq!(layer.get_chunk(ChunkPos(1, 2)), Some(15));
    assert_eq!(layer.get_chunk(ChunkPos(2, 0)), None);
    assert_eq!(layer.get_chunk(ChunkPos(0, 3)), None);
    assert_eq!(layer.get_layer_size_in_tiles(), (8, 15));
}

#[test]
fn map_layers_by_id() {
    let mut map = TileMap::new(3);
    map.add_layer(0, 10);
    map.add_layer(4, 14);
    assert_eq!(map.get_layer_entity(4), Some(14));
    assert_eq!(map.get_layer_entity(1), None);
    let mut ids = map.layer_ids();
    ids.sort();
    assert_eq!(ids, vec![0, 4]);
    assert_eq!(map.remove_layer(4), Some(14));
    assert_eq!(map.remove_layer(4), None);
    assert_eq!(map.get_layer_entity(4), None);
    assert_eq!(map.layer_ids(), vec![0]);
}
