use tilemap_query::chunk::Chunk;
use tilemap_query::layer::{Layer, LayerSettings};
use tilemap_query::map_query::MapQuery;
use tilemap_query::query_view::TileSlot;
use tilemap_query::tile::{ChunkPos, ChunkSize, MapSize, MapTileError, TilePos};
use tilemap_query::tilemap::TileMap;

const MAP: u64 = 100;
const LAYER: u64 = 200;

/// One map (id 0, entity 100) with one layer (id 0, entity 200) of 2x2
/// chunks of 2x2 tiles; chunk entities 300 at (0,0), 301 at (1,0), 302 at
/// (0,1), none at (1,1).
fn world() -> MapQuery {
    let mut map = TileMap::new(0);
    map.add_layer(0, LAYER);
    let layer = Layer {
        settings: LayerSettings {
            map_size: MapSize(2, 2),
            chunk_size: ChunkSize(2, 2),
            layer_id: 0,
            map_id: 0,
        },
        chunks: vec![Some(300), Some(301), Some(302), None],
    };
    let chunks = vec![
        (300, Chunk::new(ChunkPos(0, 0), ChunkSize(2, 2))),
        (301, Chunk::new(ChunkPos(1, 0), ChunkSize(2, 2))),
        (302, Chunk::new(ChunkPos(0, 1), ChunkSize(2, 2))),
    ];
    MapQuery::from_parts(vec![(MAP, map)], vec![(LAYER, layer)], chunks).expect("consistent world")
}

#[test]
fn set_then_get_gives_the_tile() {
    let mut q = world();
    let slot = q.set_tile(TilePos(3, 1), 900, 0, 0).unwrap();
    assert_eq!(
        slot,
        TileSlot { chunk: 301, index: 3, map_id: 0, layer_id: 0, existing: None }
    );
    assert_eq!(q.get_tile_entity(TilePos(3, 1), 0, 0), Ok(900));
    assert_eq!(q.chunk(301).unwrap().tiles, vec![None, None, None, Some(900)]);
}

#[test]
fn set_replaces_and_reports_the_old_tile() {
    let mut q = world();
    q.set_tile(TilePos(0, 0), 900, 0, 0).unwrap();
    let slot = q.set_tile(TilePos(0, 0), 901, 0, 0).unwrap();
    assert_eq!(slot.existing, Some(900));
    assert_eq!(q.get_tile_entity(TilePos(0, 0), 0, 0), Ok(901));
}

#[test]
fn set_leaves_other_positions_alone() {
    let mut q = world();
    q.set_tile(TilePos(0, 0), 900, 0, 0).unwrap();
    q.set_tile(TilePos(1, 0), 901, 0, 0).unwrap();
    q.set_tile(TilePos(0, 1), 902, 0, 0).unwrap();
    assert_eq!(q.get_tile_entity(TilePos(0, 0), 0, 0), Ok(900));
    assert_eq!(q.get_tile_entity(TilePos(1, 0), 0, 0), Ok(901));
    assert_eq!(q.get_tile_entity(TilePos(0, 1), 0, 0), Ok(902));
    assert_eq!(
        q.get_tile_entity(TilePos(1, 1), 0, 0),
        Err(MapTileError::NonExistent(TilePos(1, 1)))
    );
}

#[test]
fn despawn_tile_then_get_finds_nothing() {
    let mut q = world();
    q.set_tile(TilePos(2, 3), 900, 0, 0).unwrap_err();
    q.set_tile(TilePos(1, 3), 900, 0, 0).unwrap();
    assert_eq!(q.despawn_tile(TilePos(1, 3), 0, 0), Ok(900));
    assert_eq!(
        q.get_tile_entity(TilePos(1, 3), 0, 0),
        Err(MapTileError::NonExistent(TilePos(1, 3)))
    );
    assert_eq!(
        q.despawn_tile(TilePos(1, 3), 0, 0),
        Err(MapTileError::NonExistent(TilePos(1, 3)))
    );
}

#[test]
fn out_of_bounds_requests_are_refused() {
    let mut q = world();
    // no chunk at chunk position (1, 1)
    assert_eq!(
        q.set_tile(TilePos(3, 3), 900, 0, 0),
        Err(MapTileError::OutOfBounds(TilePos(3, 3)))
    );
    // beyond the layer
    assert_eq!(
        q.get_tile_entity(TilePos(4, 0), 0, 0),
        Err(MapTileError::OutOfBounds(TilePos(4, 0)))
    );
    // unknown map and unknown layer
    assert_eq!(
        q.get_tile_entity(TilePos(0, 0), 1, 0),
        Err(MapTileError::OutOfBounds(TilePos(0, 0)))
    );
    assert_eq!(
        q.despawn_tile(TilePos(0, 0), 0, 1),
        Err(MapTileError::OutOfBounds(TilePos(0, 0)))
    );
    assert_eq!(
        q.locate_tile(TilePos(0, 0), 0, 7),
        Err(MapTileError::OutOfBounds(TilePos(0, 0)))
    );
}

#[test]
fn get_layer_finds_the_layer_of_the_first_map() {
    let q = world();
    let (entity, layer) = q.get_layer(0, 0).unwrap();
    assert_eq!(entity, LAYER);
    assert_eq!(layer.settings.chunk_size, ChunkSize(2, 2));
    assert!(q.get_layer(0, 1).is_none());
    assert!(q.get_layer(5, 0).is_none());
    assert_eq!(q.find_map(0), Some(0));
    assert_eq!(q.find_map(3), None);
}

#[test]
fn the_first_map_with_an_id_wins() {
    let mut first = TileMap::new(7);
    first.add_layer(0, 201);
    let mut second = TileMap::new(7);
    second.add_layer(0, 202);
    let layer = |e: u64| Layer {
        settings: LayerSettings {
            map_size: MapSize(1, 1),
            chunk_size: ChunkSize(1, 1),
            layer_id: 0,
            map_id: 7,
        },
        chunks: vec![Some(e)],
    };
    let q = MapQuery::from_parts(
        vec![(10, first), (11, second)],
        vec![(201, layer(301)), (202, layer(302))],
        vec![
            (301, Chunk::new(ChunkPos(0, 0), ChunkSize(1, 1))),
            (302, Chunk::new(ChunkPos(0, 0), ChunkSize(1, 1))),
        ],
    )
    .unwrap();
    assert_eq!(q.get_layer(7, 0).unwrap().0, 201);
    assert_eq!(q.locate_tile(TilePos(0, 0), 7, 0).unwrap().chunk, 301);
}

#[test]
fn despawn_layer_tiles_clears_every_slot_in_column_order() {
    let mut q = world();
    q.set_tile(TilePos(3, 1), 4, 0, 0).unwrap();
    q.set_tile(TilePos(1, 0), 3, 0, 0).unwrap();
    q.set_tile(TilePos(0, 1), 2, 0, 0).unwrap();
    q.set_tile(TilePos(0, 0), 1, 0, 0).unwrap();
    q.set_tile(TilePos(0, 3), 5, 0, 0).unwrap();
    let gone = q.despawn_layer_tiles(0, 0);
    assert_eq!(gone, vec![1, 2, 5, 3, 4]);
    for x in 0..4 {
        for y in 0..4 {
            assert!(q.get_tile_entity(TilePos(x, y), 0, 0).is_err());
        }
    }
    // the layer and its chunks are still there
    assert!(q.get_layer(0, 0).is_some());
    assert_eq!(
        q.get_tile_entity(TilePos(0, 0), 0, 0),
        Err(MapTileError::NonExistent(TilePos(0, 0)))
    );
}

#[test]
fn despawn_layer_tiles_of_a_missing_layer_does_nothing() {
    let mut q = world();
    q.set_tile(TilePos(0, 0), 1, 0, 0).unwrap();
    assert_eq!(q.despawn_layer_tiles(0, 3), Vec::<u64>::new());
    assert_eq!(q.get_tile_entity(TilePos(0, 0), 0, 0), Ok(1));
}

#[test]
fn despawn_layer_despawns_tiles_chunks_and_the_layer() {
    let mut q = world();
    q.set_tile(TilePos(2, 0), 9, 0, 0).unwrap();
    let gone = q.despawn_layer(0, 0);
    assert_eq!(gone, vec![9, 300, 302, 301, LAYER, LAYER]);
    assert!(q.get_layer(0, 0).is_none());
    assert_eq!(
        q.get_tile_entity(TilePos(2, 0), 0, 0),
        Err(MapTileError::OutOfBounds(TilePos(2, 0)))
    );
    assert_eq!(q.despawn_layer(0, 0), Vec::<u64>::new());
}

#[test]
fn despawn_layer_keeps_the_other_layers() {
    let mut map = TileMap::new(0);
    map.add_layer(0, 200);
    map.add_layer(1, 201);
    let layer = |id: u16, chunk: u64| Layer {
        settings: LayerSettings {
            map_size: MapSize(1, 1),
            chunk_size: ChunkSize(1, 1),
            layer_id: id,
            map_id: 0,
        },
        chunks: vec![Some(chunk)],
    };
    let mut q = MapQuery::from_parts(
        vec![(MAP, map)],
        vec![(200, layer(0, 300)), (201, layer(1, 301))],
        vec![
            (300, Chunk::new(ChunkPos(0, 0), ChunkSize(1, 1))),
            (301, Chunk::new(ChunkPos(0, 0), ChunkSize(1, 1))),
        ],
    )
    .unwrap();
    q.set_tile(TilePos(0, 0), 7, 0, 1).unwrap();
    assert_eq!(q.despawn_layer(0, 0), vec![300, 200, 200]);
    assert_eq!(q.get_layer(0, 1).unwrap().0, 201);
    assert_eq!(q.get_tile_entity(TilePos(0, 0), 0, 1), Ok(7));
}

#[test]
fn despawn_removes_every_layer_then_the_map() {
    let mut map = TileMap::new(0);
    map.add_layer(0, 200);
    map.add_layer(1, 201);
    let layer = |id: u16, chunk: u64| Layer {
        settings: LayerSettings {
            map_size: MapSize(1, 1),
            chunk_size: ChunkSize(1, 1),
            layer_id: id,
            map_id: 0,
        },
        chunks: vec![Some(chunk)],
    };
    let mut q = MapQuery::from_parts(
        vec![(MAP, map)],
        vec![(200, layer(0, 300)), (201, layer(1, 301))],
        vec![
            (300, Chunk::new(ChunkPos(0, 0), ChunkSize(1, 1))),
            (301, Chunk::new(ChunkPos(0, 0), ChunkSize(1, 1))),
        ],
    )
    .unwrap();
    q.set_tile(TilePos(0, 0), 7, 0, 0).unwrap();
    q.set_tile(TilePos(0, 0), 8, 0, 1).unwrap();
    let gone = q.despawn(0);
    assert_eq!(gone.len(), 9);
    assert_eq!(*gone.last().unwrap(), MAP);
    let first_half = vec![7, 300, 200, 200];
    let second_half = vec![8, 301, 201, 201];
    let a: Vec<u64> = first_half.iter().chain(second_half.iter()).copied().collect();
    let b: Vec<u64> = second_half.iter().chain(first_half.iter()).copied().collect();
    assert!(gone[..8] == a[..] || gone[..8] == b[..]);
    assert!(q.get_layer(0, 0).is_none());
    assert!(q.get_layer(0, 1).is_none());
    let (maps, _, chunks) = q.into_parts();
    assert!(maps[0].1.layers.is_empty());
    assert_eq!(chunks[&300].tiles, vec![None]);
    assert_eq!(chunks[&301].tiles, vec![None]);
}

#[test]
fn despawn_of_a_missing_map_does_nothing() {
    let mut q = world();
    assert_eq!(q.despawn(9), Vec::<u64>::new());
    assert!(q.get_layer(0, 0).is_some());
}

#[test]
fn notify_marks_only_the_chunk_asked_for() {
    let mut q = world();
    q.notify_chunk(301);
    assert!(q.chunk(301).unwrap().needs_remesh);
    assert!(!q.chunk(300).unwrap().needs_remesh);
    q.notify_chunk(999);
    q.notify_chunk_for_tile(TilePos(1, 2), 0, 0);
    assert!(q.chunk(302).unwrap().needs_remesh);
    assert!(!q.chunk(300).unwrap().needs_remesh);
    q.notify_chunk_for_tile(TilePos(3, 3), 0, 0);
    assert!(!q.chunk(300).unwrap().needs_remesh);
}

#[test]
fn notify_keeps_tiles() {
    let mut q = world();
    q.set_tile(TilePos(3, 0), 5, 0, 0).unwrap();
    q.notify_chunk_for_tile(TilePos(3, 0), 0, 0);
    assert_eq!(q.get_tile_entity(TilePos(3, 0), 0, 0), Ok(5));
}

fn one_layer_world(layer: Layer, chunk: Chunk) -> Option<MapQuery> {
    let mut map = TileMap::new(0);
    map.add_layer(0, LAYER);
    MapQuery::from_parts(vec![(MAP, map)], vec![(LAYER, layer)], vec![(300, chunk)])
}

fn settings(map_size: MapSize, chunk_size: ChunkSize) -> LayerSettings {
    LayerSettings { map_size, chunk_size, layer_id: 0, map_id: 0 }
}

#[test]
fn from_parts_refuses_inconsistent_data() {
    // a chunk whose slots do not match its size
    let bad_chunk = Chunk {
        position: ChunkPos(0, 0),
        size: ChunkSize(2, 2),
        tiles: vec![None; 3],
        needs_remesh: false,
    };
    let layer = Layer { settings: settings(MapSize(1, 1), ChunkSize(2, 2)), chunks: vec![Some(300)] };
    assert!(one_layer_world(layer, bad_chunk).is_none());
    // a layer with an empty chunk size
    let layer = Layer { settings: settings(MapSize(1, 1), ChunkSize(0, 2)), chunks: vec![Some(300)] };
    assert!(one_layer_world(layer, Chunk::new(ChunkPos(0, 0), ChunkSize(0, 2))).is_none());
    // a layer pointing at a chunk of another size
    let layer = Layer { settings: settings(MapSize(1, 1), ChunkSize(2, 2)), chunks: vec![Some(300)] };
    assert!(one_layer_world(layer, Chunk::new(ChunkPos(0, 0), ChunkSize(3, 3))).is_none());
    // a layer whose extent does not fit in 32 bits
    let layer = Layer {
        settings: settings(MapSize(u32::MAX, 1), ChunkSize(2, 2)),
        chunks: vec![Some(300)],
    };
    assert!(one_layer_world(layer, Chunk::new(ChunkPos(0, 0), ChunkSize(2, 2))).is_none());
    // the same data, consistent
    let layer = Layer { settings: settings(MapSize(1, 1), ChunkSize(2, 2)), chunks: vec![Some(300)] };
    assert!(one_layer_world(layer, Chunk::new(ChunkPos(0, 0), ChunkSize(2, 2))).is_some());
}

#[test]
fn a_later_entry_for_an_entity_replaces_an_earlier_one() {
    let mut map = TileMap::new(0);
    map.add_layer(0, LAYER);
    let layer = Layer { settings: settings(MapSize(1, 1), ChunkSize(1, 1)), chunks: vec![Some(300)] };
    let mut old = Chunk::new(ChunkPos(0, 0), ChunkSize(1, 1));
    old.tiles[0] = Some(1);
    let mut new = Chunk::new(ChunkPos(0, 0), ChunkSize(1, 1));
    new.tiles[0] = Some(2);
    let q = MapQuery::from_parts(vec![(MAP, map)], vec![(LAYER, layer)], vec![(300, old), (300, new)])
        .unwrap();
    assert_eq!(q.get_tile_entity(TilePos(0, 0), 0, 0), Ok(2));
}
