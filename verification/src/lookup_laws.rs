use vstd::prelude::*;

use crate::query_view::{entries_map, first_map, lemma_first_map, lemma_first_map_found, lemma_slot_in_range, MapQueryView, TileSlot};
use crate::layer::LayerView;
use crate::tile::{ChunkPos, MapTileError, TilePos};

verus! {

/// A position that lies in the rectangle of the chunk that its layer holds at
/// `position / chunk_size` has a slot: the chunk, the row-major index of the
/// position within the chunk, the layer's map id and the requested layer id,
/// and what that slot holds. The layer is the one that the first map with
/// id `map_id` (index `i`) lists under `layer_id`.
pub proof fn law_lookup_complete(
    q: MapQueryView,
    tile_pos: TilePos,
    map_id: u16,
    layer_id: u16,
    i: int,
    le: u64,
    ce: u64,
)
    requires
        q.wf(),
        0 <= i < q.maps.len(),
        q.maps[i].1.id == map_id,
        forall|j: int| 0 <= j < i ==> (#[trigger] q.maps[j]).1.id != map_id,
        q.maps[i].1.layers.contains_key(layer_id),
        q.maps[i].1.layers[layer_id] == le,
        q.layers.contains_key(le),
        ({
            let layer = q.layers[le];
            let cs = layer.settings.chunk_size;
            let ms = layer.settings.map_size;
            let cx = tile_pos.0 as int / cs.0 as int;
            let cy = tile_pos.1 as int / cs.1 as int;
            &&& cx < ms.0
            &&& cy < ms.1
            &&& cy * ms.0 + cx < layer.chunks.len()
            &&& layer.chunks[cy * ms.0 + cx] == Some(ce)
        }),
        q.chunks.contains_key(ce),
        q.chunks[ce].position.0 * q.chunks[ce].size.0 <= tile_pos.0 < q.chunks[ce].position.0
            * q.chunks[ce].size.0 + q.chunks[ce].size.0,
        q.chunks[ce].position.1 * q.chunks[ce].size.1 <= tile_pos.1 < q.chunks[ce].position.1
            * q.chunks[ce].size.1 + q.chunks[ce].size.1,
    ensures
        ({
            let layer = q.layers[le];
            let chunk = q.chunks[ce];
            let lx = tile_pos.0 - chunk.position.0 * chunk.size.0;
            let ly = tile_pos.1 - chunk.position.1 * chunk.size.1;
            let index = ly * layer.settings.chunk_size.0 + lx;
            &&& 0 <= index < chunk.tiles.len()
            &&& q.tile_slot(tile_pos, map_id, layer_id) == Ok::<TileSlot, MapTileError>(
                TileSlot {
                    chunk: ce,
                    index: index as usize,
                    map_id: layer.settings.map_id,
                    layer_id,
                    existing: chunk.tiles[index],
                },
            )
            &&& q.tile_lookup(tile_pos, map_id, layer_id) == match chunk.tiles[index] {
                Some(t) => Ok::<u64, MapTileError>(t),
                None => Err(MapTileError::NonExistent(tile_pos)),
            }
        }),
{
    lemma_first_map(q.maps, map_id, i);
    let layer = q.layers[le];
    assert(q.layer_fits(layer));
    let cs = layer.settings.chunk_size;
    let ms = layer.settings.map_size;
    let cx = tile_pos.0 as int / cs.0 as int;
    let cy = tile_pos.1 as int / cs.1 as int;
    assert(layer.chunks[cy * ms.0 + cx] == Some(ce));
    assert(q.found_chunk(tile_pos, map_id, layer_id) == Some(ce));
    lemma_slot_in_range(q, tile_pos, map_id, layer_id);
    let chunk = q.chunks[ce];
    assert(chunk.size == cs);
    assert(chunk.wf());
    let lx = tile_pos.0 - chunk.position.0 * chunk.size.0;
    let ly = tile_pos.1 - chunk.position.1 * chunk.size.1;
    assert(0 <= ly * cs.0 + lx < cs.0 * cs.1) by (nonlinear_arith)
        requires
            0 <= lx < cs.0,
            0 <= ly < cs.1,
    ;
    assert(chunk.local_pos(tile_pos) == Some(TilePos(lx as u32, ly as u32)));
}

/// Whatever slot a lookup finds is the one `law_lookup_complete` names: the
/// first map with id `map_id` lists the layer, the layer holds the chunk at
/// `position / chunk_size` inside its map size, the chunk's rectangle covers
/// the position, and the slot carries the layer's map id and the requested
/// layer id. With no map of id `map_id`, every lookup is out of bounds.
pub proof fn law_lookup_sound(q: MapQueryView, tile_pos: TilePos, map_id: u16, layer_id: u16)
    requires
        q.wf(),
    ensures
        (forall|j: int| 0 <= j < q.maps.len() ==> (#[trigger] q.maps[j]).1.id != map_id)
            ==> q.tile_slot(tile_pos, map_id, layer_id) == Err::<TileSlot, MapTileError>(
            MapTileError::OutOfBounds(tile_pos),
        ),
        q.tile_slot(tile_pos, map_id, layer_id) matches Ok(s) ==> exists|i: int|
            {
                let le = q.maps[i].1.layers[layer_id];
                &&& 0 <= i < q.maps.len()
                &&& (#[trigger] q.maps[i]).1.id == map_id
                &&& (forall|j: int| 0 <= j < i ==> (#[trigger] q.maps[j]).1.id != map_id)
                &&& q.maps[i].1.layers.contains_key(layer_id)
                &&& q.layers.contains_key(le)
                &&& s.map_id == q.layers[le].settings.map_id
                &&& s.layer_id == layer_id
                &&& q.chunks.contains_key(s.chunk)
                &&& ({
                    let layer = q.layers[le];
                    let chunk = q.chunks[s.chunk];
                    let cs = layer.settings.chunk_size;
                    let ms = layer.settings.map_size;
                    let cx = tile_pos.0 as int / cs.0 as int;
                    let cy = tile_pos.1 as int / cs.1 as int;
                    let lx = tile_pos.0 - chunk.position.0 * chunk.size.0;
                    let ly = tile_pos.1 - chunk.position.1 * chunk.size.1;
                    &&& cx < ms.0 && cy < ms.1
                    &&& layer.chunks[cy * ms.0 + cx] == Some(s.chunk)
                    &&& 0 <= lx < chunk.size.0
                    &&& 0 <= ly < chunk.size.1
                    &&& s.index == ly * cs.0 + lx
                    &&& s.existing == chunk.tiles[s.index as int]
                })
            },
{
    lemma_first_map_found(q.maps, map_id);
    if forall|j: int| 0 <= j < q.maps.len() ==> (#[trigger] q.maps[j]).1.id != map_id {
        lemma_first_map(q.maps, map_id, q.maps.len() as int);
    }
    if q.tile_slot(tile_pos, map_id, layer_id) is Ok {
        let s = q.tile_slot(tile_pos, map_id, layer_id)->Ok_0;
        lemma_slot_in_range(q, tile_pos, map_id, layer_id);
        let i = first_map(q.maps, map_id)->0;
        let le = q.found_layer(map_id, layer_id)->0;
        let layer = q.layers[le];
        assert(q.layer_fits(layer));
        let cs = layer.settings.chunk_size;
        let chunk = q.chunks[s.chunk];
        let ms = layer.settings.map_size;
        let cx = tile_pos.0 as int / cs.0 as int;
        let cy = tile_pos.1 as int / cs.1 as int;
        assert(layer.chunks[cy * ms.0 + cx] == Some(s.chunk));
        assert(chunk.size == cs);
        let lx = tile_pos.0 - chunk.position.0 * chunk.size.0;
        let ly = tile_pos.1 - chunk.position.1 * chunk.size.1;
        assert(0 <= ly * cs.0 + lx < cs.0 * cs.1) by (nonlinear_arith)
            requires
                0 <= lx < cs.0,
                0 <= ly < cs.1,
        ;
        assert(s.index == ly * cs.0 + lx);
        assert(q.maps[i].1.id == map_id);
    }
}

/// Marking a chunk for a mesh rebuild (as `notify_chunk` and
/// `notify_chunk_for_tile` do) leaves it marked, whatever its flag was,
/// marking it again changes nothing, and nothing else changes.
pub proof fn law_notify_marks(q: MapQueryView, chunk: u64)
    requires
        q.chunks.contains_key(chunk),
    ensures
        q.with_remesh(chunk).chunks[chunk].needs_remesh,
        q.with_remesh(chunk).chunks[chunk].tiles == q.chunks[chunk].tiles,
        q.with_remesh(chunk).chunks[chunk].position == q.chunks[chunk].position,
        q.with_remesh(chunk).chunks[chunk].size == q.chunks[chunk].size,
        q.with_remesh(chunk).chunks.dom() == q.chunks.dom(),
        forall|c: u64| c != chunk ==> #[trigger] q.with_remesh(chunk).chunks[c] == q.chunks[c],
        q.with_remesh(chunk).maps == q.maps,
        q.with_remesh(chunk).layers == q.layers,
        q.with_remesh(chunk).with_remesh(chunk) == q.with_remesh(chunk),
{
    let q1 = q.with_remesh(chunk);
    assert(q1.chunks.dom() =~= q.chunks.dom());
    assert(q1.with_remesh(chunk).chunks =~= q1.chunks);
}

/// The chunk that `notify_chunk_for_tile` marks is the one that the layer
/// (listed by the first map with id `map_id`, index `i`) holds at
/// `position / chunk_size`, when the query sees it.
pub proof fn law_notify_for_tile_chunk(
    q: MapQueryView,
    tile_pos: TilePos,
    map_id: u16,
    layer_id: u16,
    i: int,
    le: u64,
    ce: u64,
)
    requires
        q.wf(),
        0 <= i < q.maps.len(),
        q.maps[i].1.id == map_id,
        forall|j: int| 0 <= j < i ==> (#[trigger] q.maps[j]).1.id != map_id,
        q.maps[i].1.layers.contains_key(layer_id),
        q.maps[i].1.layers[layer_id] == le,
        q.layers.contains_key(le),
        ({
            let layer = q.layers[le];
            let cs = layer.settings.chunk_size;
            let ms = layer.settings.map_size;
            let cx = tile_pos.0 as int / cs.0 as int;
            let cy = tile_pos.1 as int / cs.1 as int;
            &&& cx < ms.0
            &&& cy < ms.1
            &&& cy * ms.0 + cx < layer.chunks.len()
            &&& layer.chunks[cy * ms.0 + cx] == Some(ce)
        }),
        q.chunks.contains_key(ce),
    ensures
        q.found_chunk(tile_pos, map_id, layer_id) == Some(ce),
        q.found_layer(map_id, layer_id) == Some(le),
{
    lemma_first_map(q.maps, map_id, i);
    assert(q.layer_fits(q.layers[le]));
}

/// The chunk column holds every chunk of the column below `rows`, and only those.
proof fn lemma_chunk_column(layer: LayerView, x: u32, rows: nat, e: u64)
    ensures
        layer.chunk_column(x, rows).contains(e) <==> exists|y: u32|
            y < rows && #[trigger] layer.chunk_at(ChunkPos(x, y)) == Some(e),
    decreases rows,
{
    if rows > 0 {
        let r = (rows - 1) as nat;
        lemma_chunk_column(layer, x, r, e);
        let prev = layer.chunk_column(x, r);
        let last = crate::despawn_view::option_seq(layer.chunk_at(ChunkPos(x, r as u32)));
        let all = prev + last;
        assert(all == layer.chunk_column(x, rows));
        if all.contains(e) {
            let k = choose|k: int| 0 <= k < all.len() && all[k] == e;
            if k >= prev.len() {
                assert(layer.chunk_at(ChunkPos(x, r as u32)) == Some(e));
            } else {
                assert(prev[k] == e);
            }
        }
        if exists|y: u32| y < rows && #[trigger] layer.chunk_at(ChunkPos(x, y)) == Some(e) {
            let y = choose|y: u32| y < rows && #[trigger] layer.chunk_at(ChunkPos(x, y)) == Some(e);
            if y == r {
                assert(all[prev.len() as int] == e);
            } else {
                let k = choose|k: int| 0 <= k < prev.len() && prev[k] == e;
                assert(all[k] == e);
            }
        }
    }
}

/// The chunk grid holds every chunk of the first `cols` columns and `rows`
/// rows, and only those.
proof fn lemma_chunk_grid(layer: LayerView, cols: nat, rows: nat, e: u64)
    ensures
        layer.chunk_grid(cols, rows).contains(e) <==> exists|x: u32, y: u32|
            x < cols && y < rows && #[trigger] layer.chunk_at(ChunkPos(x, y)) == Some(e),
    decreases cols,
{
    if cols > 0 {
        let c = (cols - 1) as nat;
        lemma_chunk_grid(layer, c, rows, e);
        lemma_chunk_column(layer, c as u32, rows, e);
        let prev = layer.chunk_grid(c, rows);
        let col = layer.chunk_column(c as u32, rows);
        let all = prev + col;
        assert(all == layer.chunk_grid(cols, rows));
        if all.contains(e) {
            let k = choose|k: int| 0 <= k < all.len() && all[k] == e;
            if k >= prev.len() {
                assert(col[k - prev.len()] == e);
                let y = choose|y: u32| y < rows && #[trigger] layer.chunk_at(ChunkPos(c as u32, y)) == Some(e);
                assert(layer.chunk_at(ChunkPos(c as u32, y)) == Some(e));
            } else {
                assert(prev[k] == e);
                let (x, y) = choose|x: u32, y: u32|
                    x < c && y < rows && #[trigger] layer.chunk_at(ChunkPos(x, y)) == Some(e);
                assert(layer.chunk_at(ChunkPos(x, y)) == Some(e));
            }
        }
        if exists|x: u32, y: u32| x < cols && y < rows && #[trigger] layer.chunk_at(ChunkPos(x, y)) == Some(e) {
            let (x, y) = choose|x: u32, y: u32|
                x < cols && y < rows && #[trigger] layer.chunk_at(ChunkPos(x, y)) == Some(e);
            if x == c {
                assert(layer.chunk_at(ChunkPos(c as u32, y)) == Some(e));
                let k = choose|k: int| 0 <= k < col.len() && col[k] == e;
                assert(all[prev.len() + k] == e);
            } else {
                assert(layer.chunk_at(ChunkPos(x, y)) == Some(e));
                let k = choose|k: int| 0 <= k < prev.len() && prev[k] == e;
                assert(all[k] == e);
            }
        }
    }
}

/// The chunks that despawning a layer despawns are exactly the chunk
/// entities that the layer holds at chunk positions inside its map size
/// (`x < map_size.0`, `y < map_size.1`).
pub proof fn law_layer_chunks_exact(layer: LayerView, e: u64)
    ensures
        layer.layer_chunks().contains(e) <==> exists|x: u32, y: u32|
            {
                &&& x < layer.settings.map_size.0
                &&& y < layer.settings.map_size.1
                &&& y * layer.settings.map_size.0 + x < layer.chunks.len()
                &&& #[trigger] layer.chunks[y * layer.settings.map_size.0 + x] == Some(e)
            },
{
    lemma_chunk_grid(layer, layer.settings.map_size.0 as nat, layer.settings.map_size.1 as nat, e);
    if layer.layer_chunks().contains(e) {
        let (x, y) = choose|x: u32, y: u32|
            x < layer.settings.map_size.0 && y < layer.settings.map_size.1
                && #[trigger] layer.chunk_at(ChunkPos(x, y)) == Some(e);
        assert(layer.chunks[y * layer.settings.map_size.0 + x] == Some(e));
    }
    if exists|x: u32, y: u32|
        {
            &&& x < layer.settings.map_size.0
            &&& y < layer.settings.map_size.1
            &&& y * layer.settings.map_size.0 + x < layer.chunks.len()
            &&& #[trigger] layer.chunks[y * layer.settings.map_size.0 + x] == Some(e)
        } {
        let (x, y) = choose|x: u32, y: u32|
            {
                &&& x < layer.settings.map_size.0
                &&& y < layer.settings.map_size.1
                &&& y * layer.settings.map_size.0 + x < layer.chunks.len()
                &&& #[trigger] layer.chunks[y * layer.settings.map_size.0 + x] == Some(e)
            };
        assert(layer.chunk_at(ChunkPos(x, y)) == Some(e));
    }
}

/// What despawning a layer despawns: when the first map with id `map_id`
/// (index `i`) lists the layer under entity `le`, and the query sees it,
/// the list holds every chunk entity that the layer holds inside its map
/// size, and it ends with the layer entity, twice.
pub proof fn law_despawn_layer_list(
    q: MapQueryView,
    map_id: u16,
    layer_id: u16,
    i: int,
    le: u64,
    x: u32,
    y: u32,
)
    requires
        0 <= i < q.maps.len(),
        q.maps[i].1.id == map_id,
        forall|j: int| 0 <= j < i ==> (#[trigger] q.maps[j]).1.id != map_id,
        q.maps[i].1.layers.contains_key(layer_id),
        q.maps[i].1.layers[layer_id] == le,
        q.layers.contains_key(le),
    ensures
        ({
            let list = q.layer_despawn_list(map_id, layer_id);
            let layer = q.layers[le];
            let index = y * layer.settings.map_size.0 + x;
            &&& list == q.layer_tiles(map_id, layer_id) + layer.layer_chunks() + seq![le, le]
            &&& list.len() >= 2
            &&& list[list.len() - 1] == le
            &&& list[list.len() - 2] == le
            &&& (x < layer.settings.map_size.0 && y < layer.settings.map_size.1 && index
                < layer.chunks.len() && layer.chunks[index] is Some) ==> list.contains(
                layer.chunks[index]->0,
            )
        }),
{
    lemma_first_map(q.maps, map_id, i);
    let layer = q.layers[le];
    let list = q.layer_despawn_list(map_id, layer_id);
    let tiles = q.layer_tiles(map_id, layer_id);
    let chunks = layer.layer_chunks();
    assert(list == tiles + chunks + seq![le, le]);
    let index = y * layer.settings.map_size.0 + x;
    if x < layer.settings.map_size.0 && y < layer.settings.map_size.1 && index < layer.chunks.len()
        && layer.chunks[index] is Some {
        let e = layer.chunks[index]->0;
        law_layer_chunks_exact(layer, e);
        assert(layer.chunks[y * layer.settings.map_size.0 + x] == Some(e));
        let k = choose|k: int| 0 <= k < chunks.len() && chunks[k] == e;
        assert(list[tiles.len() + k] == e);
    }
}

/// The map entity that despawning a map despawns, last, is the entity of
/// the first map with id `map_id` (index `i`); with no such map, none.
pub proof fn law_despawn_map_entity(q: MapQueryView, map_id: u16, ids: Seq<u16>, i: int)
    ensures
        (0 <= i < q.maps.len() && q.maps[i].1.id == map_id && forall|j: int|
            0 <= j < i ==> (#[trigger] q.maps[j]).1.id != map_id) ==> {
            let list = q.layers_despawn_list(map_id, ids) + q.map_entity_list(map_id);
            &&& q.map_entity_list(map_id) == seq![q.maps[i].0]
            &&& list[list.len() - 1] == q.maps[i].0
        },
        (forall|j: int| 0 <= j < q.maps.len() ==> (#[trigger] q.maps[j]).1.id != map_id)
            ==> q.map_entity_list(map_id) == Seq::<u64>::empty(),
{
    if 0 <= i < q.maps.len() && q.maps[i].1.id == map_id && forall|j: int|
        0 <= j < i ==> (#[trigger] q.maps[j]).1.id != map_id {
        lemma_first_map(q.maps, map_id, i);
    }
    if forall|j: int| 0 <= j < q.maps.len() ==> (#[trigger] q.maps[j]).1.id != map_id {
        lemma_first_map(q.maps, map_id, q.maps.len() as int);
    }
}

/// The layer a query finds for `(map_id, layer_id)`: the entity that the
/// first map with id `map_id` (index `i`) lists under `layer_id`, when the
/// query sees it; nothing when no map has the id.
pub proof fn law_found_layer_exact(q: MapQueryView, map_id: u16, layer_id: u16, i: int)
    ensures
        (0 <= i < q.maps.len() && q.maps[i].1.id == map_id && forall|j: int|
            0 <= j < i ==> (#[trigger] q.maps[j]).1.id != map_id) ==> {
            &&& q.found_layer(map_id, layer_id) == (if q.maps[i].1.layers.contains_key(layer_id)
                && q.layers.contains_key(q.maps[i].1.layers[layer_id]) {
                Some(q.maps[i].1.layers[layer_id])
            } else {
                None
            })
            &&& q.layer_entity(map_id, layer_id) == (if q.maps[i].1.layers.contains_key(layer_id) {
                Some(q.maps[i].1.layers[layer_id])
            } else {
                None
            })
            &&& q.map_layer_ids(map_id) == q.maps[i].1.layers.dom()
        },
        (forall|j: int| 0 <= j < q.maps.len() ==> (#[trigger] q.maps[j]).1.id != map_id) ==> {
            &&& q.found_layer(map_id, layer_id) is None
            &&& q.layer_entity(map_id, layer_id) is None
            &&& q.map_layer_ids(map_id) == Set::<u16>::empty()
        },
{
    if 0 <= i < q.maps.len() && q.maps[i].1.id == map_id && forall|j: int|
        0 <= j < i ==> (#[trigger] q.maps[j]).1.id != map_id {
        lemma_first_map(q.maps, map_id, i);
    }
    if forall|j: int| 0 <= j < q.maps.len() ==> (#[trigger] q.maps[j]).1.id != map_id {
        lemma_first_map(q.maps, map_id, q.maps.len() as int);
    }
}

/// Despawning a layer changes only the entry of the first map with id
/// `map_id` (index `i`), and in it only the despawned layer; every other
/// map is kept, and the layers and the chunks' shapes are kept.
pub proof fn law_despawn_layer_keeps_other_maps(
    q: MapQueryView,
    map_id: u16,
    layer_id: u16,
    i: int,
    j: int,
)
    requires
        0 <= i < q.maps.len(),
        q.maps[i].1.id == map_id,
        forall|k: int| 0 <= k < i ==> (#[trigger] q.maps[k]).1.id != map_id,
        0 <= j < q.maps.len(),
    ensures
        q.layer_despawned(map_id, layer_id).maps.len() == q.maps.len(),
        q.layer_despawned(map_id, layer_id).layers == q.layers,
        j != i ==> q.layer_despawned(map_id, layer_id).maps[j] == q.maps[j],
        q.layer_despawned(map_id, layer_id).maps[i].0 == q.maps[i].0,
        q.layer_despawned(map_id, layer_id).maps[i].1.id == map_id,
        q.layer_despawned(map_id, layer_id).maps[i].1.layers == q.maps[i].1.layers.remove(layer_id),
{
    lemma_first_map(q.maps, map_id, i);
}

/// The tile column holds the tile at every row below `rows`.
proof fn lemma_tile_column(q: MapQueryView, map_id: u16, layer_id: u16, x: u32, rows: nat, y: u32)
    requires
        y < rows,
        q.tile_at_pos(x, y, map_id, layer_id) is Some,
    ensures
        q.tile_column(map_id, layer_id, x, rows).contains(q.tile_at_pos(x, y, map_id, layer_id)->0),
    decreases rows,
{
    let r = (rows - 1) as nat;
    let prev = q.tile_column(map_id, layer_id, x, r);
    let all = q.tile_column(map_id, layer_id, x, rows);
    let t = q.tile_at_pos(x, y, map_id, layer_id)->0;
    if y == r {
        assert(all[prev.len() as int] == t);
    } else {
        lemma_tile_column(q, map_id, layer_id, x, r, y);
        let k = choose|k: int| 0 <= k < prev.len() && prev[k] == t;
        assert(all[k] == t);
    }
}

/// Every element of the tile column is the tile at some row below `rows`.
proof fn lemma_tile_column_sound(q: MapQueryView, map_id: u16, layer_id: u16, x: u32, rows: nat, t: u64)
    requires
        q.tile_column(map_id, layer_id, x, rows).contains(t),
    ensures
        exists|y: u32| y < rows && #[trigger] q.tile_at_pos(x, y, map_id, layer_id) == Some(t),
    decreases rows,
{
    let r = (rows - 1) as nat;
    let prev = q.tile_column(map_id, layer_id, x, r);
    let all = q.tile_column(map_id, layer_id, x, rows);
    let k = choose|k: int| 0 <= k < all.len() && all[k] == t;
    if k < prev.len() {
        assert(prev[k] == t);
        lemma_tile_column_sound(q, map_id, layer_id, x, r, t);
    } else {
        assert(q.tile_at_pos(x, r as u32, map_id, layer_id) == Some(t));
    }
}

/// The tile grid holds the tile at every position of its columns and rows.
proof fn lemma_tile_grid(q: MapQueryView, map_id: u16, layer_id: u16, cols: nat, rows: nat, x: u32, y: u32)
    requires
        x < cols,
        y < rows,
        q.tile_at_pos(x, y, map_id, layer_id) is Some,
    ensures
        q.tile_grid(map_id, layer_id, cols, rows).contains(q.tile_at_pos(x, y, map_id, layer_id)->0),
    decreases cols,
{
    let c = (cols - 1) as nat;
    let prev = q.tile_grid(map_id, layer_id, c, rows);
    let col = q.tile_column(map_id, layer_id, c as u32, rows);
    let all = q.tile_grid(map_id, layer_id, cols, rows);
    let t = q.tile_at_pos(x, y, map_id, layer_id)->0;
    assert(all == prev + col);
    if x == c {
        lemma_tile_column(q, map_id, layer_id, x, rows, y);
        let k = choose|k: int| 0 <= k < col.len() && col[k] == t;
        assert(all[prev.len() + k] == t);
    } else {
        lemma_tile_grid(q, map_id, layer_id, c, rows, x, y);
        let k = choose|k: int| 0 <= k < prev.len() && prev[k] == t;
        assert(all[k] == t);
    }
}

/// Every element of the tile grid is the tile at some of its positions.
proof fn lemma_tile_grid_sound(q: MapQueryView, map_id: u16, layer_id: u16, cols: nat, rows: nat, t: u64)
    requires
        q.tile_grid(map_id, layer_id, cols, rows).contains(t),
    ensures
        exists|x: u32, y: u32|
            x < cols && y < rows && #[trigger] q.tile_at_pos(x, y, map_id, layer_id) == Some(t),
    decreases cols,
{
    let c = (cols - 1) as nat;
    let prev = q.tile_grid(map_id, layer_id, c, rows);
    let col = q.tile_column(map_id, layer_id, c as u32, rows);
    let all = q.tile_grid(map_id, layer_id, cols, rows);
    assert(all == prev + col);
    let k = choose|k: int| 0 <= k < all.len() && all[k] == t;
    if k < prev.len() {
        assert(prev[k] == t);
        lemma_tile_grid_sound(q, map_id, layer_id, c, rows, t);
        let (x, y) = choose|x: u32, y: u32|
            x < c && y < rows && #[trigger] q.tile_at_pos(x, y, map_id, layer_id) == Some(t);
        assert(q.tile_at_pos(x, y, map_id, layer_id) == Some(t));
    } else {
        assert(col[k - prev.len()] == t);
        lemma_tile_column_sound(q, map_id, layer_id, c as u32, rows, t);
        let y = choose|y: u32| y < rows && #[trigger] q.tile_at_pos(c as u32, y, map_id, layer_id) == Some(t);
        assert(q.tile_at_pos(c as u32, y, map_id, layer_id) == Some(t));
    }
}

/// The tiles that despawning a layer's tiles despawns: for a layer found
/// under entity `le`, every tile that a lookup finds at a position inside
/// the layer's extent (`x < map_size.0 * chunk_size.0`,
/// `y < map_size.1 * chunk_size.1`) is listed, and every listed tile is one
/// that a lookup finds at such a position. For a layer that is not found,
/// the list is empty.
pub proof fn law_layer_tiles_exact(
    q: MapQueryView,
    map_id: u16,
    layer_id: u16,
    le: u64,
    x: u32,
    y: u32,
    t: u64,
)
    requires
        q.found_layer(map_id, layer_id) == Some(le),
    ensures
        ({
            let s = q.layers[le].settings;
            (x < s.map_size.0 * s.chunk_size.0 && y < s.map_size.1 * s.chunk_size.1 && q.tile_lookup(
                TilePos(x, y),
                map_id,
                layer_id,
            ) == Ok::<u64, MapTileError>(t)) ==> q.layer_tiles(map_id, layer_id).contains(t)
        }),
        q.layer_tiles(map_id, layer_id).contains(t) ==> exists|x2: u32, y2: u32|
            {
                let s = q.layers[le].settings;
                &&& x2 < s.map_size.0 * s.chunk_size.0
                &&& y2 < s.map_size.1 * s.chunk_size.1
                &&& #[trigger] q.tile_lookup(TilePos(x2, y2), map_id, layer_id) == Ok::<
                    u64,
                    MapTileError,
                >(t)
            },
{
    let s = q.layers[le].settings;
    let w = s.map_size.0 * s.chunk_size.0;
    let h = s.map_size.1 * s.chunk_size.1;
    if x < w && y < h && q.tile_lookup(TilePos(x, y), map_id, layer_id) == Ok::<u64, MapTileError>(t) {
        assert(q.tile_at_pos(x, y, map_id, layer_id) == Some(t));
        lemma_tile_grid(q, map_id, layer_id, w as nat, h as nat, x, y);
    }
    if q.layer_tiles(map_id, layer_id).contains(t) {
        lemma_tile_grid_sound(q, map_id, layer_id, w as nat, h as nat, t);
        let (x2, y2) = choose|x2: u32, y2: u32|
            x2 < w && y2 < h && #[trigger] q.tile_at_pos(x2, y2, map_id, layer_id) == Some(t);
        assert(q.tile_lookup(TilePos(x2, y2), map_id, layer_id) == Ok::<u64, MapTileError>(t));
    }
}

/// Gathering entries (as `from_parts` does) keeps, for each entity, the
/// value of its last entry; an entity with no entry is absent.
pub proof fn law_entries_last_wins<V>(entries: Seq<(u64, V)>, k: u64, i: int)
    ensures
        (0 <= i < entries.len() && entries[i].0 == k && forall|j: int|
            i < j < entries.len() ==> (#[trigger] entries[j]).0 != k) ==> {
            &&& entries_map(entries).contains_key(k)
            &&& entries_map(entries)[k] == entries[i].1
        },
        (forall|j: int| 0 <= j < entries.len() ==> (#[trigger] entries[j]).0 != k)
            ==> !entries_map(entries).contains_key(k),
    decreases entries.len(),
{
    if entries.len() > 0 {
        let rest = entries.drop_last();
        law_entries_last_wins(rest, k, i);
        assert forall|j: int| 0 <= j < rest.len() implies rest[j] == #[trigger] entries[j] by {}
        if 0 <= i < entries.len() && entries[i].0 == k && forall|j: int|
            i < j < entries.len() ==> (#[trigger] entries[j]).0 != k {
            if i < entries.len() - 1 {
                assert(entries[entries.len() - 1].0 != k);
                assert forall|j: int| i < j < rest.len() implies (#[trigger] rest[j]).0 != k by {
                    assert(entries[j].0 != k);
                }
            }
        }
        if forall|j: int| 0 <= j < entries.len() ==> (#[trigger] entries[j]).0 != k {
            assert(entries[entries.len() - 1].0 != k);
            assert forall|j: int| 0 <= j < rest.len() implies (#[trigger] rest[j]).0 != k by {
                assert(entries[j].0 != k);
            }
        }
    }
}

} // verus!
