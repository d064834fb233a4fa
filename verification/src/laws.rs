use vstd::prelude::*;

use crate::despawn_view::lemma_slot_injective;
use crate::query_view::{
    first_map, lemma_first_map_found, lemma_same_shape, lemma_slot_in_range, lemma_with_remesh_shape,
    lemma_with_slot_shape, MapQueryView,
};
use crate::tile::{MapTileError, TilePos};

verus! {

/// After a tile is placed at a position of a layer (as `set_tile` does on
/// success), looking that position up gives the placed tile.
pub proof fn law_get_after_set(
    q: MapQueryView,
    tile_pos: TilePos,
    map_id: u16,
    layer_id: u16,
    tile: u64,
)
    requires
        q.wf(),
        q.tile_slot(tile_pos, map_id, layer_id) is Ok,
    ensures
        ({
            let s = q.tile_slot(tile_pos, map_id, layer_id)->Ok_0;
            q.with_slot(s.chunk, s.index as int, Some(tile)).tile_lookup(tile_pos, map_id, layer_id)
                == Ok::<u64, MapTileError>(tile)
        }),
{
    let s = q.tile_slot(tile_pos, map_id, layer_id)->Ok_0;
    lemma_slot_in_range(q, tile_pos, map_id, layer_id);
    let q2 = q.with_slot(s.chunk, s.index as int, Some(tile));
    lemma_with_slot_shape(q, s.chunk, s.index as int, Some(tile));
    lemma_same_shape(q, q2);
    lemma_slot_in_range(q2, tile_pos, map_id, layer_id);
}

/// After the slot of a position is emptied (as `despawn_tile` does on
/// success), looking that position up finds no tile.
pub proof fn law_get_after_despawn(q: MapQueryView, tile_pos: TilePos, map_id: u16, layer_id: u16)
    requires
        q.wf(),
        q.tile_slot(tile_pos, map_id, layer_id) is Ok,
    ensures
        ({
            let s = q.tile_slot(tile_pos, map_id, layer_id)->Ok_0;
            q.with_slot(s.chunk, s.index as int, None).tile_lookup(tile_pos, map_id, layer_id)
                == Err::<u64, MapTileError>(MapTileError::NonExistent(tile_pos))
        }),
{
    let s = q.tile_slot(tile_pos, map_id, layer_id)->Ok_0;
    lemma_slot_in_range(q, tile_pos, map_id, layer_id);
    let q2 = q.with_slot(s.chunk, s.index as int, None);
    lemma_with_slot_shape(q, s.chunk, s.index as int, None);
    lemma_same_shape(q, q2);
    lemma_slot_in_range(q2, tile_pos, map_id, layer_id);
}

/// Writing one slot changes no lookup whose slot is another one, in any map
/// or layer; positions whose lookup fails still fail the same way.
pub proof fn law_write_frame(
    q: MapQueryView,
    chunk: u64,
    index: int,
    tile: Option<u64>,
    tile_pos: TilePos,
    map_id: u16,
    layer_id: u16,
)
    requires
        q.wf(),
        q.chunks.contains_key(chunk),
        0 <= index < q.chunks[chunk].tiles.len(),
        q.slot_location(tile_pos, map_id, layer_id) != Some((chunk, index)),
    ensures
        q.with_slot(chunk, index, tile).tile_lookup(tile_pos, map_id, layer_id) == q.tile_lookup(
            tile_pos,
            map_id,
            layer_id,
        ),
        q.with_slot(chunk, index, tile).wf(),
{
    let q2 = q.with_slot(chunk, index, tile);
    lemma_with_slot_shape(q, chunk, index, tile);
    lemma_same_shape(q, q2);
    lemma_slot_in_range(q, tile_pos, map_id, layer_id);
    lemma_slot_in_range(q2, tile_pos, map_id, layer_id);
}

/// Two different positions of one layer never share a slot: placing or
/// removing a tile at one position of a layer leaves every other position
/// of that layer as it was.
pub proof fn law_set_tile_frame(
    q: MapQueryView,
    tile_pos: TilePos,
    other: TilePos,
    map_id: u16,
    layer_id: u16,
    tile: Option<u64>,
)
    requires
        q.wf(),
        q.tile_slot(tile_pos, map_id, layer_id) is Ok,
        other != tile_pos,
    ensures
        ({
            let s = q.tile_slot(tile_pos, map_id, layer_id)->Ok_0;
            q.with_slot(s.chunk, s.index as int, tile).tile_lookup(other, map_id, layer_id)
                == q.tile_lookup(other, map_id, layer_id)
        }),
{
    let s = q.tile_slot(tile_pos, map_id, layer_id)->Ok_0;
    lemma_slot_in_range(q, tile_pos, map_id, layer_id);
    if q.slot_location(other, map_id, layer_id) == Some((s.chunk, s.index as int)) {
        lemma_slot_injective(q, tile_pos, other, map_id, layer_id);
    }
    law_write_frame(q, s.chunk, s.index as int, tile, other, map_id, layer_id);
}

/// Marking a chunk for a mesh rebuild changes no tile lookup.
pub proof fn law_remesh_keeps_tiles(
    q: MapQueryView,
    chunk: u64,
    tile_pos: TilePos,
    map_id: u16,
    layer_id: u16,
)
    requires
        q.wf(),
        q.chunks.contains_key(chunk),
    ensures
        q.with_remesh(chunk).tile_lookup(tile_pos, map_id, layer_id) == q.tile_lookup(
            tile_pos,
            map_id,
            layer_id,
        ),
        q.with_remesh(chunk).wf(),
{
    let q2 = q.with_remesh(chunk);
    lemma_with_remesh_shape(q, chunk);
    lemma_same_shape(q, q2);
    lemma_slot_in_range(q, tile_pos, map_id, layer_id);
    lemma_slot_in_range(q2, tile_pos, map_id, layer_id);
}

/// Clearing a layer's tiles keeps the shape of the query.
proof fn lemma_cleared_shape(q: MapQueryView, map_id: u16, layer_id: u16)
    ensures
        q.same_shape(q.layer_tiles_cleared(map_id, layer_id)),
{
    let q2 = q.layer_tiles_cleared(map_id, layer_id);
    assert(q2.chunks.dom() =~= q.chunks.dom());
}

/// A position that has a slot in a layer lies within the layer's extent in
/// tiles.
proof fn lemma_slot_within_extent(q: MapQueryView, tile_pos: TilePos, map_id: u16, layer_id: u16)
    requires
        q.wf(),
        q.tile_slot(tile_pos, map_id, layer_id) is Ok,
    ensures
        ({
            let layer = q.layers[q.found_layer(map_id, layer_id)->0];
            &&& tile_pos.0 < layer.width_in_tiles()
            &&& tile_pos.1 < layer.height_in_tiles()
        }),
{
    let le = q.found_layer(map_id, layer_id)->0;
    let layer = q.layers[le];
    assert(q.layer_fits(layer));
    let cs = layer.settings.chunk_size;
    let ms = layer.settings.map_size;
    let x = tile_pos.0 as int;
    let y = tile_pos.1 as int;
    let a = cs.0 as int;
    let b = cs.1 as int;
    let mx = ms.0 as int;
    let my = ms.1 as int;
    assert(x / a < mx && y / b < my);
    assert(x < mx * a) by (nonlinear_arith)
        requires
            a > 0,
            x >= 0,
            x / a < mx,
    ;
    assert(y < my * b) by (nonlinear_arith)
        requires
            b > 0,
            y >= 0,
            y / b < my,
    ;
}

/// After a layer's tiles are despawned (as `despawn_layer_tiles` does), no
/// position of that layer holds a tile.
pub proof fn law_layer_tiles_gone(q: MapQueryView, tile_pos: TilePos, map_id: u16, layer_id: u16)
    requires
        q.wf(),
    ensures
        q.layer_tiles_cleared(map_id, layer_id).tile_lookup(tile_pos, map_id, layer_id) is Err,
        q.layer_tiles_cleared(map_id, layer_id).wf(),
{
    let q2 = q.layer_tiles_cleared(map_id, layer_id);
    lemma_cleared_shape(q, map_id, layer_id);
    lemma_same_shape(q, q2);
    lemma_slot_in_range(q, tile_pos, map_id, layer_id);
    lemma_slot_in_range(q2, tile_pos, map_id, layer_id);
    if q.tile_slot(tile_pos, map_id, layer_id) is Ok {
        let s = q.tile_slot(tile_pos, map_id, layer_id)->Ok_0;
        lemma_slot_within_extent(q, tile_pos, map_id, layer_id);
        assert(q.slot_location(TilePos(tile_pos.0, tile_pos.1), map_id, layer_id) == Some(
            (s.chunk, s.index as int),
        ));
        assert(q.in_layer_extent(map_id, layer_id, s.chunk, s.index as int));
    }
}

/// Despawning a layer keeps the first map with each id where it was, and
/// changes only the despawned layer's entry in it.
proof fn lemma_layer_despawned_maps(q: MapQueryView, map_id: u16, layer_id: u16)
    ensures
        first_map(q.layer_despawned(map_id, layer_id).maps, map_id) == first_map(q.maps, map_id),
        first_map(q.maps, map_id) matches Some(i) ==> q.layer_despawned(map_id, layer_id).maps[i].1.layers
            == q.maps[i].1.layers.remove(layer_id),
{
    let q2 = q.layer_despawned(map_id, layer_id);
    crate::despawn_view::lemma_layer_despawned_ids(q, map_id, layer_id);
    crate::despawn_view::lemma_first_map_same_ids(q, q2, map_id);
    lemma_first_map_found(q.maps, map_id);
}

/// After a layer is despawned (as `despawn_layer` does), its map no longer
/// lists it, and every lookup in it fails as out of bounds.
pub proof fn law_layer_gone(q: MapQueryView, tile_pos: TilePos, map_id: u16, layer_id: u16)
    requires
        q.wf(),
    ensures
        q.layer_despawned(map_id, layer_id).layer_entity(map_id, layer_id) is None,
        q.layer_despawned(map_id, layer_id).found_layer(map_id, layer_id) is None,
        q.layer_despawned(map_id, layer_id).tile_lookup(tile_pos, map_id, layer_id) == Err::<
            u64,
            MapTileError,
        >(MapTileError::OutOfBounds(tile_pos)),
{
    lemma_layer_despawned_maps(q, map_id, layer_id);
}

/// Despawning a layer leaves the other layers of its map listed as they were.
pub proof fn law_other_layers_kept(q: MapQueryView, map_id: u16, layer_id: u16, other: u16)
    requires
        other != layer_id,
    ensures
        q.layer_despawned(map_id, layer_id).layer_entity(map_id, other) == q.layer_entity(
            map_id,
            other,
        ),
{
    lemma_layer_despawned_maps(q, map_id, layer_id);
}

/// Despawning layers in turn drops exactly those layers from the map's list.
pub proof fn law_layers_despawned_ids(q: MapQueryView, map_id: u16, ids: Seq<u16>)
    ensures
        q.layers_despawned(map_id, ids).map_layer_ids(map_id) == q.map_layer_ids(map_id).difference(
            ids.to_set(),
        ),
    decreases ids.len(),
{
    if ids.len() == 0 {
        assert(q.map_layer_ids(map_id).difference(ids.to_set()) =~= q.map_layer_ids(map_id));
    } else {
        let rest = ids.drop_last();
        law_layers_despawned_ids(q, map_id, rest);
        let q1 = q.layers_despawned(map_id, rest);
        lemma_layer_despawned_maps(q1, map_id, ids.last());
        assert(ids =~= rest.push(ids.last()));
        rest.lemma_push_to_set_commute(ids.last());
        assert(q.layers_despawned(map_id, ids).map_layer_ids(map_id) =~= q.map_layer_ids(
            map_id,
        ).difference(ids.to_set()));
    }
}

/// After a map is despawned (as `despawn` does, whatever order it walks its
/// layers in), the map lists no layers.
pub proof fn law_map_emptied(q: MapQueryView, map_id: u16, ids: Seq<u16>)
    requires
        ids.to_set() == q.map_layer_ids(map_id),
    ensures
        q.layers_despawned(map_id, ids).map_layer_ids(map_id) == Set::<u16>::empty(),
{
    law_layers_despawned_ids(q, map_id, ids);
    assert(q.map_layer_ids(map_id).difference(ids.to_set()) =~= Set::<u16>::empty());
}

/// Placing a tile is refused exactly where a lookup answers `OutOfBounds`,
/// and where it is not refused, the slot reports the tile that a lookup
/// finds (or `NonExistent` when it holds none).
pub proof fn law_refusals_agree(q: MapQueryView, tile_pos: TilePos, map_id: u16, layer_id: u16)
    ensures
        q.tile_slot(tile_pos, map_id, layer_id) is Err <==> q.tile_lookup(tile_pos, map_id, layer_id)
            == Err::<u64, MapTileError>(MapTileError::OutOfBounds(tile_pos)),
        q.tile_slot(tile_pos, map_id, layer_id) matches Ok(s) ==> q.tile_lookup(
            tile_pos,
            map_id,
            layer_id,
        ) == match s.existing {
            Some(t) => Ok::<u64, MapTileError>(t),
            None => Err(MapTileError::NonExistent(tile_pos)),
        },
{
}

} // verus!
