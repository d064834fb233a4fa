use vstd::prelude::*;

use crate::chunk::ChunkView;
use crate::layer::LayerView;
use crate::tile::{chunk_pos_of, tile_index, MapTileError, TilePos};
use crate::tilemap::TileMapView;

verus! {

/// Where a tile of a layer goes: the chunk entity, the slot index within the
/// chunk, the ids that a tile placed there is parented under, and the tile
/// that the slot holds now.
#[derive(Clone, Copy, Debug, PartialEq, Eq, Structural)]
pub struct TileSlot {
    pub chunk: u64,
    pub index: usize,
    pub map_id: u16,
    pub layer_id: u16,
    pub existing: Option<u64>,
}

/// What a map query sees, as plain values: the maps in query order, each
/// with its entity, and the layers and chunks by entity.
pub struct MapQueryView {
    pub maps: Seq<(u64, TileMapView)>,
    pub layers: Map<u64, LayerView>,
    pub chunks: Map<u64, ChunkView>,
}

/// The index of the first map with the given id.
pub open spec fn first_map(maps: Seq<(u64, TileMapView)>, map_id: u16) -> Option<int>
    decreases maps.len(),
{
    if maps.len() == 0 {
        None
    } else if maps[0].1.id == map_id {
        Some(0)
    } else {
        match first_map(maps.drop_first(), map_id) {
            Some(i) => Some(i + 1),
            None => None,
        }
    }
}

/// `i` is where a scan for `map_id` from the front stops: the first match,
/// or the end.
pub proof fn lemma_first_map(maps: Seq<(u64, TileMapView)>, map_id: u16, i: int)
    requires
        0 <= i <= maps.len(),
        forall|j: int| 0 <= j < i ==> (#[trigger] maps[j]).1.id != map_id,
        i < maps.len() ==> maps[i].1.id == map_id,
    ensures
        first_map(maps, map_id) == (if i < maps.len() { Some(i) } else { None::<int> }),
    decreases i,
{
    if i > 0 {
        let rest = maps.drop_first();
        assert forall|j: int| 0 <= j < i - 1 implies (#[trigger] rest[j]).1.id != map_id by {
            assert(rest[j] == maps[j + 1]);
        }
        if i < maps.len() {
            assert(rest[i - 1] == maps[i]);
        }
        lemma_first_map(rest, map_id, i - 1);
        assert(maps[0].1.id != map_id);
    }
}

/// The first match is a valid index whose map has the id, and no earlier
/// map has it.
pub proof fn lemma_first_map_found(maps: Seq<(u64, TileMapView)>, map_id: u16)
    ensures
        first_map(maps, map_id) matches Some(i) ==> {
            &&& 0 <= i < maps.len()
            &&& maps[i].1.id == map_id
            &&& forall|j: int| 0 <= j < i ==> (#[trigger] maps[j]).1.id != map_id
        },
        first_map(maps, map_id) is None ==> forall|j: int|
            0 <= j < maps.len() ==> (#[trigger] maps[j]).1.id != map_id,
    decreases maps.len(),
{
    if maps.len() > 0 && maps[0].1.id != map_id {
        let rest = maps.drop_first();
        lemma_first_map_found(rest, map_id);
        assert forall|j: int| 1 <= j < maps.len() implies maps[j] == #[trigger] rest[j - 1] by {}
        if let Some(i) = first_map(rest, map_id) {
            assert forall|j: int| 0 <= j < i + 1 implies (#[trigger] maps[j]).1.id != map_id by {
                if j > 0 {
                    assert(maps[j] == rest[j - 1]);
                }
            }
        } else {
            assert forall|j: int| 0 <= j < maps.len() implies (#[trigger] maps[j]).1.id != map_id by {
                if j > 0 {
                    assert(maps[j] == rest[j - 1]);
                }
            }
        }
    }
}

/// The map that a list of entries builds when each entry is inserted in
/// turn: a later entry for the same entity replaces an earlier one.
pub open spec fn entries_map<V>(entries: Seq<(u64, V)>) -> Map<u64, V>
    decreases entries.len(),
{
    if entries.len() == 0 {
        Map::empty()
    } else {
        entries_map(entries.drop_last()).insert(entries.last().0, entries.last().1)
    }
}

/// Every key of an entry map comes from an entry that holds its value.
pub proof fn lemma_entries_map_source<V>(entries: Seq<(u64, V)>, k: u64)
    requires
        entries_map(entries).contains_key(k),
    ensures
        exists|i: int|
            0 <= i < entries.len() && (#[trigger] entries[i]).0 == k && entries[i].1
                == entries_map(entries)[k],
    decreases entries.len(),
{
    let last = entries.len() - 1;
    if entries[last].0 != k {
        let rest = entries.drop_last();
        lemma_entries_map_source(rest, k);
        let i = choose|i: int|
            0 <= i < rest.len() && (#[trigger] rest[i]).0 == k && rest[i].1 == entries_map(rest)[k];
        assert(entries[i] == rest[i]);
    } else {
        assert(entries[last].0 == k);
    }
}

/// A layer is well formed, and every chunk that it points at, and that the
/// chunk map holds, has the layer's chunk size.
pub open spec fn layer_fits(chunks: Map<u64, ChunkView>, layer: LayerView) -> bool {
    &&& layer.wf()
    &&& forall|i: int|
        0 <= i < layer.chunks.len() && (#[trigger] layer.chunks[i]) is Some && chunks.contains_key(
            layer.chunks[i]->0,
        ) ==> chunks[layer.chunks[i]->0].size == layer.settings.chunk_size
}

impl MapQueryView {
    pub open spec fn layer_fits(self, layer: LayerView) -> bool {
        layer_fits(self.chunks, layer)
    }

    /// Every chunk is well formed, and every layer fits the chunks it points at.
    pub open spec fn wf(self) -> bool {
        &&& forall|c: u64| #[trigger] self.chunks.contains_key(c) ==> self.chunks[c].wf()
        &&& forall|l: u64| #[trigger] self.layers.contains_key(l) ==> self.layer_fits(self.layers[l])
    }

    /// The entity of the layer `layer_id` of the first map with id `map_id`.
    pub open spec fn layer_entity(self, map_id: u16, layer_id: u16) -> Option<u64> {
        match first_map(self.maps, map_id) {
            Some(i) => self.maps[i].1.layer_entity(layer_id),
            None => None,
        }
    }

    /// The entity of that layer, when the query also sees the layer itself.
    pub open spec fn found_layer(self, map_id: u16, layer_id: u16) -> Option<u64> {
        match self.layer_entity(map_id, layer_id) {
            Some(e) => if self.layers.contains_key(e) {
                Some(e)
            } else {
                None
            },
            None => None,
        }
    }

    /// The chunk entity of that layer that holds `tile_pos`, when the query
    /// sees the chunk.
    pub open spec fn found_chunk(self, tile_pos: TilePos, map_id: u16, layer_id: u16) -> Option<u64> {
        match self.found_layer(map_id, layer_id) {
            Some(le) => {
                let layer = self.layers[le];
                match layer.chunk_at(chunk_pos_of(tile_pos, layer.settings.chunk_size)) {
                    Some(ce) => if self.chunks.contains_key(ce) {
                        Some(ce)
                    } else {
                        None
                    },
                    None => None,
                }
            },
            None => None,
        }
    }

    /// Where a tile of that layer at `tile_pos` goes, or why nowhere.
    pub open spec fn tile_slot(self, tile_pos: TilePos, map_id: u16, layer_id: u16) -> Result<
        TileSlot,
        MapTileError,
    > {
        match self.found_chunk(tile_pos, map_id, layer_id) {
            Some(ce) => {
                let layer = self.layers[self.found_layer(map_id, layer_id)->0];
                let chunk = self.chunks[ce];
                match chunk.local_pos(tile_pos) {
                    Some(local) => {
                        let index = tile_index(local, layer.settings.chunk_size.0);
                        Ok(
                            TileSlot {
                                chunk: ce,
                                index: index as usize,
                                map_id: layer.settings.map_id,
                                layer_id,
                                existing: chunk.tiles[index],
                            },
                        )
                    },
                    None => Err(MapTileError::OutOfBounds(tile_pos)),
                }
            },
            None => Err(MapTileError::OutOfBounds(tile_pos)),
        }
    }

    /// The tile of that layer at `tile_pos`, or why there is none.
    pub open spec fn tile_lookup(self, tile_pos: TilePos, map_id: u16, layer_id: u16) -> Result<
        u64,
        MapTileError,
    > {
        match self.tile_slot(tile_pos, map_id, layer_id) {
            Ok(slot) => match slot.existing {
                Some(tile) => Ok(tile),
                None => Err(MapTileError::NonExistent(tile_pos)),
            },
            Err(e) => Err(e),
        }
    }

    /// The same query with one chunk slot replaced.
    pub open spec fn with_slot(self, chunk: u64, index: int, tile: Option<u64>) -> MapQueryView {
        MapQueryView {
            chunks: self.chunks.insert(chunk, self.chunks[chunk].with_slot(index, tile)),
            ..self
        }
    }

    /// The same query with one chunk marked for a mesh rebuild.
    pub open spec fn with_remesh(self, chunk: u64) -> MapQueryView {
        MapQueryView { chunks: self.chunks.insert(chunk, self.chunks[chunk].remeshed()), ..self }
    }
}

impl MapQueryView {
    /// The two queries differ at most in what the chunk slots hold and in the
    /// chunks' remesh flags.
    pub open spec fn same_shape(self, other: MapQueryView) -> bool {
        &&& self.maps == other.maps
        &&& self.layers == other.layers
        &&& self.chunks.dom() == other.chunks.dom()
        &&& forall|c: u64| #[trigger]
            self.chunks.contains_key(c) ==> {
                &&& other.chunks[c].position == self.chunks[c].position
                &&& other.chunks[c].size == self.chunks[c].size
                &&& other.chunks[c].tiles.len() == self.chunks[c].tiles.len()
            }
    }

    /// The slot index that `tile_slot` names, as an integer.
    pub open spec fn slot_location(self, tile_pos: TilePos, map_id: u16, layer_id: u16) -> Option<
        (u64, int),
    > {
        match self.tile_slot(tile_pos, map_id, layer_id) {
            Ok(s) => Some((s.chunk, s.index as int)),
            Err(_) => None,
        }
    }
}

/// The slot that `tile_slot` names exists, and `existing` is what it holds.
pub proof fn lemma_slot_in_range(q: MapQueryView, tile_pos: TilePos, map_id: u16, layer_id: u16)
    requires
        q.wf(),
    ensures
        q.tile_slot(tile_pos, map_id, layer_id) matches Ok(s) ==> {
            &&& q.chunks.contains_key(s.chunk)
            &&& s.index < q.chunks[s.chunk].tiles.len()
            &&& s.existing == q.chunks[s.chunk].tiles[s.index as int]
            &&& q.found_chunk(tile_pos, map_id, layer_id) == Some(s.chunk)
        },
{
    if let Some(ce) = q.found_chunk(tile_pos, map_id, layer_id) {
        let le = q.found_layer(map_id, layer_id)->0;
        let layer = q.layers[le];
        let cs = layer.settings.chunk_size;
        let cp = chunk_pos_of(tile_pos, cs);
        assert(q.layer_fits(layer));
        let ci = layer.chunk_index(cp);
        assert(layer.chunks[ci] == Some(ce));
        let chunk = q.chunks[ce];
        assert(chunk.size == cs);
        assert(chunk.wf());
        if let Some(local) = chunk.local_pos(tile_pos) {
            let x = local.0;
            let y = local.1;
            assert(y * cs.0 + x < cs.0 * cs.1) by (nonlinear_arith)
                requires
                    x < cs.0,
                    y < cs.1,
            ;
        }
    }
}

/// Queries of the same shape are well formed together and find the same
/// slots; only what the slots hold can differ.
pub proof fn lemma_same_shape(q1: MapQueryView, q2: MapQueryView)
    requires
        q1.same_shape(q2),
    ensures
        q1.wf() ==> q2.wf(),
        forall|tile_pos: TilePos, map_id: u16, layer_id: u16|
            #![trigger q2.tile_slot(tile_pos, map_id, layer_id)]
            {
                &&& q2.found_layer(map_id, layer_id) == q1.found_layer(map_id, layer_id)
                &&& q2.found_chunk(tile_pos, map_id, layer_id) == q1.found_chunk(
                    tile_pos,
                    map_id,
                    layer_id,
                )
                &&& q2.slot_location(tile_pos, map_id, layer_id) == q1.slot_location(
                    tile_pos,
                    map_id,
                    layer_id,
                )
                &&& q1.tile_slot(tile_pos, map_id, layer_id) is Err ==> q2.tile_slot(
                    tile_pos,
                    map_id,
                    layer_id,
                ) == q1.tile_slot(tile_pos, map_id, layer_id)
                &&& q2.tile_slot(tile_pos, map_id, layer_id) matches Ok(s2) ==> q1.tile_slot(
                    tile_pos,
                    map_id,
                    layer_id,
                ) == Ok::<TileSlot, MapTileError>(
                    TileSlot {
                        existing: q1.tile_slot(tile_pos, map_id, layer_id)->Ok_0.existing,
                        ..s2
                    },
                )
            },
{
    if q1.wf() {
        assert forall|c: u64| #[trigger] q2.chunks.contains_key(c) implies q2.chunks[c].wf() by {
            assert(q1.chunks.contains_key(c));
        }
        assert forall|l: u64| #[trigger] q2.layers.contains_key(l) implies q2.layer_fits(
            q2.layers[l],
        ) by {
            let layer = q2.layers[l];
            assert(q1.layer_fits(layer));
            assert forall|i: int|
                0 <= i < layer.chunks.len() && (#[trigger] layer.chunks[i]) is Some
                    && q2.chunks.contains_key(
                    layer.chunks[i]->0,
                ) implies q2.chunks[layer.chunks[i]->0].size == layer.settings.chunk_size by {
                assert(q1.chunks.contains_key(layer.chunks[i]->0));
            }
        }
    }
    assert forall|tile_pos: TilePos, map_id: u16, layer_id: u16|
        #![trigger q2.tile_slot(tile_pos, map_id, layer_id)]
        {
            &&& q2.found_layer(map_id, layer_id) == q1.found_layer(map_id, layer_id)
            &&& q2.found_chunk(tile_pos, map_id, layer_id) == q1.found_chunk(
                tile_pos,
                map_id,
                layer_id,
            )
            &&& q2.slot_location(tile_pos, map_id, layer_id) == q1.slot_location(
                tile_pos,
                map_id,
                layer_id,
            )
            &&& q1.tile_slot(tile_pos, map_id, layer_id) is Err ==> q2.tile_slot(
                tile_pos,
                map_id,
                layer_id,
            ) == q1.tile_slot(tile_pos, map_id, layer_id)
            &&& q2.tile_slot(tile_pos, map_id, layer_id) matches Ok(s2) ==> q1.tile_slot(
                tile_pos,
                map_id,
                layer_id,
            ) == Ok::<TileSlot, MapTileError>(
                TileSlot {
                    existing: q1.tile_slot(tile_pos, map_id, layer_id)->Ok_0.existing,
                    ..s2
                },
            )
        } by {
        if let Some(ce) = q1.found_chunk(tile_pos, map_id, layer_id) {
            assert(q1.chunks.contains_key(ce));
        }
    }
}

/// Replacing a slot that exists keeps the shape.
pub proof fn lemma_with_slot_shape(q: MapQueryView, chunk: u64, index: int, tile: Option<u64>)
    requires
        q.chunks.contains_key(chunk),
        0 <= index < q.chunks[chunk].tiles.len(),
    ensures
        q.same_shape(q.with_slot(chunk, index, tile)),
{
    let q2 = q.with_slot(chunk, index, tile);
    assert(q2.chunks.dom() =~= q.chunks.dom());
}

/// Marking a chunk for a remesh keeps the shape.
pub proof fn lemma_with_remesh_shape(q: MapQueryView, chunk: u64)
    requires
        q.chunks.contains_key(chunk),
    ensures
        q.same_shape(q.with_remesh(chunk)),
{
    let q2 = q.with_remesh(chunk);
    assert(q2.chunks.dom() =~= q.chunks.dom());
}

} // verus!
