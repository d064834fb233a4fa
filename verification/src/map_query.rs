use vstd::prelude::*;
use std::collections::HashMap;

use crate::chunk::{Chunk, ChunkView};
use crate::layer::{Layer, LayerView};
use crate::despawn_view::{lemma_first_map_same_ids, lemma_layer_despawned_ids, lemma_same_map_ids_trans, lemma_clear_done, lemma_clear_next_column, lemma_clear_not_found, lemma_clear_start, lemma_clear_step};
use crate::query_view::{entries_map, first_map, layer_fits, lemma_entries_map_source, lemma_first_map, lemma_first_map_found, lemma_same_shape, lemma_slot_in_range, lemma_with_remesh_shape, lemma_with_slot_shape, MapQueryView, TileSlot};
use crate::tile::{ChunkPos, lemma_mul_u32_fits, chunk_pos_for, get_tile_index, tile_index, MapTileError, TilePos};
use crate::tilemap::{TileMap, TileMapView};

verus! {

broadcast use vstd::std_specs::hash::group_hash_axioms;

/// The maps, layers and chunks that a tile-map system sees, with the
/// queries and edits of the tile-map API over them. Entities are given by
/// their 64-bit ids.
pub struct MapQuery {
    maps: Vec<(u64, TileMap)>,
    layers: HashMap<u64, Layer>,
    chunks: HashMap<u64, Chunk>,
}

/// The views of a map of chunks.
pub open spec fn chunk_views(chunks: Map<u64, Chunk>) -> Map<u64, ChunkView> {
    chunks.map_values(|c: Chunk| c@)
}

/// The views of a map of layers.
pub open spec fn layer_views(layers: Map<u64, Layer>) -> Map<u64, LayerView> {
    layers.map_values(|l: Layer| l@)
}

/// The views of a list of maps with their entities.
pub open spec fn map_views(maps: Seq<(u64, TileMap)>) -> Seq<(u64, TileMapView)> {
    maps.map_values(|p: (u64, TileMap)| (p.0, p.1@))
}

impl View for MapQuery {
    type V = MapQueryView;

    closed spec fn view(&self) -> MapQueryView {
        MapQueryView {
            maps: map_views(self.maps@),
            layers: layer_views(self.layers@),
            chunks: chunk_views(self.chunks@),
        }
    }
}

proof fn lemma_slot_in_chunk(x: u32, y: u32, w: u32, h: u32)
    requires
        x < w,
        y < h,
    ensures
        y * w + x < w * h,
{
    assert(y * w + x < w * h) by (nonlinear_arith)
        requires
            x < w,
            y < h,
    ;
}

/// Whether a chunk holds one slot per tile, with 32-bit slot indexes.
fn chunk_is_wf(chunk: &Chunk) -> (ok: bool)
    ensures
        ok == chunk@.wf(),
{
    proof {
        lemma_mul_u32_fits(chunk.size.0, chunk.size.1);
    }
    let n: u64 = chunk.size.0 as u64 * chunk.size.1 as u64;
    assert(n == chunk.size.0 * chunk.size.1) by (nonlinear_arith)
        requires
            n == chunk.size.0 as u64 * chunk.size.1 as u64,
            chunk.size.0 <= u32::MAX,
            chunk.size.1 <= u32::MAX,
    ;
    n <= u32::MAX as u64 && chunk.tiles.len() as u64 == n
}

/// Whether a layer is well formed and fits every chunk it points at.
fn layer_fits_chunks(chunks: &HashMap<u64, Chunk>, layer: &Layer) -> (ok: bool)
    ensures
        ok == layer_fits(chunk_views(chunks@), layer@),
{
    let ghost cv = chunk_views(chunks@);
    let cs = layer.settings.chunk_size;
    let ms = layer.settings.map_size;
    if cs.0 == 0 || cs.1 == 0 {
        return false;
    }
    proof {
        lemma_mul_u32_fits(ms.0, cs.0);
        lemma_mul_u32_fits(ms.1, cs.1);
    }
    let w: u64 = ms.0 as u64 * cs.0 as u64;
    let h: u64 = ms.1 as u64 * cs.1 as u64;
    assert(w == ms.0 * cs.0 && h == ms.1 * cs.1) by (nonlinear_arith)
        requires
            w == ms.0 as u64 * cs.0 as u64,
            h == ms.1 as u64 * cs.1 as u64,
            ms.0 <= u32::MAX,
            cs.0 <= u32::MAX,
            ms.1 <= u32::MAX,
            cs.1 <= u32::MAX,
    ;
    if w > u32::MAX as u64 || h > u32::MAX as u64 {
        return false;
    }
    let n = layer.chunks.len();
    let mut i: usize = 0;
    while i < n
        invariant
            n == layer.chunks@.len(),
            i <= n,
            cv == chunk_views(chunks@),
            cs == layer.settings.chunk_size,
            forall|j: int|
                0 <= j < i && (#[trigger] layer@.chunks[j]) is Some && cv.contains_key(
                    layer@.chunks[j]->0,
                ) ==> cv[layer@.chunks[j]->0].size == cs,
        decreases n - i,
    {
        if let Some(ce) = layer.chunks[i] {
            if let Some(c) = chunks.get(&ce) {
                if c.size != cs {
                    assert(cv.contains_key(ce) && cv[ce].size != cs);
                    return false;
                }
            }
        }
        i = i + 1;
    }
    true
}

impl MapQuery {
    /// Gathers maps (in query order), layers and chunks, each with its
    /// entity. A later layer or chunk entry for the same entity replaces an
    /// earlier one. Refuses (`None`) when a chunk does not hold one slot per
    /// tile of its rectangle, when a layer has an empty chunk size or an
    /// extent that does not fit in 32 bits, or when a layer points at a chunk
    /// whose size differs from the layer's chunk size.
    #[verifier::loop_isolation(false)]
    pub fn from_parts(
        maps: Vec<(u64, TileMap)>,
        layers: Vec<(u64, Layer)>,
        chunks: Vec<(u64, Chunk)>,
    ) -> (query: Option<MapQuery>)
        ensures
            ({
                let chunk_view = chunk_views(entries_map(chunks@));
                let accepted = (forall|i: int|
                    0 <= i < chunks@.len() ==> (#[trigger] chunks@[i]).1@.wf()) && (forall|i: int|
                    0 <= i < layers@.len() ==> layer_fits(chunk_view, (#[trigger] layers@[i]).1@));
                match query {
                    Some(q) => {
                        &&& accepted
                        &&& q@.wf()
                        &&& q@.maps == map_views(maps@)
                        &&& q@.layers == layer_views(entries_map(layers@))
                        &&& q@.chunks == chunk_view
                    },
                    None => !accepted,
                }
            }),
    {
        let ghost chunks_in = chunks@;
        let ghost layers_in = layers@;
        let mut chunk_map: HashMap<u64, Chunk> = HashMap::new();
        for entry in it: chunks
            invariant
                it.seq() == chunks_in,
                chunk_map@ == entries_map(chunks_in.take(it.index())),
                forall|j: int| 0 <= j < it.index() ==> (#[trigger] chunks_in[j]).1@.wf(),
        {
            let ghost k = it.index();
            assert(chunks_in.take(k + 1).drop_last() =~= chunks_in.take(k));
            if !chunk_is_wf(&entry.1) {
                return None;
            }
            chunk_map.insert(entry.0, entry.1);
        }
        assert(chunks_in.take(chunks_in.len() as int) =~= chunks_in);
        let ghost chunk_view = chunk_views(entries_map(chunks_in));
        let mut layer_map: HashMap<u64, Layer> = HashMap::new();
        for entry in it: layers
            invariant
                it.seq() == layers_in,
                chunk_map@ == entries_map(chunks_in),
                chunk_view == chunk_views(chunk_map@),
                layer_map@ == entries_map(layers_in.take(it.index())),
                forall|j: int|
                    0 <= j < it.index() ==> layer_fits(chunk_view, (#[trigger] layers_in[j]).1@),
        {
            let ghost k = it.index();
            assert(layers_in.take(k + 1).drop_last() =~= layers_in.take(k));
            if !layer_fits_chunks(&chunk_map, &entry.1) {
                assert(layers_in[k] == entry);
                assert(!layer_fits(chunk_view, layers_in[k].1@));
                assert(!(forall|i: int|
                    0 <= i < layers_in.len() ==> layer_fits(chunk_view, (#[trigger] layers_in[i]).1@)));
                return None;
            }
            layer_map.insert(entry.0, entry.1);
        }
        assert(layers_in.take(layers_in.len() as int) =~= layers_in);
        let q = MapQuery { maps, layers: layer_map, chunks: chunk_map };
        proof {
            assert forall|c: u64| #[trigger] q@.chunks.contains_key(c) implies q@.chunks[c].wf() by {
                lemma_entries_map_source(chunks_in, c);
            }
            assert forall|l: u64| #[trigger] q@.layers.contains_key(l) implies q@.layer_fits(
                q@.layers[l],
            ) by {
                lemma_entries_map_source(layers_in, l);
            }
        }
        Some(q)
    }
}

impl MapQuery {
    /// The index of the first map with id `map_id`, in query order.
    pub fn find_map(&self, map_id: u16) -> (index: Option<usize>)
        ensures
            match index {
                Some(i) => first_map(self@.maps, map_id) == Some(i as int),
                None => first_map(self@.maps, map_id) is None,
            },
            match index {
                Some(i) => {
                    &&& i < self@.maps.len()
                    &&& self@.maps[i as int].1.id == map_id
                    &&& forall|j: int| 0 <= j < i ==> (#[trigger] self@.maps[j]).1.id != map_id
                },
                None => forall|j: int|
                    0 <= j < self@.maps.len() ==> (#[trigger] self@.maps[j]).1.id != map_id,
            },
    {
        proof {
            lemma_first_map_found(self@.maps, map_id);
        }
        let n = self.maps.len();
        let mut i: usize = 0;
        while i < n
            invariant
                n == self.maps@.len(),
                n == self@.maps.len(),
                i <= n,
                forall|j: int| 0 <= j < i ==> (#[trigger] self@.maps[j]).1.id != map_id,
            decreases n - i,
        {
            if self.maps[i].1.id == map_id {
                proof {
                    lemma_first_map(self@.maps, map_id, i as int);
                }
                return Some(i);
            }
            i = i + 1;
        }
        proof {
            lemma_first_map(self@.maps, map_id, n as int);
        }
        None
    }

    /// The entity of the layer `layer_id` of the first map with id `map_id`.
    fn layer_entity(&self, map_id: u16, layer_id: u16) -> (entity: Option<u64>)
        ensures
            entity == self@.layer_entity(map_id, layer_id),
    {
        proof {
            lemma_first_map_found(self@.maps, map_id);
        }
        match self.find_map(map_id) {
            Some(i) => {
                assert(self@.maps[i as int].1 == self.maps@[i as int].1@);
                self.maps[i].1.get_layer_entity(layer_id)
            },
            None => None,
        }
    }

    /// The layer `layer_id` of the first map with id `map_id`, with its
    /// entity; `None` when there is no such map, the map has no such layer,
    /// or the query does not see the layer's entity.
    pub fn get_layer(&self, map_id: u16, layer_id: u16) -> (found: Option<(u64, &Layer)>)
        ensures
            match found {
                Some((e, layer)) => {
                    &&& self@.found_layer(map_id, layer_id) == Some(e)
                    &&& layer@ == self@.layers[e]
                },
                None => self@.found_layer(map_id, layer_id) is None,
            },
    {
        match self.layer_entity(map_id, layer_id) {
            Some(e) => match self.layers.get(&e) {
                Some(layer) => Some((e, layer)),
                None => None,
            },
            None => None,
        }
    }

    /// `locate_tile` for a layer already found.
    fn slot_in_layer(&self, le: u64, tile_pos: TilePos, map_id: u16, layer_id: u16) -> (slot: Result<
        TileSlot,
        MapTileError,
    >)
        requires
            self@.wf(),
            self@.found_layer(map_id, layer_id) == Some(le),
        ensures
            slot == self@.tile_slot(tile_pos, map_id, layer_id),
            slot matches Ok(s) ==> {
                &&& self@.chunks.contains_key(s.chunk)
                &&& s.index < self@.chunks[s.chunk].tiles.len()
            },
    {
        let layer = self.layers.get(&le).unwrap();
        assert(self@.layers[le] == layer@);
        assert(self@.layer_fits(layer@));
        let cs = layer.settings.chunk_size;
        let chunk_pos = chunk_pos_for(tile_pos, cs);
        let ce = match layer.get_chunk(chunk_pos) {
            Some(c) => c,
            None => return Err(MapTileError::OutOfBounds(tile_pos)),
        };
        let chunk = match self.chunks.get(&ce) {
            Some(c) => c,
            None => return Err(MapTileError::OutOfBounds(tile_pos)),
        };
        assert(self@.chunks[ce] == chunk@);
        let ghost ci = layer@.chunk_index(chunk_pos);
        assert(layer@.chunks[ci] == Some(ce));
        assert(chunk.size == cs);
        assert(chunk@.wf());
        match chunk.to_chunk_pos(tile_pos) {
            Ok(local) => {
                proof {
                    lemma_slot_in_chunk(local.0, local.1, cs.0, cs.1);
                }
                let index = get_tile_index(local, cs.0);
                Ok(
                    TileSlot {
                        chunk: ce,
                        index,
                        map_id: layer.settings.map_id,
                        layer_id,
                        existing: chunk.tiles[index],
                    },
                )
            },
            Err(e) => Err(e),
        }
    }

    /// Where a tile of layer `layer_id` of map `map_id` at `tile_pos` goes:
    /// the chunk that covers the position, the slot in it, the ids a tile
    /// there is parented under, and the tile it holds now. Refuses with
    /// `OutOfBounds(tile_pos)` when the map, the layer, the chunk or the
    /// slot does not exist.
    pub fn locate_tile(&self, tile_pos: TilePos, map_id: u16, layer_id: u16) -> (slot: Result<
        TileSlot,
        MapTileError,
    >)
        requires
            self@.wf(),
        ensures
            slot == self@.tile_slot(tile_pos, map_id, layer_id),
            slot matches Ok(s) ==> {
                &&& self@.chunks.contains_key(s.chunk)
                &&& s.index < self@.chunks[s.chunk].tiles.len()
            },
    {
        match self.layer_entity(map_id, layer_id) {
            Some(le) => {
                if self.layers.contains_key(&le) {
                    self.slot_in_layer(le, tile_pos, map_id, layer_id)
                } else {
                    Err(MapTileError::OutOfBounds(tile_pos))
                }
            },
            None => Err(MapTileError::OutOfBounds(tile_pos)),
        }
    }

    /// The tile of layer `layer_id` of map `map_id` at `tile_pos`. Refuses
    /// with `OutOfBounds(tile_pos)` where `locate_tile` does, and with
    /// `NonExistent(tile_pos)` when the slot is empty.
    pub fn get_tile_entity(&self, tile_pos: TilePos, map_id: u16, layer_id: u16) -> (tile: Result<
        u64,
        MapTileError,
    >)
        requires
            self@.wf(),
        ensures
            tile == self@.tile_lookup(tile_pos, map_id, layer_id),
    {
        match self.locate_tile(tile_pos, map_id, layer_id) {
            Ok(slot) => match slot.existing {
                Some(t) => Ok(t),
                None => Err(MapTileError::NonExistent(tile_pos)),
            },
            Err(e) => Err(e),
        }
    }
}

impl MapQuery {
    /// Replaces what one chunk slot holds.
    fn write_slot(&mut self, chunk: u64, index: usize, tile: Option<u64>)
        requires
            old(self)@.wf(),
            old(self)@.chunks.contains_key(chunk),
            index < old(self)@.chunks[chunk].tiles.len(),
        ensures
            final(self)@ == old(self)@.with_slot(chunk, index as int, tile),
            final(self)@.wf(),
    {
        let ghost before = self@;
        let mut c = self.chunks.remove(&chunk).unwrap();
        assert(c@ == before.chunks[chunk]);
        c.tiles.set(index, tile);
        self.chunks.insert(chunk, c);
        proof {
            let after = before.with_slot(chunk, index as int, tile);
            assert(self@.chunks =~= after.chunks);
            assert(self@ == after);
            lemma_with_slot_shape(before, chunk, index as int, tile);
            lemma_same_shape(before, after);
        }
    }

    /// Marks one chunk for a mesh rebuild.
    fn mark_remesh(&mut self, chunk: u64)
        requires
            old(self)@.wf(),
            old(self)@.chunks.contains_key(chunk),
        ensures
            final(self)@ == old(self)@.with_remesh(chunk),
            final(self)@.wf(),
    {
        let ghost before = self@;
        let mut c = self.chunks.remove(&chunk).unwrap();
        assert(c@ == before.chunks[chunk]);
        c.needs_remesh = true;
        self.chunks.insert(chunk, c);
        proof {
            let after = before.with_remesh(chunk);
            assert(self@.chunks =~= after.chunks);
            assert(self@ == after);
            lemma_with_remesh_shape(before, chunk);
            lemma_same_shape(before, after);
        }
    }

    /// Places `tile_entity` in the slot of layer `layer_id` of map `map_id`
    /// at `tile_pos`, replacing what it held. Returns the slot as it was
    /// (its `existing` tile is the one to despawn); refuses, changing
    /// nothing, where `locate_tile` refuses.
    pub fn set_tile(&mut self, tile_pos: TilePos, tile_entity: u64, map_id: u16, layer_id: u16) -> (slot:
        Result<TileSlot, MapTileError>)
        requires
            old(self)@.wf(),
        ensures
            final(self)@.wf(),
            slot == old(self)@.tile_slot(tile_pos, map_id, layer_id),
            match slot {
                Ok(s) => final(self)@ == old(self)@.with_slot(s.chunk, s.index as int, Some(tile_entity)),
                Err(_) => final(self)@ == old(self)@,
            },
    {
        match self.locate_tile(tile_pos, map_id, layer_id) {
            Ok(slot) => {
                self.write_slot(slot.chunk, slot.index, Some(tile_entity));
                Ok(slot)
            },
            Err(e) => Err(e),
        }
    }

    /// Empties the slot of layer `layer_id` of map `map_id` at `tile_pos`.
    /// Returns the tile that it held, which is to be despawned; refuses,
    /// changing nothing, where `get_tile_entity` refuses.
    pub fn despawn_tile(&mut self, tile_pos: TilePos, map_id: u16, layer_id: u16) -> (tile: Result<
        u64,
        MapTileError,
    >)
        requires
            old(self)@.wf(),
        ensures
            final(self)@.wf(),
            tile == old(self)@.tile_lookup(tile_pos, map_id, layer_id),
            match tile {
                Ok(_) => {
                    let s = old(self)@.tile_slot(tile_pos, map_id, layer_id)->Ok_0;
                    final(self)@ == old(self)@.with_slot(s.chunk, s.index as int, None)
                },
                Err(_) => final(self)@ == old(self)@,
            },
    {
        match self.locate_tile(tile_pos, map_id, layer_id) {
            Ok(slot) => match slot.existing {
                Some(t) => {
                    self.write_slot(slot.chunk, slot.index, None);
                    Ok(t)
                },
                None => Err(MapTileError::NonExistent(tile_pos)),
            },
            Err(e) => Err(e),
        }
    }

    /// Marks the chunk `chunk_entity` for a mesh rebuild, if the query sees it.
    pub fn notify_chunk(&mut self, chunk_entity: u64)
        requires
            old(self)@.wf(),
        ensures
            final(self)@.wf(),
            if old(self)@.chunks.contains_key(chunk_entity) {
                final(self)@ == old(self)@.with_remesh(chunk_entity)
            } else {
                final(self)@ == old(self)@
            },
    {
        if self.chunks.contains_key(&chunk_entity) {
            self.mark_remesh(chunk_entity);
        }
    }

    /// Marks the chunk of layer `layer_id` of map `map_id` that covers
    /// `tile_pos` for a mesh rebuild, if there is one.
    pub fn notify_chunk_for_tile(&mut self, tile_pos: TilePos, map_id: u16, layer_id: u16)
        requires
            old(self)@.wf(),
        ensures
            final(self)@.wf(),
            match old(self)@.found_chunk(tile_pos, map_id, layer_id) {
                Some(ce) => final(self)@ == old(self)@.with_remesh(ce),
                None => final(self)@ == old(self)@,
            },
    {
        let le = match self.layer_entity(map_id, layer_id) {
            Some(e) => e,
            None => return,
        };
        let ce = match self.layers.get(&le) {
            Some(layer) => {
                assert(self@.layers[le] == layer@);
                assert(self@.layer_fits(layer@));
                let chunk_pos = chunk_pos_for(tile_pos, layer.settings.chunk_size);
                layer.get_chunk(chunk_pos)
            },
            None => None,
        };
        if let Some(ce) = ce {
            if self.chunks.contains_key(&ce) {
                self.mark_remesh(ce);
            }
        }
    }
}

impl MapQuery {
    /// Empties every slot of layer `layer_id` of map `map_id`, visiting the
    /// layer's extent in tiles column by column. Returns the tiles that the
    /// slots held, in that order, which are to be despawned. Does nothing
    /// when the layer is not found.
    pub fn despawn_layer_tiles(&mut self, map_id: u16, layer_id: u16) -> (despawned: Vec<u64>)
        requires
            old(self)@.wf(),
        ensures
            final(self)@.wf(),
            final(self)@ == old(self)@.layer_tiles_cleared(map_id, layer_id),
            despawned@ == old(self)@.layer_tiles(map_id, layer_id),
    {
        let ghost q0 = self@;
        let mut despawned: Vec<u64> = Vec::new();
        let le = match self.layer_entity(map_id, layer_id) {
            Some(e) => e,
            None => {
                proof {
                    lemma_clear_not_found(q0, map_id, layer_id);
                }
                return despawned;
            },
        };
        let (w, h) = match self.layers.get(&le) {
            Some(layer) => {
                assert(self@.layers[le] == layer@);
                assert(self@.layer_fits(layer@));
                layer.get_layer_size_in_tiles()
            },
            None => {
                proof {
                    lemma_clear_not_found(q0, map_id, layer_id);
                }
                return despawned;
            },
        };
        proof {
            lemma_clear_start(q0, map_id, layer_id, h as nat);
        }
        let mut x: u32 = 0;
        while x < w
            invariant
                q0.wf(),
                q0.found_layer(map_id, layer_id) == Some(le),
                w == q0.layers[le].width_in_tiles(),
                h == q0.layers[le].height_in_tiles(),
                x <= w,
                self@.cleared_through(q0, map_id, layer_id, h as nat, x as nat, 0),
                despawned@ == q0.tile_grid(map_id, layer_id, x as nat, h as nat),
            decreases w - x,
        {
            let mut y: u32 = 0;
            while y < h
                invariant
                    q0.wf(),
                    q0.found_layer(map_id, layer_id) == Some(le),
                    h == q0.layers[le].height_in_tiles(),
                    x < w,
                    y <= h,
                    self@.cleared_through(q0, map_id, layer_id, h as nat, x as nat, y as nat),
                    despawned@ == q0.tile_grid(map_id, layer_id, x as nat, h as nat) + q0.tile_column(
                        map_id,
                        layer_id,
                        x,
                        y as nat,
                    ),
                decreases h - y,
            {
                proof {
                    lemma_clear_step(q0, self@, map_id, layer_id, h as nat, x, y);
                    lemma_same_shape(q0, self@);
                }
                match self.slot_in_layer(le, TilePos(x, y), map_id, layer_id) {
                    Ok(slot) => {
                        if let Some(t) = slot.existing {
                            despawned.push(t);
                            self.write_slot(slot.chunk, slot.index, None);
                        }
                    },
                    Err(_) => {},
                }
                assert(despawned@ =~= q0.tile_grid(map_id, layer_id, x as nat, h as nat) + q0.tile_column(
                    map_id,
                    layer_id,
                    x,
                    (y + 1) as nat,
                ));
                y = y + 1;
            }
            proof {
                lemma_clear_next_column(q0, self@, map_id, layer_id, h as nat, x);
            }
            assert(despawned@ =~= q0.tile_grid(map_id, layer_id, (x + 1) as nat, h as nat));
            x = x + 1;
        }
        proof {
            lemma_clear_done(q0, self@, map_id, layer_id);
        }
        despawned
    }
}

impl MapQuery {
    /// Despawns a layer: empties its tiles (as `despawn_layer_tiles`); then,
    /// when the first map with id `map_id` lists the layer, lists the
    /// layer's chunks (when the query sees the layer) and the layer entity
    /// for despawning, and drops the layer from the map, listing its entity
    /// once more. Returns the entities to despawn, in that order.
    pub fn despawn_layer(&mut self, map_id: u16, layer_id: u16) -> (despawned: Vec<u64>)
        requires
            old(self)@.wf(),
        ensures
            final(self)@.wf(),
            final(self)@ == old(self)@.layer_despawned(map_id, layer_id),
            despawned@ == old(self)@.layer_despawn_list(map_id, layer_id),
    {
        let ghost q0 = self@;
        let mut despawned = self.despawn_layer_tiles(map_id, layer_id);
        let ghost q1 = self@;
        let ghost tiles = despawned@;
        proof {
            lemma_first_map_found(q1.maps, map_id);
        }
        match self.find_map(map_id) {
            Some(i) => {
                assert(self@.maps[i as int].1 == self.maps@[i as int].1@);
                if let Some(le) = self.maps[i].1.get_layer_entity(layer_id) {
                    if let Some(layer) = self.layers.get(&le) {
                        assert(self@.layers[le] == layer@);
                        assert(self@.layer_fits(layer@));
                        let w = layer.settings.map_size.0;
                        let h = layer.settings.map_size.1;
                        let mut x: u32 = 0;
                        while x < w
                            invariant
                                w == layer@.settings.map_size.0,
                                h == layer@.settings.map_size.1,
                                x <= w,
                                despawned@ == tiles + layer@.chunk_grid(x as nat, h as nat),
                            decreases w - x,
                        {
                            let mut y: u32 = 0;
                            while y < h
                                invariant
                                    h == layer@.settings.map_size.1,
                                    x < w,
                                    y <= h,
                                    despawned@ == tiles + layer@.chunk_grid(x as nat, h as nat)
                                        + layer@.chunk_column(x, y as nat),
                                decreases h - y,
                            {
                                if let Some(ce) = layer.get_chunk(ChunkPos(x, y)) {
                                    despawned.push(ce);
                                }
                                assert(despawned@ =~= tiles + layer@.chunk_grid(x as nat, h as nat)
                                    + layer@.chunk_column(x, (y + 1) as nat));
                                y = y + 1;
                            }
                            assert(despawned@ =~= tiles + layer@.chunk_grid((x + 1) as nat, h as nat));
                            x = x + 1;
                        }
                    }
                    despawned.push(le);
                }
                let ghost before_remove = self@;
                let mut entry = self.maps.remove(i);
                if let Some(e) = entry.1.remove_layer(layer_id) {
                    despawned.push(e);
                }
                self.maps.insert(i, entry);
                proof {
                    assert(self@.maps =~= before_remove.maps.update(
                        i as int,
                        (
                            before_remove.maps[i as int].0,
                            TileMapView {
                                layers: before_remove.maps[i as int].1.layers.remove(layer_id),
                                ..before_remove.maps[i as int].1
                            },
                        ),
                    ));
                }
            },
            None => {},
        }
        assert(despawned@ =~= q0.layer_despawn_list(map_id, layer_id));
        despawned
    }
}

impl MapQuery {
    /// Despawns the first map with id `map_id`: each of its layers in turn
    /// (as `despawn_layer`, in the order the map walks its layers), then the
    /// map entity itself. Returns the entities to despawn, in that order.
    /// The walk order is the hash map's: the contract holds for the order
    /// that the walk took, whichever it was.
    pub fn despawn(&mut self, map_id: u16) -> (despawned: Vec<u64>)
        requires
            old(self)@.wf(),
        ensures
            final(self)@.wf(),
            exists|ids: Seq<u16>|
                {
                    &&& ids.no_duplicates()
                    &&& ids.to_set() == old(self)@.map_layer_ids(map_id)
                    &&& final(self)@ == old(self)@.layers_despawned(map_id, ids)
                    &&& despawned@ == #[trigger] old(self)@.layers_despawn_list(map_id, ids)
                        + old(self)@.map_entity_list(map_id)
                },
    {
        let ghost q0 = self@;
        proof {
            lemma_first_map_found(q0.maps, map_id);
        }
        let ids: Vec<u16> = match self.find_map(map_id) {
            Some(i) => {
                assert(self@.maps[i as int].1 == self.maps@[i as int].1@);
                self.maps[i].1.layer_ids()
            },
            None => Vec::new(),
        };
        assert(ids@.to_set() =~= q0.map_layer_ids(map_id));
        let mut despawned: Vec<u64> = Vec::new();
        let n = ids.len();
        let mut k: usize = 0;
        while k < n
            invariant
                n == ids@.len(),
                k <= n,
                self@.wf(),
                self@ == q0.layers_despawned(map_id, ids@.take(k as int)),
                q0.same_map_ids(self@),
                despawned@ == q0.layers_despawn_list(map_id, ids@.take(k as int)),
            decreases n - k,
        {
            assert(ids@.take(k + 1).drop_last() =~= ids@.take(k as int));
            let ghost before = self@;
            let more = self.despawn_layer(map_id, ids[k]);
            proof {
                lemma_layer_despawned_ids(before, map_id, ids@[k as int]);
                lemma_same_map_ids_trans(q0, before, self@);
            }
            let mut j: usize = 0;
            let ghost prefix = despawned@;
            while j < more.len()
                invariant
                    j <= more@.len(),
                    despawned@ == prefix + more@.take(j as int),
                decreases more@.len() - j,
            {
                despawned.push(more[j]);
                assert(despawned@ =~= prefix + more@.take(j + 1));
                j = j + 1;
            }
            assert(more@.take(more@.len() as int) =~= more@);
            k = k + 1;
        }
        assert(ids@.take(n as int) =~= ids@);
        proof {
            lemma_first_map_same_ids(q0, self@, map_id);
            lemma_first_map_found(self@.maps, map_id);
        }
        if let Some(i) = self.find_map(map_id) {
            despawned.push(self.maps[i].0);
        }
        assert(despawned@ =~= q0.layers_despawn_list(map_id, ids@) + q0.map_entity_list(map_id));
        despawned
    }
}

impl MapQuery {
    /// The chunk with entity `entity`, if the query sees it.
    pub fn chunk(&self, entity: u64) -> (chunk: Option<&Chunk>)
        ensures
            match chunk {
                Some(c) => self@.chunks.contains_key(entity) && c@ == self@.chunks[entity],
                None => !self@.chunks.contains_key(entity),
            },
    {
        self.chunks.get(&entity)
    }

    /// Hands back the maps, layers and chunks, as edited.
    pub fn into_parts(self) -> (parts: (Vec<(u64, TileMap)>, HashMap<u64, Layer>, HashMap<u64, Chunk>))
        ensures
            map_views(parts.0@) == self@.maps,
            layer_views(parts.1@) == self@.layers,
            chunk_views(parts.2@) == self@.chunks,
    {
        (self.maps, self.layers, self.chunks)
    }
}

} // verus!
