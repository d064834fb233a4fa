use vstd::prelude::*;

use crate::tile::{ChunkPos, ChunkSize, MapSize};

verus! {

/// The settings of a layer that the queries read.
#[derive(Clone, Copy, Debug, PartialEq, Eq, Structural)]
pub struct LayerSettings {
    /// The layer's size, in chunks.
    pub map_size: MapSize,
    /// The size of each of its chunks, in tiles.
    pub chunk_size: ChunkSize,
    /// The id of the layer within its map.
    pub layer_id: u16,
    /// The id of the map the layer belongs to.
    pub map_id: u16,
}

/// A layer: its settings, and the chunk entity (if any) at each chunk
/// position, row by row.
pub struct Layer {
    pub settings: LayerSettings,
    pub chunks: Vec<Option<u64>>,
}

/// What a layer holds, as plain values.
pub struct LayerView {
    pub settings: LayerSettings,
    pub chunks: Seq<Option<u64>>,
}

impl View for Layer {
    type V = LayerView;

    open spec fn view(&self) -> LayerView {
        LayerView { settings: self.settings, chunks: self.chunks@ }
    }
}

impl LayerView {
    /// Chunks have a size, and the layer's extent in tiles fits in 32 bits
    /// on each axis.
    pub open spec fn wf(self) -> bool {
        &&& self.settings.chunk_size.0 > 0
        &&& self.settings.chunk_size.1 > 0
        &&& self.settings.map_size.0 * self.settings.chunk_size.0 <= u32::MAX
        &&& self.settings.map_size.1 * self.settings.chunk_size.1 <= u32::MAX
    }

    /// Row-major index of a chunk position.
    pub open spec fn chunk_index(self, chunk_pos: ChunkPos) -> int {
        chunk_pos.1 * self.settings.map_size.0 + chunk_pos.0
    }

    /// The chunk entity at a chunk position, if the position lies in the
    /// layer and a chunk stands there.
    pub open spec fn chunk_at(self, chunk_pos: ChunkPos) -> Option<u64> {
        let index = self.chunk_index(chunk_pos);
        if chunk_pos.0 < self.settings.map_size.0 && chunk_pos.1 < self.settings.map_size.1
            && index < self.chunks.len() {
            self.chunks[index]
        } else {
            None
        }
    }

    /// The layer's width in tiles.
    pub open spec fn width_in_tiles(self) -> int {
        self.settings.map_size.0 * self.settings.chunk_size.0
    }

    /// The layer's height in tiles.
    pub open spec fn height_in_tiles(self) -> int {
        self.settings.map_size.1 * self.settings.chunk_size.1
    }
}

impl Layer {
    /// The chunk entity at a chunk position, if any.
    pub fn get_chunk(&self, chunk_pos: ChunkPos) -> (chunk: Option<u64>)
        ensures
            chunk == self@.chunk_at(chunk_pos),
            chunk == (if chunk_pos.0 < self.settings.map_size.0 && chunk_pos.1
                < self.settings.map_size.1 && chunk_pos.1 * self.settings.map_size.0 + chunk_pos.0
                < self.chunks@.len() {
                self.chunks@[chunk_pos.1 * self.settings.map_size.0 + chunk_pos.0]
            } else {
                None
            }),
    {
        if chunk_pos.0 < self.settings.map_size.0 && chunk_pos.1 < self.settings.map_size.1 {
            let w = self.settings.map_size.0;
            assert(chunk_pos.1 * w + chunk_pos.0 <= u64::MAX) by (nonlinear_arith)
                requires
                    chunk_pos.1 <= u32::MAX,
                    w <= u32::MAX,
                    chunk_pos.0 <= u32::MAX,
            ;
            let index: u64 = chunk_pos.1 as u64 * w as u64 + chunk_pos.0 as u64;
            if index < self.chunks.len() as u64 {
                self.chunks[index as usize]
            } else {
                None
            }
        } else {
            None
        }
    }

    /// The layer's size in tiles: (width, height).
    pub fn get_layer_size_in_tiles(&self) -> (size: (u32, u32))
        requires
            self@.wf(),
        ensures
            size.0 == self@.width_in_tiles(),
            size.1 == self@.height_in_tiles(),
            size.0 == self.settings.map_size.0 * self.settings.chunk_size.0,
            size.1 == self.settings.map_size.1 * self.settings.chunk_size.1,
    {
        (
            self.settings.map_size.0 * self.settings.chunk_size.0,
            self.settings.map_size.1 * self.settings.chunk_size.1,
        )
    }
}

} // verus!
