use vstd::prelude::*;

use crate::tile::{tile_index, ChunkPos, ChunkSize, MapTileError, TilePos};

verus! {

/// One chunk of a layer: a rectangle of tile slots, each empty or holding the
/// id of a tile entity.
pub struct Chunk {
    /// Where the chunk stands in its layer, in chunks.
    pub position: ChunkPos,
    /// The chunk's size, in tiles.
    pub size: ChunkSize,
    /// The tile slots, row by row.
    pub tiles: Vec<Option<u64>>,
    /// Set when the chunk's mesh must be rebuilt.
    pub needs_remesh: bool,
}

/// What a chunk holds, as plain values.
pub struct ChunkView {
    pub position: ChunkPos,
    pub size: ChunkSize,
    pub tiles: Seq<Option<u64>>,
    pub needs_remesh: bool,
}

impl View for Chunk {
    type V = ChunkView;

    open spec fn view(&self) -> ChunkView {
        ChunkView {
            position: self.position,
            size: self.size,
            tiles: self.tiles@,
            needs_remesh: self.needs_remesh,
        }
    }
}

impl ChunkView {
    /// The chunk holds one slot per tile of its rectangle, and every slot
    /// index fits in 32 bits.
    pub open spec fn wf(self) -> bool {
        &&& self.tiles.len() == self.size.0 * self.size.1
        &&& self.size.0 * self.size.1 <= u32::MAX
    }

    /// The global position of the chunk's first tile, per axis.
    pub open spec fn origin_x(self) -> int {
        self.position.0 * self.size.0
    }

    pub open spec fn origin_y(self) -> int {
        self.position.1 * self.size.1
    }

    /// The chunk-local position of a global tile position, when the chunk
    /// covers it.
    pub open spec fn local_pos(self, tile_pos: TilePos) -> Option<TilePos> {
        if self.origin_x() <= tile_pos.0 < self.origin_x() + self.size.0 && self.origin_y()
            <= tile_pos.1 < self.origin_y() + self.size.1 {
            Some(TilePos((tile_pos.0 - self.origin_x()) as u32, (tile_pos.1 - self.origin_y()) as u32))
        } else {
            None
        }
    }

    /// The tile in the slot of a chunk-local position.
    pub open spec fn tile_at(self, local: TilePos) -> Option<u64> {
        let index = tile_index(local, self.size.0);
        if local.0 < self.size.0 && local.1 < self.size.1 && index < self.tiles.len() {
            self.tiles[index]
        } else {
            None
        }
    }

    /// The same chunk with one slot replaced.
    pub open spec fn with_slot(self, index: int, tile: Option<u64>) -> ChunkView {
        ChunkView { tiles: self.tiles.update(index, tile), ..self }
    }

    /// The same chunk, marked for a mesh rebuild.
    pub open spec fn remeshed(self) -> ChunkView {
        ChunkView { needs_remesh: true, ..self }
    }
}

proof fn lemma_origin_bounds(p: u32, s: u32)
    ensures
        0 <= p * s,
        p * s + s <= u64::MAX,
{
    assert(0 <= p * s) by (nonlinear_arith);
    assert(p * s <= (u32::MAX as int) * (u32::MAX as int)) by (nonlinear_arith)
        requires
            p <= u32::MAX,
            s <= u32::MAX,
    ;
}

impl Chunk {
    /// Creates an empty chunk at `position` with `size.0 * size.1` empty slots.
    pub fn new(position: ChunkPos, size: ChunkSize) -> (chunk: Chunk)
        requires
            size.0 * size.1 <= u32::MAX,
        ensures
            chunk@.wf(),
            chunk@.position == position,
            chunk@.size == size,
            chunk@.tiles == Seq::new((size.0 * size.1) as nat, |i: int| None::<u64>),
            !chunk@.needs_remesh,
    {
        let n: u32 = size.0 * size.1;
        let mut tiles: Vec<Option<u64>> = Vec::new();
        let mut i: u32 = 0;
        while i < n
            invariant
                i <= n,
                tiles@ == Seq::new(i as nat, |k: int| None::<u64>),
            decreases n - i,
        {
            tiles.push(None);
            i = i + 1;
        }
        Chunk { position, size, tiles, needs_remesh: false }
    }

    /// Converts a global tile position into the chunk-local one; refuses a
    /// position that the chunk does not cover.
    pub fn to_chunk_pos(&self, tile_pos: TilePos) -> (result: Result<TilePos, MapTileError>)
        ensures
            result == (match self@.local_pos(tile_pos) {
                Some(local) => Ok::<TilePos, MapTileError>(local),
                None => Err(MapTileError::OutOfBounds(tile_pos)),
            }),
            result == (if self.position.0 * self.size.0 <= tile_pos.0 < self.position.0 * self.size.0
                + self.size.0 && self.position.1 * self.size.1 <= tile_pos.1 < self.position.1
                * self.size.1 + self.size.1 {
                Ok::<TilePos, MapTileError>(
                    TilePos(
                        (tile_pos.0 - self.position.0 * self.size.0) as u32,
                        (tile_pos.1 - self.position.1 * self.size.1) as u32,
                    ),
                )
            } else {
                Err(MapTileError::OutOfBounds(tile_pos))
            }),
    {
        proof {
            lemma_origin_bounds(self.position.0, self.size.0);
            lemma_origin_bounds(self.position.1, self.size.1);
        }
        let ox: u64 = self.position.0 as u64 * self.size.0 as u64;
        let oy: u64 = self.position.1 as u64 * self.size.1 as u64;
        let x = tile_pos.0 as u64;
        let y = tile_pos.1 as u64;
        if ox <= x && x < ox + self.size.0 as u64 && oy <= y && y < oy + self.size.1 as u64 {
            Ok(TilePos((x - ox) as u32, (y - oy) as u32))
        } else {
            Err(MapTileError::OutOfBounds(tile_pos))
        }
    }

    /// The tile in the slot of a chunk-local position, if any.
    pub fn get_tile_entity(&self, local: TilePos) -> (tile: Option<u64>)
        ensures
            tile == self@.tile_at(local),
            tile == (if local.0 < self.size.0 && local.1 < self.size.1 && local.1 * self.size.0
                + local.0 < self.tiles@.len() {
                self.tiles@[local.1 * self.size.0 + local.0]
            } else {
                None
            }),
    {
        if local.0 < self.size.0 && local.1 < self.size.1 {
            proof {
                lemma_origin_bounds(local.1, self.size.0);
            }
            let index: u64 = local.1 as u64 * self.size.0 as u64 + local.0 as u64;
            assert(index == tile_index(local, self.size.0));
            if index < self.tiles.len() as u64 {
                self.tiles[index as usize]
            } else {
                None
            }
        } else {
            None
        }
    }
}

} // verus!
