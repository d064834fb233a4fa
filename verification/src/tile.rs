use vstd::prelude::*;

verus! {

/// A tile position, in tiles, from the map origin (or, for a chunk-local
/// position, from the chunk's corner).
#[derive(Clone, Copy, Debug, PartialEq, Eq, Structural)]
pub struct TilePos(pub u32, pub u32);

/// A chunk position, in chunks, from the map origin.
#[derive(Clone, Copy, Debug, PartialEq, Eq, Structural)]
pub struct ChunkPos(pub u32, pub u32);

/// The size of one chunk, in tiles.
#[derive(Clone, Copy, Debug, PartialEq, Eq, Structural)]
pub struct ChunkSize(pub u32, pub u32);

/// The size of a layer, in chunks.
#[derive(Clone, Copy, Debug, PartialEq, Eq, Structural)]
pub struct MapSize(pub u32, pub u32);

/// Why a tile request was refused.
#[derive(Clone, Copy, Debug, PartialEq, Eq, Structural)]
pub enum MapTileError {
    /// The position lies outside every chunk of the requested layer, or the
    /// map or layer does not exist.
    OutOfBounds(TilePos),
    /// The position lies in a chunk, but no tile stands there.
    NonExistent(TilePos),
}

/// Row-major index of a chunk-local tile position in a chunk whose rows are
/// `chunk_size_x` tiles wide.
pub open spec fn tile_index(tile_pos: TilePos, chunk_size_x: u32) -> int {
    tile_pos.1 * chunk_size_x + tile_pos.0
}

/// The chunk that holds a tile, for chunks of the given size.
pub open spec fn chunk_pos_of(tile_pos: TilePos, chunk_size: ChunkSize) -> ChunkPos
    recommends
        chunk_size.0 > 0,
        chunk_size.1 > 0,
{
    ChunkPos((tile_pos.0 / chunk_size.0) as u32, (tile_pos.1 / chunk_size.1) as u32)
}

/// Row-major index of a chunk-local tile position.
pub fn get_tile_index(tile_pos: TilePos, chunk_size_x: u32) -> (index: usize)
    requires
        tile_index(tile_pos, chunk_size_x) <= u32::MAX,
    ensures
        index == tile_index(tile_pos, chunk_size_x),
        index == tile_pos.1 * chunk_size_x + tile_pos.0,
{
    ((tile_pos.1 * chunk_size_x) + tile_pos.0) as usize
}

/// The position of the chunk that holds `tile_pos`.
pub fn chunk_pos_for(tile_pos: TilePos, chunk_size: ChunkSize) -> (chunk_pos: ChunkPos)
    requires
        chunk_size.0 > 0,
        chunk_size.1 > 0,
    ensures
        chunk_pos == chunk_pos_of(tile_pos, chunk_size),
        chunk_pos.0 == tile_pos.0 / chunk_size.0,
        chunk_pos.1 == tile_pos.1 / chunk_size.1,
{
    ChunkPos(tile_pos.0 / chunk_size.0, tile_pos.1 / chunk_size.1)
}

} // verus!

verus! {

/// The product of two 32-bit values fits in 64 bits.
pub proof fn lemma_mul_u32_fits(a: u32, b: u32)
    ensures
        0 <= a * b,
        a * b <= u64::MAX,
        a * b + b <= u64::MAX,
{
    assert(0 <= a * b) by (nonlinear_arith);
    assert(a * b <= (u32::MAX as int) * (u32::MAX as int)) by (nonlinear_arith)
        requires
            a <= u32::MAX,
            b <= u32::MAX,
    ;
}

} // verus!
