use vstd::prelude::*;

use crate::chunk::ChunkView;
use crate::layer::LayerView;
use crate::tilemap::TileMapView;
use crate::query_view::{first_map, lemma_first_map, lemma_first_map_found, lemma_same_shape, lemma_slot_in_range, lemma_with_slot_shape, MapQueryView};
use crate::tile::{ChunkPos, TilePos};

verus! {

/// A one-item sequence for `Some`, an empty one for `None`.
pub open spec fn option_seq(o: Option<u64>) -> Seq<u64> {
    match o {
        Some(v) => seq![v],
        None => Seq::empty(),
    }
}

impl MapQueryView {
    /// The tile at a position of a layer, if there is one.
    pub open spec fn tile_at_pos(self, x: u32, y: u32, map_id: u16, layer_id: u16) -> Option<u64> {
        match self.tile_lookup(TilePos(x, y), map_id, layer_id) {
            Ok(t) => Some(t),
            Err(_) => None,
        }
    }

    /// The tiles of the column `x` of a layer, rows `0..rows`, in row order.
    pub open spec fn tile_column(self, map_id: u16, layer_id: u16, x: u32, rows: nat) -> Seq<u64>
        decreases rows,
    {
        if rows == 0 {
            Seq::empty()
        } else {
            self.tile_column(map_id, layer_id, x, (rows - 1) as nat) + option_seq(
                self.tile_at_pos(x, (rows - 1) as u32, map_id, layer_id),
            )
        }
    }

    /// The tiles of columns `0..cols` of a layer, rows `0..rows`, column
    /// by column.
    pub open spec fn tile_grid(self, map_id: u16, layer_id: u16, cols: nat, rows: nat) -> Seq<u64>
        decreases cols,
    {
        if cols == 0 {
            Seq::empty()
        } else {
            self.tile_grid(map_id, layer_id, (cols - 1) as nat, rows) + self.tile_column(
                map_id,
                layer_id,
                (cols - 1) as u32,
                rows,
            )
        }
    }

    /// The tiles of a layer, column by column over its extent in tiles; empty
    /// when the layer is not found.
    pub open spec fn layer_tiles(self, map_id: u16, layer_id: u16) -> Seq<u64> {
        match self.found_layer(map_id, layer_id) {
            Some(le) => self.tile_grid(
                map_id,
                layer_id,
                self.layers[le].width_in_tiles() as nat,
                self.layers[le].height_in_tiles() as nat,
            ),
            None => Seq::empty(),
        }
    }

    /// Some position among the first `x` full columns (of `rows` rows) and
    /// the first `y` rows of column `x` of a layer has the slot `(c, i)`.
    pub open spec fn visited_slot(
        self,
        map_id: u16,
        layer_id: u16,
        rows: nat,
        x: nat,
        y: nat,
        c: u64,
        i: int,
    ) -> bool {
        exists|x2: u32, y2: u32|
            ((x2 < x && y2 < rows) || (x2 == x && y2 < y)) && #[trigger] self.slot_location(
                TilePos(x2, y2),
                map_id,
                layer_id,
            ) == Some((c, i))
    }

    /// Some position of the layer's extent has the slot `(c, i)`.
    pub open spec fn in_layer_extent(self, map_id: u16, layer_id: u16, c: u64, i: int) -> bool {
        match self.found_layer(map_id, layer_id) {
            Some(le) => self.visited_slot(
                map_id,
                layer_id,
                self.layers[le].height_in_tiles() as nat,
                self.layers[le].width_in_tiles() as nat,
                0,
                c,
                i,
            ),
            None => false,
        }
    }

    /// The query with every slot of a layer's extent emptied.
    pub open spec fn layer_tiles_cleared(self, map_id: u16, layer_id: u16) -> MapQueryView {
        MapQueryView {
            chunks: self.chunks.map_entries(
                |c: u64, ch: ChunkView|
                    ChunkView {
                        tiles: Seq::new(
                            ch.tiles.len(),
                            |i: int|
                                if self.in_layer_extent(map_id, layer_id, c, i) {
                                    None
                                } else {
                                    ch.tiles[i]
                                },
                        ),
                        ..ch
                    },
            ),
            ..self
        }
    }
}

/// Two positions of one layer never share a slot.
pub proof fn lemma_slot_injective(
    q: MapQueryView,
    p1: TilePos,
    p2: TilePos,
    map_id: u16,
    layer_id: u16,
)
    requires
        q.wf(),
        q.slot_location(p1, map_id, layer_id) is Some,
        q.slot_location(p1, map_id, layer_id) == q.slot_location(p2, map_id, layer_id),
    ensures
        p1 == p2,
{
    lemma_slot_in_range(q, p1, map_id, layer_id);
    lemma_slot_in_range(q, p2, map_id, layer_id);
    let le = q.found_layer(map_id, layer_id)->0;
    let layer = q.layers[le];
    let cs = layer.settings.chunk_size;
    let ce = q.found_chunk(p1, map_id, layer_id)->0;
    let chunk = q.chunks[ce];
    let l1 = chunk.local_pos(p1)->0;
    let l2 = chunk.local_pos(p2)->0;
    let k = cs.0 as int;
    let a = l1.1 as int;
    let b = l1.0 as int;
    let c = l2.1 as int;
    let d = l2.0 as int;
    assert(0 <= a * k && 0 <= c * k) by (nonlinear_arith)
        requires
            0 <= a,
            0 <= c,
            0 <= k,
    ;
    assert(chunk.size == cs) by {
        let cp = crate::tile::chunk_pos_of(p1, cs);
        assert(q.layer_fits(layer));
        assert(layer.chunks[layer.chunk_index(cp)] == Some(ce));
    }
    assert(chunk.wf());
    let h = cs.1 as int;
    assert(a * k + b < k * h && c * k + d < k * h) by (nonlinear_arith)
        requires
            0 <= a < h,
            0 <= b < k,
            0 <= c < h,
            0 <= d < k,
    ;
    let s1 = q.tile_slot(p1, map_id, layer_id)->Ok_0;
    let s2 = q.tile_slot(p2, map_id, layer_id)->Ok_0;
    assert(q.found_chunk(p2, map_id, layer_id) == Some(ce));
    assert(s1.index as int == a * k + b);
    assert(s2.index as int == c * k + d);
    assert(a * k + b == c * k + d);
    assert(a == c && b == d) by (nonlinear_arith)
        requires
            a * k + b == c * k + d,
            0 <= b < k,
            0 <= d < k,
            0 <= a,
            0 <= c,
    ;
}

/// Visiting one more row of column `x` adds exactly the slot of that
/// position.
pub proof fn lemma_visited_step(
    q: MapQueryView,
    map_id: u16,
    layer_id: u16,
    rows: nat,
    x: u32,
    y: u32,
    c: u64,
    i: int,
)
    requires
        y < rows,
    ensures
        q.visited_slot(map_id, layer_id, rows, x as nat, (y + 1) as nat, c, i) == (q.visited_slot(
            map_id,
            layer_id,
            rows,
            x as nat,
            y as nat,
            c,
            i,
        ) || q.slot_location(TilePos(x, y), map_id, layer_id) == Some((c, i))),
{
    if q.visited_slot(map_id, layer_id, rows, x as nat, (y + 1) as nat, c, i) {
        let (x2, y2) = choose|x2: u32, y2: u32|
            ((x2 < x && y2 < rows) || (x2 == x && y2 < y + 1)) && #[trigger] q.slot_location(
                TilePos(x2, y2),
                map_id,
                layer_id,
            ) == Some((c, i));
        if !(x2 == x && y2 == y) {
            assert(q.slot_location(TilePos(x2, y2), map_id, layer_id) == Some((c, i)));
        }
    }
    if q.visited_slot(map_id, layer_id, rows, x as nat, y as nat, c, i) {
        let (x2, y2) = choose|x2: u32, y2: u32|
            ((x2 < x && y2 < rows) || (x2 == x && y2 < y)) && #[trigger] q.slot_location(
                TilePos(x2, y2),
                map_id,
                layer_id,
            ) == Some((c, i));
        assert(q.slot_location(TilePos(x2, y2), map_id, layer_id) == Some((c, i)));
    }
    if q.slot_location(TilePos(x, y), map_id, layer_id) == Some((c, i)) {
        assert(q.slot_location(TilePos(x, y), map_id, layer_id) == Some((c, i)));
    }
}

/// A full column of `rows` rows is the start of the next column.
pub proof fn lemma_visited_next_column(
    q: MapQueryView,
    map_id: u16,
    layer_id: u16,
    rows: nat,
    x: u32,
    c: u64,
    i: int,
)
    ensures
        q.visited_slot(map_id, layer_id, rows, (x + 1) as nat, 0, c, i) == q.visited_slot(
            map_id,
            layer_id,
            rows,
            x as nat,
            rows,
            c,
            i,
        ),
{
    if q.visited_slot(map_id, layer_id, rows, (x + 1) as nat, 0, c, i) {
        let (x2, y2) = choose|x2: u32, y2: u32|
            ((x2 < x + 1 && y2 < rows) || (x2 == x + 1 && y2 < 0)) && #[trigger] q.slot_location(
                TilePos(x2, y2),
                map_id,
                layer_id,
            ) == Some((c, i));
        assert(q.slot_location(TilePos(x2, y2), map_id, layer_id) == Some((c, i)));
    }
    if q.visited_slot(map_id, layer_id, rows, x as nat, rows, c, i) {
        let (x2, y2) = choose|x2: u32, y2: u32|
            ((x2 < x && y2 < rows) || (x2 == x && y2 < rows)) && #[trigger] q.slot_location(
                TilePos(x2, y2),
                map_id,
                layer_id,
            ) == Some((c, i));
        assert(q.slot_location(TilePos(x2, y2), map_id, layer_id) == Some((c, i)));
    }
}

/// The slot of a position that has not been visited yet was not visited
/// through any other position.
pub proof fn lemma_unvisited_slot(
    q: MapQueryView,
    map_id: u16,
    layer_id: u16,
    rows: nat,
    x: u32,
    y: u32,
)
    requires
        q.wf(),
        q.slot_location(TilePos(x, y), map_id, layer_id) is Some,
    ensures
        ({
            let (c, i) = q.slot_location(TilePos(x, y), map_id, layer_id)->0;
            !q.visited_slot(map_id, layer_id, rows, x as nat, y as nat, c, i)
        }),
{
    let (c, i) = q.slot_location(TilePos(x, y), map_id, layer_id)->0;
    if q.visited_slot(map_id, layer_id, rows, x as nat, y as nat, c, i) {
        let (x2, y2) = choose|x2: u32, y2: u32|
            ((x2 < x && y2 < rows) || (x2 == x && y2 < y)) && #[trigger] q.slot_location(
                TilePos(x2, y2),
                map_id,
                layer_id,
            ) == Some((c, i));
        lemma_slot_injective(q, TilePos(x, y), TilePos(x2, y2), map_id, layer_id);
    }
}

impl MapQueryView {
    /// This query is `q0` with the slots visited so far (see
    /// `visited_slot`) emptied, and nothing else changed.
    pub open spec fn cleared_through(
        self,
        q0: MapQueryView,
        map_id: u16,
        layer_id: u16,
        rows: nat,
        x: nat,
        y: nat,
    ) -> bool {
        &&& q0.same_shape(self)
        &&& forall|c: u64, i: int|
            q0.chunks.contains_key(c) && 0 <= i < q0.chunks[c].tiles.len() ==> #[trigger] self.chunks[c].tiles[i]
                == if q0.visited_slot(map_id, layer_id, rows, x, y, c, i) {
                None
            } else {
                q0.chunks[c].tiles[i]
            }
        &&& forall|c: u64|
            q0.chunks.contains_key(c) ==> #[trigger] self.chunks[c].needs_remesh
                == q0.chunks[c].needs_remesh
    }
}

/// Nothing is visited at the start.
pub proof fn lemma_clear_start(q0: MapQueryView, map_id: u16, layer_id: u16, rows: nat)
    ensures
        q0.cleared_through(q0, map_id, layer_id, rows, 0, 0),
{
    assert(q0.chunks.dom() =~= q0.chunks.dom());
}

/// Visiting position `(x, y)`: the current query sees there what `q0` saw,
/// and emptying its slot (when it holds a tile) keeps the invariant.
pub proof fn lemma_clear_step(
    q0: MapQueryView,
    s: MapQueryView,
    map_id: u16,
    layer_id: u16,
    rows: nat,
    x: u32,
    y: u32,
)
    requires
        q0.wf(),
        y < rows,
        s.cleared_through(q0, map_id, layer_id, rows, x as nat, y as nat),
    ensures
        s.wf(),
        s.slot_location(TilePos(x, y), map_id, layer_id) == q0.slot_location(TilePos(x, y), map_id, layer_id),
        s.tile_lookup(TilePos(x, y), map_id, layer_id) == q0.tile_lookup(TilePos(x, y), map_id, layer_id),
        q0.tile_at_pos(x, y, map_id, layer_id) is None ==> s.cleared_through(
            q0,
            map_id,
            layer_id,
            rows,
            x as nat,
            (y + 1) as nat,
        ),
        q0.slot_location(TilePos(x, y), map_id, layer_id) matches Some((c, i)) ==> {
            &&& s.chunks.contains_key(c)
            &&& 0 <= i < s.chunks[c].tiles.len()
            &&& s.with_slot(c, i, None).cleared_through(
                q0,
                map_id,
                layer_id,
                rows,
                x as nat,
                (y + 1) as nat,
            )
        },
{
    let p = TilePos(x, y);
    lemma_same_shape(q0, s);
    lemma_slot_in_range(q0, p, map_id, layer_id);
    lemma_slot_in_range(s, p, map_id, layer_id);
    assert(s.tile_slot(p, map_id, layer_id) == q0.tile_slot(p, map_id, layer_id)) by {
        if let Some((c, i)) = q0.slot_location(p, map_id, layer_id) {
            lemma_unvisited_slot(q0, map_id, layer_id, rows, x, y);
            assert(s.chunks[c].tiles[i] == q0.chunks[c].tiles[i]);
        }
    }
    assert forall|c: u64, i: int|
        q0.chunks.contains_key(c) && 0 <= i < q0.chunks[c].tiles.len() implies
            q0.visited_slot(map_id, layer_id, rows, x as nat, (y + 1) as nat, c, i) == (
            q0.visited_slot(map_id, layer_id, rows, x as nat, y as nat, c, i)
                || q0.slot_location(p, map_id, layer_id) == Some((c, i))) by {
        lemma_visited_step(q0, map_id, layer_id, rows, x, y, c, i);
    }
    if let Some((c0, i0)) = q0.slot_location(p, map_id, layer_id) {
        let s2 = s.with_slot(c0, i0, None);
        lemma_with_slot_shape(s, c0, i0, None);
        assert(s2.chunks.dom() =~= q0.chunks.dom());
        assert forall|c: u64, i: int|
            q0.chunks.contains_key(c) && 0 <= i < q0.chunks[c].tiles.len() implies #[trigger] s2.chunks[c].tiles[i]
                == if q0.visited_slot(map_id, layer_id, rows, x as nat, (y + 1) as nat, c, i) {
                None
            } else {
                q0.chunks[c].tiles[i]
            } by {
            lemma_visited_step(q0, map_id, layer_id, rows, x, y, c, i);
            assert(s.chunks[c].tiles[i] == if q0.visited_slot(
                map_id,
                layer_id,
                rows,
                x as nat,
                y as nat,
                c,
                i,
            ) {
                None
            } else {
                q0.chunks[c].tiles[i]
            });
        }
        assert forall|c: u64| q0.chunks.contains_key(c) implies #[trigger] s2.chunks[c].needs_remesh
            == q0.chunks[c].needs_remesh by {
            assert(s.chunks[c].needs_remesh == q0.chunks[c].needs_remesh);
        }
    }
    if q0.tile_at_pos(x, y, map_id, layer_id) is None {
        assert forall|c: u64, i: int|
            q0.chunks.contains_key(c) && 0 <= i < q0.chunks[c].tiles.len() implies #[trigger] s.chunks[c].tiles[i]
                == if q0.visited_slot(map_id, layer_id, rows, x as nat, (y + 1) as nat, c, i) {
                None
            } else {
                q0.chunks[c].tiles[i]
            } by {
            lemma_visited_step(q0, map_id, layer_id, rows, x, y, c, i);
            if q0.slot_location(p, map_id, layer_id) == Some((c, i)) {
                lemma_unvisited_slot(q0, map_id, layer_id, rows, x, y);
            }
        }
    }
}

/// A finished column is the start of the next one.
pub proof fn lemma_clear_next_column(
    q0: MapQueryView,
    s: MapQueryView,
    map_id: u16,
    layer_id: u16,
    rows: nat,
    x: u32,
)
    requires
        s.cleared_through(q0, map_id, layer_id, rows, x as nat, rows),
    ensures
        s.cleared_through(q0, map_id, layer_id, rows, (x + 1) as nat, 0),
{
    assert forall|c: u64, i: int|
        q0.chunks.contains_key(c) && 0 <= i < q0.chunks[c].tiles.len() implies #[trigger] s.chunks[c].tiles[i]
            == if q0.visited_slot(map_id, layer_id, rows, (x + 1) as nat, 0, c, i) {
            None
        } else {
            q0.chunks[c].tiles[i]
        } by {
        lemma_visited_next_column(q0, map_id, layer_id, rows, x, c, i);
    }
}

/// Once the whole extent of a found layer is visited, the query is `q0`
/// with the layer's tiles cleared.
pub proof fn lemma_clear_done(q0: MapQueryView, s: MapQueryView, map_id: u16, layer_id: u16)
    requires
        q0.found_layer(map_id, layer_id) matches Some(le) && s.cleared_through(
            q0,
            map_id,
            layer_id,
            q0.layers[le].height_in_tiles() as nat,
            q0.layers[le].width_in_tiles() as nat,
            0,
        ),
    ensures
        s == q0.layer_tiles_cleared(map_id, layer_id),
{
    let target = q0.layer_tiles_cleared(map_id, layer_id);
    assert(s.chunks.dom() =~= target.chunks.dom());
    assert forall|c: u64| #[trigger] s.chunks.contains_key(c) implies s.chunks[c] == target.chunks[c] by {
        assert(q0.chunks.contains_key(c));
        let ch = q0.chunks[c];
        assert(target.chunks[c].tiles.len() == ch.tiles.len());
        assert forall|i: int| 0 <= i < ch.tiles.len() implies #[trigger] s.chunks[c].tiles[i]
            == target.chunks[c].tiles[i] by {
            assert(s.chunks[c].tiles[i] == if q0.in_layer_extent(map_id, layer_id, c, i) {
                None
            } else {
                ch.tiles[i]
            });
        }
        assert(s.chunks[c].tiles =~= target.chunks[c].tiles);
        assert(s.chunks[c].needs_remesh == ch.needs_remesh);
    }
    assert(s.chunks =~= target.chunks);
}

/// Clearing the tiles of a layer that is not found changes nothing.
pub proof fn lemma_clear_not_found(q0: MapQueryView, map_id: u16, layer_id: u16)
    requires
        q0.found_layer(map_id, layer_id) is None,
    ensures
        q0 == q0.layer_tiles_cleared(map_id, layer_id),
{
    let target = q0.layer_tiles_cleared(map_id, layer_id);
    assert(q0.chunks.dom() =~= target.chunks.dom());
    assert forall|c: u64| #[trigger] q0.chunks.contains_key(c) implies q0.chunks[c] == target.chunks[c] by {
        assert(q0.chunks[c].tiles =~= target.chunks[c].tiles);
    }
    assert(q0.chunks =~= target.chunks);
}

impl LayerView {
    /// The chunk entities of column `x` of the layer, rows `0..rows`.
    pub open spec fn chunk_column(self, x: u32, rows: nat) -> Seq<u64>
        decreases rows,
    {
        if rows == 0 {
            Seq::empty()
        } else {
            self.chunk_column(x, (rows - 1) as nat) + option_seq(
                self.chunk_at(ChunkPos(x, (rows - 1) as u32)),
            )
        }
    }

    /// The chunk entities of columns `0..cols` of the layer, column by column.
    pub open spec fn chunk_grid(self, cols: nat, rows: nat) -> Seq<u64>
        decreases cols,
    {
        if cols == 0 {
            Seq::empty()
        } else {
            self.chunk_grid((cols - 1) as nat, rows) + self.chunk_column((cols - 1) as u32, rows)
        }
    }

    /// The chunk entities over the layer's extent in chunks, column by column.
    pub open spec fn layer_chunks(self) -> Seq<u64> {
        self.chunk_grid(self.settings.map_size.0 as nat, self.settings.map_size.1 as nat)
    }
}

impl MapQueryView {
    /// The query with the layer `layer_id` dropped from the first map with
    /// id `map_id`, if there is such a map.
    pub open spec fn without_layer_entry(self, map_id: u16, layer_id: u16) -> MapQueryView {
        match first_map(self.maps, map_id) {
            Some(i) => MapQueryView {
                maps: self.maps.update(
                    i,
                    (
                        self.maps[i].0,
                        TileMapView { layers: self.maps[i].1.layers.remove(layer_id), ..self.maps[i].1 },
                    ),
                ),
                ..self
            },
            None => self,
        }
    }

    /// The query after a layer is despawned: its tiles cleared, then its
    /// entry dropped from its map.
    pub open spec fn layer_despawned(self, map_id: u16, layer_id: u16) -> MapQueryView {
        self.layer_tiles_cleared(map_id, layer_id).without_layer_entry(map_id, layer_id)
    }

    /// The entities that despawning a layer despawns, in order: its tiles;
    /// then, when the map lists the layer, the layer's chunks (if the query
    /// sees the layer), the layer entity, and the layer entity once more as
    /// the map forgets it.
    pub open spec fn layer_despawn_list(self, map_id: u16, layer_id: u16) -> Seq<u64> {
        self.layer_tiles(map_id, layer_id) + match self.layer_entity(map_id, layer_id) {
            Some(le) => (if self.layers.contains_key(le) {
                self.layers[le].layer_chunks()
            } else {
                Seq::empty()
            }) + seq![le, le],
            None => Seq::empty(),
        }
    }
}

impl MapQueryView {
    /// The query after the layers `ids` are despawned in turn.
    pub open spec fn layers_despawned(self, map_id: u16, ids: Seq<u16>) -> MapQueryView
        decreases ids.len(),
    {
        if ids.len() == 0 {
            self
        } else {
            self.layers_despawned(map_id, ids.drop_last()).layer_despawned(map_id, ids.last())
        }
    }

    /// The entities that despawning the layers `ids` in turn despawns, in order.
    pub open spec fn layers_despawn_list(self, map_id: u16, ids: Seq<u16>) -> Seq<u64>
        decreases ids.len(),
    {
        if ids.len() == 0 {
            Seq::empty()
        } else {
            self.layers_despawn_list(map_id, ids.drop_last()) + self.layers_despawned(
                map_id,
                ids.drop_last(),
            ).layer_despawn_list(map_id, ids.last())
        }
    }

    /// The ids of the layers of the first map with id `map_id`.
    pub open spec fn map_layer_ids(self, map_id: u16) -> Set<u16> {
        match first_map(self.maps, map_id) {
            Some(i) => self.maps[i].1.layers.dom(),
            None => Set::empty(),
        }
    }

    /// The entity of the first map with id `map_id`, as a list of zero or one.
    pub open spec fn map_entity_list(self, map_id: u16) -> Seq<u64> {
        match first_map(self.maps, map_id) {
            Some(i) => seq![self.maps[i].0],
            None => Seq::empty(),
        }
    }

    /// The two queries list the same map entities with the same ids, in the
    /// same order.
    pub open spec fn same_map_ids(self, other: MapQueryView) -> bool {
        &&& self.maps.len() == other.maps.len()
        &&& forall|j: int|
            0 <= j < self.maps.len() ==> (#[trigger] other.maps[j]).0 == self.maps[j].0
                && other.maps[j].1.id == self.maps[j].1.id
    }
}

/// The first map with an id depends only on the maps' ids.
pub proof fn lemma_first_map_same_ids(q1: MapQueryView, q2: MapQueryView, map_id: u16)
    requires
        q1.same_map_ids(q2),
    ensures
        first_map(q1.maps, map_id) == first_map(q2.maps, map_id),
{
    lemma_first_map_found(q1.maps, map_id);
    match first_map(q1.maps, map_id) {
        Some(i) => {
            assert forall|j: int| 0 <= j < i implies (#[trigger] q2.maps[j]).1.id != map_id by {
                assert(q1.maps[j].1.id != map_id);
            }
            lemma_first_map(q2.maps, map_id, i);
        },
        None => {
            assert forall|j: int| 0 <= j < q2.maps.len() implies (#[trigger] q2.maps[j]).1.id
                != map_id by {
                assert(q1.maps[j].1.id != map_id);
            }
            lemma_first_map(q2.maps, map_id, q2.maps.len() as int);
        },
    }
}

/// Despawning a layer keeps the maps, their entities and their ids.
pub proof fn lemma_layer_despawned_ids(q: MapQueryView, map_id: u16, layer_id: u16)
    ensures
        q.same_map_ids(q.layer_despawned(map_id, layer_id)),
{
    let q1 = q.layer_tiles_cleared(map_id, layer_id);
    let q2 = q1.without_layer_entry(map_id, layer_id);
    assert(q1.maps == q.maps);
    lemma_first_map_found(q1.maps, map_id);
    assert forall|j: int| 0 <= j < q.maps.len() implies (#[trigger] q2.maps[j]).0 == q.maps[j].0
        && q2.maps[j].1.id == q.maps[j].1.id by {}
}

/// `same_map_ids` is transitive.
pub proof fn lemma_same_map_ids_trans(q1: MapQueryView, q2: MapQueryView, q3: MapQueryView)
    requires
        q1.same_map_ids(q2),
        q2.same_map_ids(q3),
    ensures
        q1.same_map_ids(q3),
{
    assert forall|j: int| 0 <= j < q1.maps.len() implies (#[trigger] q3.maps[j]).0 == q1.maps[j].0
        && q3.maps[j].1.id == q1.maps[j].1.id by {
        assert(q2.maps[j].0 == q1.maps[j].0);
    }
}

} // verus!
