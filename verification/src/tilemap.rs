use vstd::prelude::*;
use std::collections::HashMap;
use vstd::std_specs::iter::IteratorSpec;

verus! {

broadcast use vstd::std_specs::hash::group_hash_axioms;

/// A map: its id and the entity of each of its layers, by layer id.
pub struct TileMap {
    pub id: u16,
    pub layers: HashMap<u16, u64>,
}

/// What a map holds, as plain values.
pub struct TileMapView {
    pub id: u16,
    pub layers: Map<u16, u64>,
}

impl View for TileMap {
    type V = TileMapView;

    open spec fn view(&self) -> TileMapView {
        TileMapView { id: self.id, layers: self.layers@ }
    }
}

impl TileMapView {
    /// The entity of a layer, by layer id.
    pub open spec fn layer_entity(self, layer_id: u16) -> Option<u64> {
        if self.layers.contains_key(layer_id) {
            Some(self.layers[layer_id])
        } else {
            None
        }
    }
}

impl TileMap {
    /// A map with no layers.
    pub fn new(id: u16) -> (map: TileMap)
        ensures
            map@.id == id,
            map@.layers == Map::<u16, u64>::empty(),
    {
        TileMap { id, layers: HashMap::new() }
    }

    /// Records `layer_entity` as the layer `layer_id` of this map.
    pub fn add_layer(&mut self, layer_id: u16, layer_entity: u64)
        ensures
            final(self)@.id == old(self)@.id,
            final(self)@.layers == old(self)@.layers.insert(layer_id, layer_entity),
    {
        self.layers.insert(layer_id, layer_entity);
    }

    /// The entity of a layer, by layer id.
    pub fn get_layer_entity(&self, layer_id: u16) -> (entity: Option<u64>)
        ensures
            entity == self@.layer_entity(layer_id),
            entity == (if self@.layers.contains_key(layer_id) {
                Some(self@.layers[layer_id])
            } else {
                None
            }),
    {
        match self.layers.get(&layer_id) {
            Some(e) => Some(*e),
            None => None,
        }
    }

    /// The ids of the map's layers, each once, in the map's own order.
    pub fn layer_ids(&self) -> (ids: Vec<u16>)
        ensures
            ids@.to_set() == self@.layers.dom(),
            ids@.no_duplicates(),
            ids@.len() == self@.layers.dom().len(),
    {
        let ghost all = vstd::std_specs::hash::spec_keys_iter(&self.layers).remaining();
        let mut ids: Vec<u16> = Vec::new();
        for k in it: self.layers.keys()
            invariant
                it.seq() == all,
                ids@ == all.take(it.index()).unref(),
        {
            ids.push(*k);
            assert(ids@ =~= all.take(it.index() + 1).unref());
        }
        assert(ids@ =~= all.unref());
        ids
    }

    /// Forgets the layer `layer_id`; returns its entity, which is to be
    /// despawned.
    pub fn remove_layer(&mut self, layer_id: u16) -> (removed: Option<u64>)
        ensures
            removed == old(self)@.layer_entity(layer_id),
            removed == (if old(self)@.layers.contains_key(layer_id) {
                Some(old(self)@.layers[layer_id])
            } else {
                None
            }),
            final(self)@.id == old(self)@.id,
            final(self)@.layers == old(self)@.layers.remove(layer_id),
    {
        self.layers.remove(&layer_id)
    }
}

} // verus!
