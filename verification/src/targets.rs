//! The pending targets of units: where each unit was last told to go.
use std::collections::HashMap;
use vstd::prelude::*;
use vstd::std_specs::hash::*;
use crate::common::Vec2;
use crate::state::UnitId;

verus! {

broadcast use vstd::std_specs::hash::group_hash_axioms;

/// Maps a unit to its pending target. A unit has at most one target: a
/// newer one takes the place of the older.
pub struct TargetMap {
    targets: HashMap<u32, Vec2>,
}

impl View for TargetMap {
    type V = Map<UnitId, Vec2>;

    closed spec fn view(&self) -> Map<UnitId, Vec2> {
        Map::new(
            |id: UnitId| self.targets@.contains_key(id.0),
            |id: UnitId| self.targets@[id.0],
        )
    }
}

impl TargetMap {
    /// A map without targets.
    pub fn new() -> (map: TargetMap)
        ensures
            map@ == Map::<UnitId, Vec2>::empty(),
    {
        let map = TargetMap { targets: HashMap::new() };
        assert(map@ =~= Map::<UnitId, Vec2>::empty());
        map
    }

    /// Gives the unit `id` the target `target`, in place of the one it had.
    pub fn insert(&mut self, id: UnitId, target: Vec2)
        ensures
            final(self)@ == old(self)@.insert(id, target),
    {
        self.targets.insert(id.0, target);
        assert(self@ =~= old(self)@.insert(id, target));
    }

    /// The pending target of the unit `id`.
    pub fn get(&self, id: UnitId) -> (target: Option<Vec2>)
        ensures
            target == if self@.contains_key(id) {
                Some(self@[id])
            } else {
                None
            },
    {
        match self.targets.get(&id.0) {
            Some(target) => Some(*target),
            None => None,
        }
    }

    /// Whether the unit `id` has a pending target.
    pub fn contains(&self, id: UnitId) -> (found: bool)
        ensures
            found == self@.contains_key(id),
    {
        self.targets.contains_key(&id.0)
    }

    /// The number of units with a pending target.
    pub fn len(&self) -> (count: usize)
        ensures
            count == self@.len(),
            self@.dom().finite(),
    {
        proof {
            let f = |key: u32| UnitId(key);
            let keys = self.targets@.dom();
            assert(vstd::relations::injective_on(f, keys));
            assert forall|id: UnitId| self@.dom().contains(id) implies keys.map(f).contains(id) by {
                assert(keys.contains(id.0) && f(id.0) == id);
            }
            assert(keys.map(f) =~= self@.dom());
            vstd::set_lib::lemma_map_size(keys, self@.dom(), f);
        }
        self.targets.len()
    }
}

} // verus!
