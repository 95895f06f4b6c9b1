//! The minimum sizes that a layout pass has computed so far.

use crate::geometry::Dimensions;
use crate::slots::SlotId;
use std::collections::HashMap;
use vstd::prelude::*;

verus! {

/// The minimum size of each slot that a layout pass has reached. A pass
/// computes the sizes of the children of a slot before that of the slot, and
/// keeps none of them once it is over.
pub struct MinimumSizeCache {
    sizes: HashMap<u32, Dimensions>,
}

impl View for MinimumSizeCache {
    type V = Map<SlotId, Dimensions>;

    closed spec fn view(&self) -> Map<SlotId, Dimensions> {
        Map::new(
            |slot_id: SlotId| self.sizes@.contains_key(slot_id.0),
            |slot_id: SlotId| self.sizes@[slot_id.0],
        )
    }
}

impl MinimumSizeCache {
    /// A cache without any size.
    pub fn new() -> (cache: MinimumSizeCache)
        ensures
            cache@ == Map::<SlotId, Dimensions>::empty(),
    {
        let cache = MinimumSizeCache { sizes: HashMap::new() };
        assert(cache@ =~= Map::<SlotId, Dimensions>::empty());
        cache
    }

    /// Records the minimum size of a slot, in place of the one recorded before.
    pub fn insert(&mut self, slot_id: SlotId, size: Dimensions)
        ensures
            final(self)@ == old(self)@.insert(slot_id, size),
    {
        self.sizes.insert(slot_id.0, size);
        assert(self@ =~= old(self)@.insert(slot_id, size)) by {
            assert forall|other: SlotId| #[trigger] self@.contains_key(other) implies old(self)@
                .insert(slot_id, size).contains_key(other) by {
                if other.0 != slot_id.0 {
                    assert(old(self).sizes@.contains_key(other.0));
                }
            }
        }
    }

    /// The minimum size recorded for a slot, if any.
    pub fn get(&self, slot_id: SlotId) -> (size: Option<Dimensions>)
        ensures
            size == if self@.contains_key(slot_id) {
                Some(self@[slot_id])
            } else {
                None::<Dimensions>
            },
    {
        match self.sizes.get(&slot_id.0) {
            Some(size) => Some(*size),
            None => None,
        }
    }
}

} // verus!
