//! The box layout for callers that hold the arena itself.

use crate::default_layout::{stack_children, stacked_children, Settings};
use crate::scalar::Scalar;
use crate::sizes::MinimumSizeCache;
use crate::slots::{rearranged, visible_children_of, SlotId, Slots};
use crate::widget::children_sized;
use vstd::prelude::*;

verus! {

/// The axis along which the children stand.
#[derive(Debug, Clone, Copy, PartialEq, Eq, Structural)]
pub enum Axis {
    Horizontal,
    Vertical,
}

impl Axis {
    /// The same axis, as the settings of a container name it.
    pub open spec fn of_settings(self) -> crate::default_layout::Axis {
        match self {
            Axis::Horizontal => crate::default_layout::Axis::Horizontal,
            Axis::Vertical => crate::default_layout::Axis::Vertical,
        }
    }
}

/// Stacks the visible children of the slot along the axis, within the bounds
/// of the slot, with `padding` at the edges and `child_spacing` between one
/// child and the next. Hidden children stay where they are.
pub fn default(
    slots: &mut Slots,
    slot_id: SlotId,
    minimum_size_cache: &MinimumSizeCache,
    layout_axis: Axis,
    padding: Scalar,
    child_spacing: Scalar,
)
    requires
        old(slots).wf(),
        old(slots).contains(slot_id),
        children_sized(old(slots)@, slot_id, minimum_size_cache@),
    ensures
        stacked_children(
            old(slots)@,
            final(slots)@,
            slot_id,
            minimum_size_cache@,
            Settings { axis: layout_axis.of_settings(), padding, child_spacing },
        ),
        rearranged(old(slots)@, final(slots)@, slot_id),
        final(slots).is_dirty() == (old(slots).is_dirty() || visible_children_of(
            old(slots)@,
            slot_id,
        ).len() > 0),
{
    let axis = match layout_axis {
        Axis::Horizontal => crate::default_layout::Axis::Horizontal,
        Axis::Vertical => crate::default_layout::Axis::Vertical,
    };
    let settings = Settings { axis, padding, child_spacing };
    stack_children(slots, slot_id, minimum_size_cache, &settings);
}

} // verus!
