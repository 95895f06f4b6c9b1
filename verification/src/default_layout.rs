//! A simple horizontal or vertical layout with padding and child spacing.
//!
//! A container widget answers its two layout calls with the two functions of
//! this module. The visible children of its slot stand one behind the other
//! along the axis; see [`crate::stacking`] for the arithmetic.

use crate::geometry::{Bounds, Dimensions};
use crate::scalar::{saturated, Scalar};
use crate::sizes::MinimumSizeCache;
use crate::slots::{
    ascending, is_tree, lemma_visible_children, rearranged, rearranged_at, visible_children,
    visible_children_of, SlotId, SlotInfo, SlotView, Slots,
};
use crate::stacking::{
    arrange, minimum_extents, stack_cross_minimum, stack_minimum, stacked_at, StackItem,
    StackPlace,
};
use crate::widget::{children_sized, Context, LayoutChildrenArgs, MinimumSizeArgs};
use vstd::prelude::*;

verus! {

/// The axis along which the children stand.
#[derive(Debug, Clone, Copy, PartialEq, Eq, Structural)]
pub enum Axis {
    Horizontal,
    Vertical,
}

/// How a container stacks its children.
#[derive(Debug, Clone, Copy)]
pub struct Settings {
    pub axis: Axis,
    /// The room left free at each of the four edges of the container.
    pub padding: Scalar,
    /// The gap between one child and the next.
    pub child_spacing: Scalar,
}

/// What the stacking reads of a child of the given metadata and minimum size.
pub open spec fn item_of(info: SlotInfo, size: Dimensions, axis: Axis) -> StackItem {
    match axis {
        Axis::Horizontal => StackItem {
            minimum: size.width,
            expand: info.expand_x,
            cross_minimum: size.height,
            cross_expand: info.expand_y,
        },
        Axis::Vertical => StackItem {
            minimum: size.height,
            expand: info.expand_y,
            cross_minimum: size.width,
            cross_expand: info.expand_x,
        },
    }
}

/// What the stacking reads of the visible children of a slot, in their order.
pub open spec fn items_of(
    s: Seq<SlotView>,
    slot_id: SlotId,
    sizes: Map<SlotId, Dimensions>,
    axis: Axis,
) -> Seq<StackItem> {
    visible_children_of(s, slot_id).map_values(
        |child: SlotId| item_of(s[child.0 as int].info, sizes[child], axis),
    )
}

/// The bounds of a child that the stacking has placed.
pub open spec fn bounds_of(place: StackPlace, axis: Axis) -> Bounds {
    match axis {
        Axis::Horizontal => Bounds {
            x: place.offset,
            y: place.cross_offset,
            size: Dimensions { width: place.extent, height: place.cross_extent },
        },
        Axis::Vertical => Bounds {
            x: place.cross_offset,
            y: place.offset,
            size: Dimensions { width: place.cross_extent, height: place.extent },
        },
    }
}

/// The minimum size of a container of these children: along the axis, the
/// sum of their minimums, the gaps and the padding; across it, the largest
/// of their minimums and the padding. Both are clamped into the scalar range.
pub open spec fn container_minimum(items: Seq<StackItem>, settings: Settings) -> Dimensions {
    let along = saturated(
        stack_minimum(items, settings.padding as int, settings.child_spacing as int),
    ) as i32;
    let across = saturated(stack_cross_minimum(items, settings.padding as int)) as i32;
    match settings.axis {
        Axis::Horizontal => Dimensions { width: along, height: across },
        Axis::Vertical => Dimensions { width: across, height: along },
    }
}

/// The bounds that a container of the given bounds gives the `k`-th of these
/// children.
pub open spec fn child_bounds(
    items: Seq<StackItem>,
    container: Bounds,
    settings: Settings,
    k: int,
) -> Bounds {
    let (extent, cross_extent) = match settings.axis {
        Axis::Horizontal => (container.size.width, container.size.height),
        Axis::Vertical => (container.size.height, container.size.width),
    };
    bounds_of(
        stacked_at(
            items,
            extent as int,
            cross_extent as int,
            settings.padding as int,
            settings.child_spacing as int,
            k,
        ),
        settings.axis,
    )
}

/// Whether `t` is `s` after the container `slot_id` has stacked its visible
/// children: each of them has the bounds that the stacking gives it, and
/// nothing else has changed.
pub open spec fn stacked_children(
    s: Seq<SlotView>,
    t: Seq<SlotView>,
    slot_id: SlotId,
    sizes: Map<SlotId, Dimensions>,
    settings: Settings,
) -> bool {
    let visible = visible_children_of(s, slot_id);
    let items = items_of(s, slot_id, sizes, settings.axis);
    &&& s.len() == t.len()
    &&& forall|k: int|
        0 <= k < visible.len() ==> #[trigger] t[visible[k].0 as int] == (SlotView {
            bounds: child_bounds(items, s[slot_id.0 as int].bounds, settings, k),
            ..s[visible[k].0 as int]
        })
    &&& forall|i: int|
        0 <= i < s.len() && !visible.contains(SlotId(i as u32)) ==> #[trigger] t[i] == s[i]
}

/// A hidden child counts for nothing in the minimum size of its parent:
/// two caches that hold the same sizes for the visible children of a slot
/// give the container the same children to stack, and so the same minimum
/// size, whatever they hold for its hidden children and for all that is
/// below those.
pub proof fn lemma_hidden_counts_for_nothing(
    s: Seq<SlotView>,
    slot_id: SlotId,
    a: Map<SlotId, Dimensions>,
    b: Map<SlotId, Dimensions>,
    settings: Settings,
)
    requires
        forall|k: int|
            0 <= k < visible_children_of(s, slot_id).len() ==> a[#[trigger] visible_children_of(
                s,
                slot_id,
            )[k]] == b[visible_children_of(s, slot_id)[k]],
    ensures
        items_of(s, slot_id, a, settings.axis) == items_of(s, slot_id, b, settings.axis),
        container_minimum(items_of(s, slot_id, a, settings.axis), settings) == container_minimum(
            items_of(s, slot_id, b, settings.axis),
            settings,
        ),
{
    assert(items_of(s, slot_id, a, settings.axis) =~= items_of(s, slot_id, b, settings.axis));
}

/// The minimum size of a container never shrinks when the minimum size of
/// a child grows: if the cache `b` holds for every visible child of the slot
/// a size that covers the one in `a`, the minimum size of the container with
/// `b` covers the one with `a`.
pub proof fn lemma_container_minimum_monotonic(
    s: Seq<SlotView>,
    slot_id: SlotId,
    a: Map<SlotId, Dimensions>,
    b: Map<SlotId, Dimensions>,
    settings: Settings,
)
    requires
        forall|k: int|
            0 <= k < visible_children_of(s, slot_id).len() ==> b[#[trigger] visible_children_of(
                s,
                slot_id,
            )[k]].covers(a[visible_children_of(s, slot_id)[k]]),
    ensures
        container_minimum(items_of(s, slot_id, b, settings.axis), settings).covers(
            container_minimum(items_of(s, slot_id, a, settings.axis), settings),
        ),
{
    let visible = visible_children_of(s, slot_id);
    let first = items_of(s, slot_id, a, settings.axis);
    let second = items_of(s, slot_id, b, settings.axis);
    assert forall|i: int| 0 <= i < first.len() implies first[i].minimum <= second[i].minimum
        && first[i].cross_minimum <= second[i].cross_minimum by {
        assert(b[visible[i]].covers(a[visible[i]]));
    }
    crate::stacking::lemma_stack_minimum_monotonic(
        first,
        second,
        settings.padding as int,
        settings.child_spacing as int,
    );
}

/// Reads what the stacking needs of the visible children of a slot.
fn gather(
    slots: &Slots,
    visible: &Vec<SlotId>,
    slot_id: SlotId,
    cache: &MinimumSizeCache,
    axis: Axis,
) -> (items: Vec<StackItem>)
    requires
        slots.wf(),
        slots.contains(slot_id),
        children_sized(slots@, slot_id, cache@),
        visible@ == visible_children_of(slots@, slot_id),
    ensures
        items@ == items_of(slots@, slot_id, cache@, axis),
{
    let mut items: Vec<StackItem> = Vec::new();
    let mut k: usize = 0;
    while k < visible.len()
        invariant
            slots.wf(),
            slots.contains(slot_id),
            children_sized(slots@, slot_id, cache@),
            visible@ == visible_children_of(slots@, slot_id),
            0 <= k <= visible.len(),
            items.len() == k,
            forall|j: int|
                0 <= j < k ==> #[trigger] items[j] == item_of(
                    slots@[visible[j].0 as int].info,
                    cache@[visible[j]],
                    axis,
                ),
        decreases visible.len() - k,
    {
        let child = visible[k];
        proof {
            lemma_visible_children(slots@, slot_id, k as int);
            let children = slots@[slot_id.0 as int].children;
            let j = choose|j: int| 0 <= j < children.len() && children[j] == child;
            assert(cache@.contains_key(children[j]));
        }
        let info = slots.info(child);
        let size = cache.get(child).unwrap();
        let item = match axis {
            Axis::Horizontal => StackItem {
                minimum: size.width,
                expand: info.expand_x,
                cross_minimum: size.height,
                cross_expand: info.expand_y,
            },
            Axis::Vertical => StackItem {
                minimum: size.height,
                expand: info.expand_y,
                cross_minimum: size.width,
                cross_expand: info.expand_x,
            },
        };
        items.push(item);
        k = k + 1;
    }
    proof {
        assert(items@ =~= items_of(slots@, slot_id, cache@, axis));
    }
    items
}

/// The minimum size of a container that stacks the visible children of its
/// slot. Hidden children count for nothing.
pub fn minimum_size<C: Context>(args: &MinimumSizeArgs<'_, C>, settings: &Settings) -> (size:
    Dimensions)
    requires
        args.slots.wf(),
        args.slots.contains(args.slot_id),
        children_sized(args.slots@, args.slot_id, args.minimum_size_cache@),
    ensures
        size == container_minimum(
            items_of(args.slots@, args.slot_id, args.minimum_size_cache@, settings.axis),
            *settings,
        ),
{
    let visible = visible_children(args.slots, args.slot_id);
    let items = gather(args.slots, &visible, args.slot_id, args.minimum_size_cache, settings.axis);
    let extents = minimum_extents(&items, settings.padding, settings.child_spacing);
    match settings.axis {
        Axis::Horizontal => Dimensions { width: extents.0, height: extents.1 },
        Axis::Vertical => Dimensions { width: extents.1, height: extents.0 },
    }
}

/// The visible children of a slot have rising identities.
proof fn lemma_visible_ascending(s: Seq<SlotView>, ids: Seq<SlotId>)
    requires
        ascending(ids),
    ensures
        ascending(crate::slots::visible_among(s, ids)),
        forall|k: int|
            0 <= k < crate::slots::visible_among(s, ids).len() ==> ids.contains(
                #[trigger] crate::slots::visible_among(s, ids)[k],
            ),
    decreases ids.len(),
{
    reveal(Seq::filter);
    if ids.len() > 0 {
        let front = ids.drop_last();
        lemma_visible_ascending(s, front);
        let shown_front = crate::slots::visible_among(s, front);
        assert forall|k: int| 0 <= k < shown_front.len() implies #[trigger] shown_front[k].0
            < ids.last().0 by {
            let j = choose|j: int| 0 <= j < front.len() && front[j] == shown_front[k];
            assert(ids[j] == front[j]);
        }
        assert forall|k: int|
            0 <= k < crate::slots::visible_among(s, ids).len() implies ids.contains(
            #[trigger] crate::slots::visible_among(s, ids)[k],
        ) by {
            if k < shown_front.len() {
                let j = choose|j: int| 0 <= j < front.len() && front[j] == shown_front[k];
                assert(ids[j] == front[j]);
            } else {
                assert(ids[ids.len() - 1] == ids.last());
            }
        }
    }
}

/// Stacks the visible children of the slot along the axis, within the bounds
/// of the slot. Hidden children stay where they are.
pub fn layout_children<C: Context>(args: LayoutChildrenArgs<'_, C>, settings: &Settings)
    requires
        old(args.slots).wf(),
        old(args.slots).contains(args.slot_id),
        children_sized(old(args.slots)@, args.slot_id, args.minimum_size_cache@),
    ensures
        stacked_children(
            old(args.slots)@,
            final(args.slots)@,
            args.slot_id,
            args.minimum_size_cache@,
            *settings,
        ),
        rearranged(old(args.slots)@, final(args.slots)@, args.slot_id),
        final(args.slots).is_dirty() == (old(args.slots).is_dirty() || visible_children_of(
            old(args.slots)@,
            args.slot_id,
        ).len() > 0),
{
    stack_children(args.slots, args.slot_id, args.minimum_size_cache, settings);
}

/// Stacks the visible children of a slot of the arena.
pub(crate) fn stack_children(
    slots: &mut Slots,
    slot_id: SlotId,
    cache: &MinimumSizeCache,
    settings: &Settings,
)
    requires
        old(slots).wf(),
        old(slots).contains(slot_id),
        children_sized(old(slots)@, slot_id, cache@),
    ensures
        stacked_children(old(slots)@, final(slots)@, slot_id, cache@, *settings),
        rearranged(old(slots)@, final(slots)@, slot_id),
        final(slots).is_dirty() == (old(slots).is_dirty() || visible_children_of(
            old(slots)@,
            slot_id,
        ).len() > 0),
{
    let container = slots.bounds(slot_id);
    let visible = visible_children(slots, slot_id);
    let items = gather(slots, &visible, slot_id, cache, settings.axis);
    let (extent, cross_extent) = match settings.axis {
        Axis::Horizontal => (container.size.width, container.size.height),
        Axis::Vertical => (container.size.height, container.size.width),
    };
    let places = arrange(&items, extent, cross_extent, settings.padding, settings.child_spacing);
    let ghost before = slots@;
    proof {
        lemma_visible_ascending(before, before[slot_id.0 as int].children);
    }
    let mut k: usize = 0;
    while k < visible.len()
        invariant
            is_tree(before),
            slot_id.0 < before.len(),
            visible@ == visible_children_of(before, slot_id),
            ascending(visible@),
            items@ == items_of(before, slot_id, cache@, settings.axis),
            places.len() == visible.len(),
            forall|j: int|
                0 <= j < places.len() ==> #[trigger] places[j] == stacked_at(
                    items@,
                    extent as int,
                    cross_extent as int,
                    settings.padding as int,
                    settings.child_spacing as int,
                    j,
                ),
            (extent, cross_extent) == match settings.axis {
                Axis::Horizontal => (container.size.width, container.size.height),
                Axis::Vertical => (container.size.height, container.size.width),
            },
            container == before[slot_id.0 as int].bounds,
            0 <= k <= visible.len(),
            slots.is_dirty() == (old(slots).is_dirty() || k > 0),
            slots@.len() == before.len(),
            forall|j: int|
                0 <= j < k ==> #[trigger] slots@[visible[j].0 as int] == (SlotView {
                    bounds: child_bounds(items@, container, *settings, j),
                    ..before[visible[j].0 as int]
                }),
            forall|i: int|
                0 <= i < before.len() && !visible@.take(k as int).contains(SlotId(i as u32))
                    ==> #[trigger] slots@[i] == before[i],
        decreases visible.len() - k,
    {
        let child = visible[k];
        proof {
            lemma_visible_children(before, slot_id, k as int);
            assert(!visible@.take(k as int).contains(child)) by {
                if visible@.take(k as int).contains(child) {
                    let j = choose|j: int|
                        0 <= j < visible@.take(k as int).len() && visible@.take(k as int)[j]
                            == child;
                    assert(visible@[j].0 < visible@[k as int].0);
                }
            }
            assert(slots@[child.0 as int] == before[child.0 as int]);
        }
        let place = places[k];
        let bounds = match settings.axis {
            Axis::Horizontal => Bounds {
                x: place.offset,
                y: place.cross_offset,
                size: Dimensions { width: place.extent, height: place.cross_extent },
            },
            Axis::Vertical => Bounds {
                x: place.cross_offset,
                y: place.offset,
                size: Dimensions { width: place.cross_extent, height: place.extent },
            },
        };
        let ghost previous = slots@;
        slots.set_bounds(child, bounds);
        proof {
            assert forall|j: int| 0 <= j < k + 1 implies #[trigger] slots@[visible[j].0 as int] == (
            SlotView {
                bounds: child_bounds(items@, container, *settings, j),
                ..before[visible[j].0 as int]
            }) by {
                if j < k {
                    assert(visible@[j].0 < visible@[k as int].0);
                    assert(previous[visible[j].0 as int] == (SlotView {
                        bounds: child_bounds(items@, container, *settings, j),
                        ..before[visible[j].0 as int]
                    }));
                }
            }
            assert forall|i: int|
                0 <= i < before.len() && !visible@.take(k + 1).contains(
                    SlotId(i as u32),
                ) implies #[trigger] slots@[i] == before[i] by {
                if visible@.take(k as int).contains(SlotId(i as u32)) {
                    let j = choose|j: int|
                        0 <= j < k && visible@.take(k as int)[j] == SlotId(i as u32);
                    assert(visible@.take(k + 1)[j] == SlotId(i as u32));
                }
                if i == child.0 {
                    assert(visible@.take(k + 1)[k as int] == child);
                }
            }
        }
        k = k + 1;
    }
    proof {
        assert(visible@.take(k as int) =~= visible@);
        let after = slots@;
        assert forall|i: int| 0 <= i < before.len() implies #[trigger] rearranged_at(
            before,
            after,
            slot_id,
            i,
        ) by {
            if visible@.contains(SlotId(i as u32)) {
                let j = choose|j: int| 0 <= j < visible@.len() && visible@[j] == SlotId(i as u32);
                lemma_visible_children(before, slot_id, j);
                assert(after[visible[j].0 as int] == (SlotView {
                    bounds: child_bounds(items@, container, *settings, j),
                    ..before[visible[j].0 as int]
                }));
            } else {
                assert(after[i] == before[i]);
            }
        }
    }
}

} // verus!
