//! Anchor and margin resolution: where a child lies in its parent before any
//! widget arranges it.

use crate::anchor::Anchor;
use crate::geometry::{Bounds, Dimensions};
use crate::scalar::{larger, quotient, saturate, saturated, Scalar};
use crate::sizes::MinimumSizeCache;
use crate::slots::{
    child_linked, rearranged, rearranged_at, GrowDirection, SlotId, SlotInfo, SlotView, Slots,
};
use crate::widget::children_sized;
use vstd::prelude::*;

verus! {

/// The two edges of a child's box on one axis, measured from the parent's
/// leading edge, before margins.
///
/// The anchors give the box. Where the minimum exceeds the extent of that box,
/// the box grows by the deficit: backward at its leading edge (`Begin`), by half
/// of it at each edge (`Both`), or not at all (`End`), which leaves the deficit
/// to the final extent.
pub open spec fn grown_edges(
    extent: int,
    begin: Anchor,
    end: Anchor,
    grow: GrowDirection,
    minimum: int,
) -> (int, int) {
    let leading = begin.offset_in(extent);
    let trailing = end.offset_in(extent);
    let deficit = minimum - (trailing - leading);
    if deficit > 0 {
        match grow {
            GrowDirection::Begin => (leading - deficit, trailing),
            GrowDirection::Both => (
                leading - quotient(deficit, 2),
                trailing + quotient(deficit, 2),
            ),
            GrowDirection::End => (leading, trailing),
        }
    } else {
        (leading, trailing)
    }
}

/// The origin of a child on one axis: the leading edge of its box, moved by the
/// leading margin.
pub open spec fn placed_origin(
    extent: int,
    begin: Anchor,
    end: Anchor,
    grow: GrowDirection,
    margin_begin: int,
    minimum: int,
) -> int {
    saturated(grown_edges(extent, begin, end, grow, minimum).0 + margin_begin)
}

/// The extent of a child on one axis: the extent of its box adjusted by the two
/// margins, and never less than the minimum.
pub open spec fn placed_extent(
    extent: int,
    begin: Anchor,
    end: Anchor,
    grow: GrowDirection,
    margin_begin: int,
    margin_end: int,
    minimum: int,
) -> int {
    let edges = grown_edges(extent, begin, end, grow, minimum);
    saturated(larger(edges.1 - edges.0 + margin_end - margin_begin, minimum))
}

/// The bounds of a child of the given metadata and minimum size in a parent of
/// the given size, each axis resolved on its own.
pub open spec fn placed(
    parent_size: Dimensions,
    info: SlotInfo,
    minimum_size: Dimensions,
) -> Bounds {
    Bounds {
        x: placed_origin(
            parent_size.width as int,
            info.anchor_left,
            info.anchor_right,
            info.grow_x,
            info.margin_left as int,
            minimum_size.width as int,
        ) as i32,
        y: placed_origin(
            parent_size.height as int,
            info.anchor_top,
            info.anchor_bottom,
            info.grow_y,
            info.margin_top as int,
            minimum_size.height as int,
        ) as i32,
        size: Dimensions {
            width: placed_extent(
                parent_size.width as int,
                info.anchor_left,
                info.anchor_right,
                info.grow_x,
                info.margin_left as int,
                info.margin_right as int,
                minimum_size.width as int,
            ) as i32,
            height: placed_extent(
                parent_size.height as int,
                info.anchor_top,
                info.anchor_bottom,
                info.grow_y,
                info.margin_top as int,
                info.margin_bottom as int,
                minimum_size.height as int,
            ) as i32,
        },
    }
}

/// Resolves one axis: the origin and the extent of the child.
fn place_axis(
    extent: Scalar,
    begin: Anchor,
    end: Anchor,
    grow: GrowDirection,
    margin_begin: Scalar,
    margin_end: Scalar,
    minimum: Scalar,
) -> (r: (Scalar, Scalar))
    ensures
        r.0 == placed_origin(extent as int, begin, end, grow, margin_begin as int, minimum as int),
        r.1 == placed_extent(
            extent as int,
            begin,
            end,
            grow,
            margin_begin as int,
            margin_end as int,
            minimum as int,
        ),
        r.1 >= minimum,
{
    let leading: i64 = begin.scale(extent) as i64;
    let trailing: i64 = end.scale(extent) as i64;
    let deficit: i64 = minimum as i64 - (trailing - leading);
    let mut first: i64 = leading;
    let mut last: i64 = trailing;
    if deficit > 0 {
        match grow {
            GrowDirection::Begin => {
                first = leading - deficit;
            },
            GrowDirection::Both => {
                first = leading - deficit / 2;
                last = trailing + deficit / 2;
            },
            GrowDirection::End => {},
        }
    }
    let origin = saturate((first + margin_begin as i64) as i128);
    let sized: i64 = last - first + margin_end as i64 - margin_begin as i64;
    let size = saturate((if sized >= minimum as i64 { sized } else { minimum as i64 }) as i128);
    (origin, size)
}

/// The bounds that anchors, margins and grow directions give a child, in a
/// parent of the given size. The child is never smaller than `minimum_size`.
pub fn anchored_bounds(parent_size: Dimensions, info: &SlotInfo, minimum_size: Dimensions) -> (r:
    Bounds)
    ensures
        r == placed(parent_size, *info, minimum_size),
        r.size.covers(minimum_size),
{
    let horizontal = place_axis(
        parent_size.width,
        info.anchor_left,
        info.anchor_right,
        info.grow_x,
        info.margin_left,
        info.margin_right,
        minimum_size.width,
    );
    let vertical = place_axis(
        parent_size.height,
        info.anchor_top,
        info.anchor_bottom,
        info.grow_y,
        info.margin_top,
        info.margin_bottom,
        minimum_size.height,
    );
    Bounds {
        x: horizontal.0,
        y: vertical.0,
        size: Dimensions { width: horizontal.1, height: vertical.1 },
    }
}

/// The minimum size recorded for slot `i` is no less than the size hint of
/// the slot, and is the hint itself where the slot has no widget.
pub open spec fn sized_at(s: Seq<SlotView>, sizes: Map<SlotId, Dimensions>, i: int) -> bool {
    let slot_id = SlotId(i as u32);
    &&& sizes.contains_key(slot_id)
    &&& sizes[slot_id].covers(s[i].info.minimum_size)
    &&& s[i].widget_id is None ==> sizes[slot_id] == s[i].info.minimum_size
}

/// Whether `sizes` holds a minimum size for every slot: the size hint of the
/// slot where it has no widget, and no less than the hint where it has one.
pub open spec fn sized(s: Seq<SlotView>, sizes: Map<SlotId, Dimensions>) -> bool {
    forall|i: int| 0 <= i < s.len() ==> #[trigger] sized_at(s, sizes, i)
}

/// The size hint of every slot, as the minimum sizes of a tree without
/// widgets.
pub open spec fn hints(s: Seq<SlotView>) -> Map<SlotId, Dimensions> {
    Map::new(
        |slot_id: SlotId| slot_id.0 < s.len(),
        |slot_id: SlotId| s[slot_id.0 as int].info.minimum_size,
    )
}

/// Slot `c`, if its parent has no widget, lies in `t` where its anchors and
/// margins put it within the bounds that its parent has in `t`.
pub open spec fn anchored_at(
    s: Seq<SlotView>,
    t: Seq<SlotView>,
    sizes: Map<SlotId, Dimensions>,
    c: int,
) -> bool {
    match s[c].parent {
        Some(parent) => s[parent.0 as int].widget_id is None ==> t[c].bounds == placed(
            t[parent.0 as int].bounds.size,
            s[c].info,
            sizes[SlotId(c as u32)],
        ),
        None => true,
    }
}

/// Slot `i` of `t` is slot `i` of `s` but for its bounds.
pub open spec fn kept_at(s: Seq<SlotView>, t: Seq<SlotView>, i: int) -> bool {
    t[i] == (SlotView { bounds: t[i].bounds, ..s[i] })
}

/// Whether `t` is the tree `s` after a layout pass with these minimum sizes.
/// Nothing has changed but bounds, and not those of the root. Every child of
/// a slot without a widget lies where its anchors and margins put it within
/// its parent. The children of a slot with a widget lie where the widget has
/// put them.
pub open spec fn laid_out(
    s: Seq<SlotView>,
    t: Seq<SlotView>,
    sizes: Map<SlotId, Dimensions>,
) -> bool {
    &&& s.len() == t.len()
    &&& t[0].bounds == s[0].bounds
    &&& forall|i: int| 0 <= i < s.len() ==> #[trigger] kept_at(s, t, i)
    &&& forall|c: int| 0 < c < s.len() ==> #[trigger] anchored_at(s, t, sizes, c)
}

/// A tree that has changed in nothing but bounds has the links of the first.
pub proof fn lemma_kept_same_links(s: Seq<SlotView>, t: Seq<SlotView>)
    requires
        s.len() == t.len(),
        forall|i: int| 0 <= i < s.len() ==> #[trigger] kept_at(s, t, i),
    ensures
        crate::slots::same_links(s, t),
{
    assert forall|i: int| 0 <= i < s.len() implies #[trigger] crate::slots::same_links_at(
        s,
        t,
        i,
    ) by {
        assert(kept_at(s, t, i));
    }
}

/// Minimum sizes that fit a tree fit the tree when nothing but bounds has
/// changed.
pub proof fn lemma_kept_sized(s: Seq<SlotView>, t: Seq<SlotView>, sizes: Map<SlotId, Dimensions>)
    requires
        s.len() == t.len(),
        forall|i: int| 0 <= i < s.len() ==> #[trigger] kept_at(s, t, i),
        sized(s, sizes),
    ensures
        sized(t, sizes),
{
    assert forall|i: int| 0 <= i < t.len() implies #[trigger] sized_at(t, sizes, i) by {
        assert(kept_at(s, t, i));
        assert(sized_at(s, sizes, i));
    }
}

/// Whether every child of the slot, hidden or not, lies where its anchors
/// and margins put it within the bounds of the slot.
pub open spec fn children_anchored(
    s: Seq<SlotView>,
    slot_id: SlotId,
    sizes: Map<SlotId, Dimensions>,
) -> bool {
    forall|k: int|
        0 <= k < s[slot_id.0 as int].children.len() ==> (
        #[trigger] s[s[slot_id.0 as int].children[k].0 as int]).bounds == placed(
            s[slot_id.0 as int].bounds.size,
            s[s[slot_id.0 as int].children[k].0 as int].info,
            sizes[s[slot_id.0 as int].children[k]],
        )
}

/// Puts every child of the slot, hidden or not, where its anchors and
/// margins put it within the bounds of the slot.
pub fn anchor_children(slots: &mut Slots, slot_id: SlotId, cache: &MinimumSizeCache)
    requires
        old(slots).wf(),
        old(slots).contains(slot_id),
        children_sized(old(slots)@, slot_id, cache@),
    ensures
        rearranged(old(slots)@, final(slots)@, slot_id),
        children_anchored(final(slots)@, slot_id, cache@),
        final(slots).is_dirty() == (old(slots).is_dirty() || old(slots)@[slot_id.0 as int].children.len() > 0),
{
    let size = slots.bounds(slot_id).size;
    let count = slots.children(slot_id).len();
    let ghost before = slots@;
    let ghost children = before[slot_id.0 as int].children;
    let mut k: usize = 0;
    while k < count
        invariant
            crate::slots::is_tree(before),
            slot_id.0 < before.len(),
            children == before[slot_id.0 as int].children,
            count == children.len(),
            children_sized(before, slot_id, cache@),
            size == before[slot_id.0 as int].bounds.size,
            0 <= k <= count,
            slots.is_dirty() == (old(slots).is_dirty() || k > 0),
            rearranged(before, slots@, slot_id),
            forall|j: int|
                0 <= j < k ==> (#[trigger] slots@[children[j].0 as int]).bounds == placed(
                    size,
                    before[children[j].0 as int].info,
                    cache@[children[j]],
                ),
        decreases count - k,
    {
        proof {
            assert(rearranged_at(before, slots@, slot_id, slot_id.0 as int));
            assert(child_linked(before, slot_id.0 as int, k as int));
        }
        let child = slots.children(slot_id)[k];
        proof {
            assert(child == children[k as int]);
            assert(cache@.contains_key(children[k as int]));
            assert(rearranged_at(before, slots@, slot_id, child.0 as int));
        }
        let minimum_size = cache.get(child).unwrap();
        let bounds = anchored_bounds(size, slots.info(child), minimum_size);
        let ghost previous = slots@;
        slots.set_bounds(child, bounds);
        proof {
            assert forall|i: int| 0 <= i < before.len() implies #[trigger] rearranged_at(
                before,
                slots@,
                slot_id,
                i,
            ) by {
                assert(rearranged_at(before, previous, slot_id, i));
            }
            assert forall|j: int| 0 <= j < k + 1 implies (
            #[trigger] slots@[children[j].0 as int]).bounds == placed(
                size,
                before[children[j].0 as int].info,
                cache@[children[j]],
            ) by {
                if j < k {
                    assert(crate::slots::ascending(children));
                    assert(children[j].0 < children[k as int].0);
                    assert(previous[children[j].0 as int].bounds == placed(
                        size,
                        before[children[j].0 as int].info,
                        cache@[children[j]],
                    ));
                }
            }
        }
        k = k + 1;
    }
    proof {
        let after = slots@;
        assert(rearranged_at(before, after, slot_id, slot_id.0 as int));
        if slot_id.0 > 0 {
            assert(crate::slots::parent_precedes(before, slot_id.0 as int));
        }
        assert(after[slot_id.0 as int].bounds.size == size);
        assert forall|j: int| 0 <= j < after[slot_id.0 as int].children.len() implies (
        #[trigger] after[after[slot_id.0 as int].children[j].0 as int]).bounds == placed(
            after[slot_id.0 as int].bounds.size,
            after[after[slot_id.0 as int].children[j].0 as int].info,
            cache@[after[slot_id.0 as int].children[j]],
        ) by {
            assert(child_linked(before, slot_id.0 as int, j));
            assert(rearranged_at(before, after, slot_id, children[j].0 as int));
            assert(after[children[j].0 as int].bounds == placed(
                size,
                before[children[j].0 as int].info,
                cache@[children[j]],
            ));
        }
    }
}

} // verus!
