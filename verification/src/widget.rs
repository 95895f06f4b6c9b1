//! What a host and its widgets implement, and what the tree hands a widget on
//! each of its calls.

use crate::geometry::{Bounds, Dimensions};
use crate::placement::children_anchored;
use crate::scalar::{saturated, saturating_negate, Scalar};
use crate::signal::ProcessEventResult;
use crate::sizes::MinimumSizeCache;
use crate::slots::{grown, rearranged, SlotId, SlotView, Slots};
use crate::theme::SlotStyle;
use std::marker::PhantomData;
use vstd::prelude::*;

verus! {

/// The scalar that has the same remainder as `v` by the size of the scalar
/// range: what `v` becomes where scalars wrap around.
pub open spec fn wrapped(v: int) -> int {
    (v + 0x8000_0000) % 0x1_0000_0000 - 0x8000_0000
}

/// An offset moved by `x` and `y`, wrapping around.
pub open spec fn shifted(offset: (Scalar, Scalar), x: Scalar, y: Scalar) -> (Scalar, Scalar) {
    (wrapped(offset.0 + x) as i32, wrapped(offset.1 + y) as i32)
}

/// A wrapped sum differs from the sum by a multiple of the size of the
/// scalar range, and lies in the range.
proof fn lemma_wrapped(v: int)
    requires
        -0x1_0000_0000 <= v < 0x1_0000_0000,
    ensures
        -0x8000_0000 <= wrapped(v) < 0x8000_0000,
        wrapped(v) == v || wrapped(v) == v + 0x1_0000_0000 || wrapped(v) == v - 0x1_0000_0000,
{
    let shifted = v + 0x8000_0000;
    if shifted < 0 {
        vstd::arithmetic::div_mod::lemma_fundamental_div_mod_converse(
            shifted,
            0x1_0000_0000,
            -1,
            shifted + 0x1_0000_0000,
        );
    } else if shifted >= 0x1_0000_0000 {
        vstd::arithmetic::div_mod::lemma_fundamental_div_mod_converse(
            shifted,
            0x1_0000_0000,
            1,
            shifted - 0x1_0000_0000,
        );
    } else {
        vstd::arithmetic::div_mod::lemma_fundamental_div_mod_converse(
            shifted,
            0x1_0000_0000,
            0,
            shifted,
        );
    }
}

/// Moving a scalar by a distance and then by its opposite restores it.
proof fn lemma_wrapped_back(start: int, distance: int)
    requires
        -0x8000_0000 <= start < 0x8000_0000,
        -0x8000_0000 < distance < 0x8000_0000,
    ensures
        wrapped(wrapped(start + distance) - distance) == start,
{
    lemma_wrapped(start + distance);
    let moved = wrapped(start + distance);
    lemma_wrapped(moved - distance);
}

/// Moving an offset by a distance and then by its opposite restores it.
pub proof fn lemma_shift_back(offset: (Scalar, Scalar), x: Scalar, y: Scalar)
    requires
        x > i32::MIN,
        y > i32::MIN,
    ensures
        shifted(shifted(offset, x, y), (-x) as i32, (-y) as i32) == offset,
{
    lemma_wrapped(offset.0 + x);
    lemma_wrapped(offset.1 + y);
    lemma_wrapped_back(offset.0 as int, x as int);
    lemma_wrapped_back(offset.1 as int, y as int);
}

/// An input event of the host.
pub trait InputEvent {
    /// Whether the layout is out of date once the event has been handled.
    spec fn is_dirty(&self) -> bool;

    /// By how much the coordinates of the event have been moved so far, on
    /// each axis, wrapping around.
    spec fn offset(&self) -> (Scalar, Scalar);

    /// Whether the layout is out of date once the event has been handled.
    fn dirty(&self) -> (dirty: bool)
        ensures
            dirty == self.is_dirty(),
    ;

    /// Moves the coordinates of the event by `x` and `y`.
    fn offset_coordinates(&mut self, x: Scalar, y: Scalar)
        ensures
            final(self).offset() == shifted(old(self).offset(), x, y),
    ;
}

/// Moves the coordinates of the event into the space of a slot of the given
/// bounds: back by the origin of the slot, clamped so that the way can be
/// gone back. Returns by how much the coordinates were moved.
pub fn enter_slot<E: InputEvent>(event: &mut E, bounds: Bounds) -> (moved: (Scalar, Scalar))
    ensures
        moved.0 == saturated(-(bounds.x as int)),
        moved.1 == saturated(-(bounds.y as int)),
        moved.0 > i32::MIN,
        moved.1 > i32::MIN,
        final(event).offset() == shifted(old(event).offset(), moved.0, moved.1),
{
    let x = saturating_negate(bounds.x);
    let y = saturating_negate(bounds.y);
    event.offset_coordinates(x, y);
    (x, y)
}

/// Moves the coordinates of the event out of the space of a slot again: by
/// the opposite of what they were moved by on the way in, which puts them
/// where they were before.
pub fn leave_slot<E: InputEvent>(event: &mut E, moved: (Scalar, Scalar))
    requires
        moved.0 > i32::MIN,
        moved.1 > i32::MIN,
    ensures
        final(event).offset() == shifted(old(event).offset(), (-moved.0) as i32, (-moved.1) as i32),
        forall|before: (Scalar, Scalar)|
            old(event).offset() == #[trigger] shifted(before, moved.0, moved.1) ==> final(event).offset() == before,
{
    proof {
        assert forall|before: (Scalar, Scalar)|
            event.offset() == #[trigger] shifted(before, moved.0, moved.1) implies shifted(
            event.offset(),
            (-moved.0) as i32,
            (-moved.1) as i32,
        ) == before by {
            lemma_shift_back(before, moved.0, moved.1);
        }
    }
    event.offset_coordinates(-moved.0, -moved.1);
}

/// The types of one host: what its theme holds, what its widgets draw with,
/// and what its events are.
pub trait Context: 'static {
    type ThemeResources;

    type StyleFieldValue;

    type DrawCommand;

    type DrawContext: Copy;

    type InputEvent: InputEvent;
}

/// What a widget is handed to compute its minimum size.
pub struct MinimumSizeArgs<'a, C: Context> {
    pub slots: &'a Slots,
    pub slot_id: SlotId,
    pub minimum_size_cache: &'a MinimumSizeCache,
    pub resources: &'a C::ThemeResources,
    pub style: &'a SlotStyle<'a, C::ThemeResources, C::StyleFieldValue>,
}

/// What a widget is handed to arrange the children of its slot.
pub struct LayoutChildrenArgs<'a, C: Context> {
    pub slots: &'a mut Slots,
    pub slot_id: SlotId,
    pub minimum_size_cache: &'a MinimumSizeCache,
    pub phantom: PhantomData<C>,
}

/// What a widget is handed to handle an event.
pub struct ProcessEventArgs<'a, C: Context> {
    pub slots: &'a mut Slots,
    pub slot_id: SlotId,
    pub bounds: Bounds,
    pub event: &'a mut C::InputEvent,
    pub focused: bool,
    pub resources: &'a C::ThemeResources,
    pub style: &'a SlotStyle<'a, C::ThemeResources, C::StyleFieldValue>,
}

/// What a widget is handed to draw itself.
pub struct DrawArgs<'a, C: Context> {
    pub bounds: Bounds,
    pub focused: bool,
    pub resources: &'a C::ThemeResources,
    pub style: &'a SlotStyle<'a, C::ThemeResources, C::StyleFieldValue>,
    pub context: &'a mut C::DrawContext,
    pub commands: &'a mut Vec<C::DrawCommand>,
}

/// Whether the cache holds a minimum size for every child of the slot.
pub open spec fn children_sized(
    s: Seq<SlotView>,
    slot_id: SlotId,
    sizes: Map<SlotId, Dimensions>,
) -> bool {
    forall|k: int|
        0 <= k < s[slot_id.0 as int].children.len() ==> sizes.contains_key(
            #[trigger] s[slot_id.0 as int].children[k],
        )
}

/// The behaviour bound to a slot.
pub trait Widget<C: Context> {
    /// Whether the widget can hold the focus. A widget answers the same for
    /// as long as it lives.
    spec fn focusable(&self) -> bool;

    /// The kind of the widget, under which its style is looked up.
    fn kind_id(&self) -> &'static str;

    /// Whether the widget can hold the focus.
    fn takes_focus(&self) -> (takes: bool)
        ensures
            takes == self.focusable(),
    ;

    /// The minimum size that the slot of the widget can shrink to. The cache
    /// holds the minimum sizes of the children of the slot.
    fn minimum_size(&self, args: MinimumSizeArgs<'_, C>) -> (size: Dimensions)
        requires
            args.slots.wf(),
            args.slots.contains(args.slot_id),
            children_sized(args.slots@, args.slot_id, args.minimum_size_cache@),
    ;

    /// Arranges the children of the slot within its bounds. The widget
    /// changes nothing but the bounds of those children. The slot has at
    /// least one child, the cache holds the minimum sizes of them all, and
    /// each of them lies where its anchors and margins put it.
    fn layout_children(&self, args: LayoutChildrenArgs<'_, C>)
        requires
            old(args.slots).wf(),
            old(args.slots).contains(args.slot_id),
            old(args.slots)@[args.slot_id.0 as int].children.len() > 0,
            children_sized(old(args.slots)@, args.slot_id, args.minimum_size_cache@),
            children_anchored(old(args.slots)@, args.slot_id, args.minimum_size_cache@),
        ensures
            rearranged(old(args.slots)@, final(args.slots)@, args.slot_id),
    ;

    /// Handles an event whose coordinates are relative to the slot. The
    /// slot carries a widget, the bounds are those of the slot with their
    /// origin at zero, and the resources are those of the theme in which
    /// the style looks its fields up. The widget leaves the coordinates of
    /// the event where they were.
    fn process_event(&mut self, args: ProcessEventArgs<'_, C>) -> (result: ProcessEventResult)
        requires
            old(args.slots).wf(),
            old(args.slots).contains(args.slot_id),
            old(args.slots)@[args.slot_id.0 as int].widget_id is Some,
            args.bounds == (Bounds {
                x: 0,
                y: 0,
                size: old(args.slots)@[args.slot_id.0 as int].bounds.size,
            }),
            *args.resources == args.style.theme().held_resources(),
        ensures
            grown(old(args.slots)@, final(args.slots)@),
            final(args.event).offset() == old(args.event).offset(),
            final(self).focusable() == old(self).focusable(),
    ;

    /// Draws the widget: appends its draw commands to the list. The
    /// resources are those of the theme in which the style looks its fields
    /// up.
    fn draw(&self, args: DrawArgs<'_, C>)
        requires
            *args.resources == args.style.theme().held_resources(),
        ensures
            old(args.commands)@.is_prefix_of(final(args.commands)@),
    ;
}

} // verus!
