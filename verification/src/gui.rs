//! The tree of one host: its slots, its widgets, and the focus.

use crate::anchor::{Anchor, ANCHOR_WHOLE};
use crate::focus::{
    child_in_turn, climb, holds_focus, lemma_next_focus_hit, next_focus, search,
    search_children, search_siblings, sibling_in_turn,
};
use crate::geometry::{Bounds, Dimensions};
use crate::slots::{
    below, child_in_dispatch, child_linked, grown, grown_at, is_tree, later_sibling,
    lemma_grown_reflexive, lemma_reached_no_later_grown, reached_no_later,
    lemma_grown_transitive, lemma_rearranged_tree, lemma_siblings_apart, lemma_within_grown,
    lemma_within_later, lemma_within_parent, lemma_within_root, lemma_within_same_links,
    lemma_within_some_child, listed_by_parent, parent_precedes, rearranged, rearranged_at,
    within, GrowDirection, SlotId, SlotInfo, SlotView, Slots, WidgetId,
};
use crate::placement::{
    anchor_children, anchored_at, hints, kept_at, laid_out, lemma_kept_same_links,
    lemma_kept_sized, placed, sized, sized_at,
};
use crate::signal::{ProcessEventResult, Signal};
use crate::sizes::MinimumSizeCache;
use crate::theme::{SlotStyle, Theme};
use crate::walk::{
    all_visible, descends_from, draw_order, inherited_context, keep_context,
    lemma_shown_not_concealed,
    lemma_shown_up_to_parent, lemma_walk, lemma_walk_complete, shown_up_to, walk,
};
use crate::widget::{
    enter_slot, leave_slot, shifted, Context, DrawArgs, InputEvent, LayoutChildrenArgs,
    MinimumSizeArgs, ProcessEventArgs, Widget,
};
use std::collections::HashMap;
use std::marker::PhantomData;
use vstd::hash_map::StringHashMap;
use vstd::prelude::*;

verus! {

/// The direction in which the focus moves from one slot to another.
#[derive(Debug, Clone, Copy, PartialEq, Eq, Structural)]
pub enum CycleFocusDirection {
    Previous,
    Next,
}

/// The handle of a widget that a tree holds.
pub struct WidgetHandle<C: Context, W: Widget<C>> {
    widget_id: WidgetId,
    phantom: PhantomData<(C, W)>,
}

impl<C: Context, W: Widget<C>> WidgetHandle<C, W> {
    /// The identity of the widget.
    pub closed spec fn id(&self) -> WidgetId {
        self.widget_id
    }

    /// The identity of the widget.
    pub fn widget_id(&self) -> (widget_id: WidgetId)
        ensures
            widget_id == self.id(),
    {
        self.widget_id
    }
}

impl<C: Context, W: Widget<C>> Clone for WidgetHandle<C, W> {
    fn clone(&self) -> (handle: Self)
        ensures
            handle.id() == self.id(),
    {
        WidgetHandle { widget_id: self.widget_id, phantom: PhantomData }
    }
}

impl<C: Context, W: Widget<C>> Copy for WidgetHandle<C, W> {

}

/// A copy of a list of identities.
fn copy_ids(ids: &Vec<SlotId>) -> (copy: Vec<SlotId>)
    ensures
        copy@ == ids@,
{
    let mut copy: Vec<SlotId> = Vec::new();
    let mut k: usize = 0;
    while k < ids.len()
        invariant
            0 <= k <= ids.len(),
            copy@ == ids@.take(k as int),
        decreases ids.len() - k,
    {
        copy.push(ids[k]);
        proof {
            assert(ids@.take(k + 1) =~= ids@.take(k as int).push(ids@[k as int]));
        }
        k = k + 1;
    }
    proof {
        assert(ids@.take(k as int) =~= ids@);
    }
    copy
}

/// The signals of a widget under the identity of its slot, in their order.
pub open spec fn tagged(slot_id: SlotId, emitted: Seq<Signal>) -> Seq<(SlotId, Signal)> {
    emitted.map_values(|signal: Signal| (slot_id, signal))
}

/// Every signal that a widget emits comes back under the identity of the
/// slot of the widget, and the signals of one widget come back in the order
/// in which it has emitted them.
pub proof fn lemma_tagged(slot_id: SlotId, emitted: Seq<Signal>)
    ensures
        tagged(slot_id, emitted).len() == emitted.len(),
        forall|k: int|
            0 <= k < emitted.len() ==> #[trigger] tagged(slot_id, emitted)[k] == (
                slot_id,
                emitted[k],
            ),
{
}

/// Whether the signals from `from` on stand in the order in which the
/// event has come to the slots of their widgets.
pub open spec fn in_order_of_dispatch(
    s: Seq<SlotView>,
    signals: Seq<(SlotId, Signal)>,
    from: int,
) -> bool {
    forall|k1: int, k2: int|
        from <= k1 < k2 < signals.len() ==> reached_no_later(
            s,
            (#[trigger] signals[k1]).0,
            (#[trigger] signals[k2]).0,
        )
}

/// Whether the slot lies within one of the children from `from` on.
pub open spec fn below_visited(
    s: Seq<SlotView>,
    children: Seq<SlotId>,
    from: int,
    slot_id: SlotId,
) -> bool {
    exists|j: int| from <= j < children.len() && within(s, slot_id, #[trigger] children[j])
}

/// A tree of slots with the widgets bound to them.
#[verifier::reject_recursive_types(C)]
pub struct Gui<C: Context, W: Widget<C>> {
    pub slots: Slots,
    widgets: Vec<W>,
    slot_style_overrides: HashMap<u32, StringHashMap<C::StyleFieldValue>>,
    root_slot_id: SlotId,
    focused_slot_id: Option<SlotId>,
    dirty: bool,
}

/// The widget of slot `i`, if the slot has one, is among `widgets` many.
pub open spec fn widget_known(s: Seq<SlotView>, widgets: int, i: int) -> bool {
    match s[i].widget_id {
        Some(widget_id) => widget_id.0 < widgets,
        None => true,
    }
}

impl<C: Context, W: Widget<C>> Gui<C, W> {
    /// The arena of the slots.
    pub closed spec fn tree(&self) -> Slots {
        self.slots
    }

    /// The widgets, by identity.
    pub closed spec fn widgets(&self) -> Seq<W> {
        self.widgets@
    }

    /// The root of the tree.
    pub closed spec fn root(&self) -> SlotId {
        self.root_slot_id
    }

    /// The slot that holds the focus, if any.
    pub closed spec fn focus(&self) -> Option<SlotId> {
        self.focused_slot_id
    }

    /// Whether a widget was handed out for change since the last layout.
    pub closed spec fn is_dirty(&self) -> bool {
        self.dirty
    }

    /// The tables of style overrides, by the number of the slot.
    pub closed spec fn override_tables(&self) -> Map<u32, StringHashMap<C::StyleFieldValue>> {
        self.slot_style_overrides@
    }

    /// The style overrides of a slot, by field name.
    pub open spec fn style_overrides(&self, slot_id: SlotId) -> Map<Seq<char>, C::StyleFieldValue> {
        if self.override_tables().contains_key(slot_id.0) {
            self.override_tables()[slot_id.0]@
        } else {
            Map::empty()
        }
    }

    /// Whether the bounds of the slots may be out of date.
    pub open spec fn needs_layout(&self) -> bool {
        self.is_dirty() || self.tree().is_dirty()
    }

    /// Whether the slot carries a widget that can hold the focus.
    pub open spec fn can_focus(&self, slot_id: SlotId) -> bool {
        match self.tree()@[slot_id.0 as int].widget_id {
            Some(widget_id) => widget_id.0 < self.widgets().len()
                && self.widgets()[widget_id.0 as int].focusable(),
            None => false,
        }
    }

    /// Of each slot, whether it carries a widget that can hold the focus.
    pub open spec fn focus_flags(&self) -> Seq<bool> {
        Seq::new(self.tree()@.len(), |i: int| self.can_focus(SlotId(i as u32)))
    }

    /// Whether the slots form a tree under the root, every slot that names a
    /// widget names one that the tree holds, and the focus is on a slot of
    /// the tree, if anywhere.
    pub open spec fn wf(&self) -> bool {
        &&& self.tree().wf()
        &&& self.root() == SlotId(0)
        &&& self.widgets().len() <= u32::MAX
        &&& forall|i: int|
            0 <= i < self.tree()@.len() ==> #[trigger] widget_known(
                self.tree()@,
                self.widgets().len() as int,
                i,
            )
        &&& match self.focus() {
            Some(focused) => self.tree().contains(focused),
            None => true,
        }
    }

    /// A tree that holds nothing but its root. The root covers its parent
    /// from edge to edge, is of no size yet, and will not be laid out smaller
    /// than the size of `root_bounds`.
    pub fn new(root_bounds: Bounds) -> (gui: Gui<C, W>)
        ensures
            gui.wf(),
            gui.needs_layout(),
            gui.tree()@.len() == 1,
            gui.tree()@[0].info.is_plain(0, ANCHOR_WHOLE as int),
            gui.tree()@[0].info.minimum_size == root_bounds.size,
            gui.tree()@[0].bounds == (Bounds {
                x: 0,
                y: 0,
                size: Dimensions { width: 0, height: 0 },
            }),
            gui.tree()@[0].widget_id is None,
            gui.tree()@[0].children.len() == 0,
            gui.widgets().len() == 0,
            gui.focus() is None,
            gui.override_tables() == Map::<u32, StringHashMap<C::StyleFieldValue>>::empty(),
    {
        let info = SlotInfo {
            hidden: false,
            minimum_size: root_bounds.size,
            expand_x: false,
            expand_y: false,
            grow_x: GrowDirection::End,
            grow_y: GrowDirection::End,
            anchor_left: Anchor::zero(),
            anchor_right: Anchor::one(),
            anchor_top: Anchor::zero(),
            anchor_bottom: Anchor::one(),
            margin_left: 0,
            margin_right: 0,
            margin_top: 0,
            margin_bottom: 0,
        };
        let gui = Gui {
            slots: Slots::with_root(info),
            widgets: Vec::new(),
            slot_style_overrides: HashMap::new(),
            root_slot_id: SlotId(0),
            focused_slot_id: None,
            dirty: true,
        };
        assert(widget_known(gui.tree()@, 0, 0));
        gui
    }

    /// The root of the tree.
    pub fn root_slot_id(&self) -> (root: SlotId)
        ensures
            root == self.root(),
    {
        self.root_slot_id
    }

    /// The arena of the slots.
    pub fn slots(&self) -> (slots: &Slots)
        ensures
            *slots == self.tree(),
    {
        &self.slots
    }

    /// The arena of the slots, for change.
    pub fn slots_mut(&mut self) -> (slots: &mut Slots)
        ensures
            *slots == old(self).tree(),
            final(self).tree() == *final(slots),
            final(self).widgets() == old(self).widgets(),
            final(self).root() == old(self).root(),
            final(self).focus() == old(self).focus(),
            final(self).is_dirty() == old(self).is_dirty(),
            final(self).override_tables() == old(self).override_tables(),
    {
        &mut self.slots
    }

    /// The number of widgets that the tree holds.
    pub fn widget_count(&self) -> (count: usize)
        ensures
            count == self.widgets().len(),
    {
        self.widgets.len()
    }

    /// Takes a widget into the tree, bound to no slot yet.
    pub fn add_widget(&mut self, widget: W) -> (widget_id: WidgetId)
        requires
            old(self).widgets().len() < u32::MAX,
        ensures
            widget_id.0 == old(self).widgets().len(),
            final(self).widgets() == old(self).widgets().push(widget),
            final(self).tree() == old(self).tree(),
            final(self).root() == old(self).root(),
            final(self).focus() == old(self).focus(),
            final(self).is_dirty() == old(self).is_dirty(),
            final(self).override_tables() == old(self).override_tables(),
            old(self).wf() ==> final(self).wf(),
    {
        let widget_id = WidgetId(self.widgets.len() as u32);
        self.widgets.push(widget);
        proof {
            if old(self).wf() {
                assert forall|i: int| 0 <= i < self.tree()@.len() implies #[trigger] widget_known(
                    self.tree()@,
                    self.widgets().len() as int,
                    i,
                ) by {
                    assert(widget_known(old(self).tree()@, old(self).widgets().len() as int, i));
                }
            }
        }
        widget_id
    }

    /// Appends a new leaf under `parent_id`, takes the widget into the tree
    /// and binds it to the leaf.
    pub fn add_slot_with_widget(
        &mut self,
        parent_id: SlotId,
        slot_info: SlotInfo,
        widget: W,
    ) -> (added: (SlotId, WidgetHandle<C, W>))
        requires
            old(self).tree().contains(parent_id),
            old(self).tree()@.len() < u32::MAX,
            old(self).widgets().len() < u32::MAX,
        ensures
            added.0 == SlotId(old(self).tree()@.len() as u32),
            added.1.id() == WidgetId(old(self).widgets().len() as u32),
            final(self).tree()@ == crate::slots::with_widget(
                crate::slots::with_leaf(old(self).tree()@, parent_id, slot_info),
                added.0,
                added.1.id(),
            ),
            final(self).widgets() == old(self).widgets().push(widget),
            final(self).needs_layout(),
            final(self).root() == old(self).root(),
            final(self).focus() == old(self).focus(),
            final(self).override_tables() == old(self).override_tables(),
            old(self).wf() ==> final(self).wf(),
    {
        let slot_id = self.slots.add(parent_id, slot_info);
        let widget_id = self.add_widget(widget);
        let ghost grown = self.slots@;
        self.slots.bind_widget(slot_id, widget_id);
        proof {
            if old(self).wf() {
                let s = old(self).tree()@;
                let t = self.tree()@;
                assert(is_tree(grown));
                assert(crate::slots::same_links(grown, t)) by {
                    assert forall|i: int|
                        0 <= i < grown.len() implies #[trigger] crate::slots::same_links_at(
                        grown,
                        t,
                        i,
                    ) by {}
                }
                crate::slots::lemma_same_links_tree(grown, t);
                assert forall|i: int| 0 <= i < t.len() implies #[trigger] widget_known(
                    t,
                    self.widgets().len() as int,
                    i,
                ) by {
                    if i < s.len() {
                        assert(widget_known(s, old(self).widgets().len() as int, i));
                    }
                }
            }
        }
        (slot_id, WidgetHandle { widget_id, phantom: PhantomData })
    }

    /// The widget behind a handle.
    pub fn get_widget(&self, handle: WidgetHandle<C, W>) -> (widget: &W)
        requires
            handle.id().0 < self.widgets().len(),
        ensures
            *widget == self.widgets()[handle.id().0 as int],
    {
        &self.widgets[handle.widget_id.0 as usize]
    }

    /// The widget behind a handle, for change. The layout counts as out of
    /// date from then on, whatever the caller does with the widget.
    pub fn get_widget_mut(&mut self, handle: WidgetHandle<C, W>) -> (widget: &mut W)
        requires
            handle.id().0 < old(self).widgets().len(),
        ensures
            *widget == old(self).widgets()[handle.id().0 as int],
            final(self).widgets() == old(self).widgets().update(
                handle.id().0 as int,
                *final(widget),
            ),
            final(self).is_dirty(),
            final(self).tree() == old(self).tree(),
            final(self).root() == old(self).root(),
            final(self).focus() == old(self).focus(),
            final(self).override_tables() == old(self).override_tables(),
    {
        self.dirty = true;
        &mut self.widgets[handle.widget_id.0 as usize]
    }

    /// Overrides one style field of one slot.
    pub fn override_slot_style(
        &mut self,
        slot_id: SlotId,
        field_name: &str,
        value: C::StyleFieldValue,
    )
        ensures
            final(self).style_overrides(slot_id) == old(self).style_overrides(slot_id).insert(
                field_name@,
                value,
            ),
            forall|other: SlotId|
                other != slot_id ==> #[trigger] final(self).style_overrides(other)
                    == old(self).style_overrides(other),
            final(self).tree() == old(self).tree(),
            final(self).widgets() == old(self).widgets(),
            final(self).root() == old(self).root(),
            final(self).focus() == old(self).focus(),
            final(self).is_dirty() == old(self).is_dirty(),
    {
        let mut table = match self.slot_style_overrides.remove(&slot_id.0) {
            Some(table) => table,
            None => StringHashMap::new(),
        };
        table.insert(field_name.to_owned(), value);
        self.slot_style_overrides.insert(slot_id.0, table);
    }

    /// Whether the slot carries a widget that can hold the focus.
    fn slot_takes_focus(&self, slot_id: SlotId) -> (takes: bool)
        requires
            self.wf(),
            self.tree().contains(slot_id),
        ensures
            takes == self.can_focus(slot_id),
            takes == self.focus_flags()[slot_id.0 as int],
    {
        proof {
            assert(widget_known(self.tree()@, self.widgets().len() as int, slot_id.0 as int));
        }
        match self.slots.widget_id(slot_id) {
            Some(widget_id) => self.widgets[widget_id.0 as usize].takes_focus(),
            None => false,
        }
    }

    /// The first slot that can hold the focus in the visible part of the
    /// subtree of `slot_id`, or the last one in reverse.
    fn find_focusable_recursive(&self, slot_id: SlotId, reverse: bool) -> (found: Option<SlotId>)
        requires
            self.wf(),
            self.tree().contains(slot_id),
        ensures
            found == search(self.tree()@, self.focus_flags(), slot_id, reverse),
            match found {
                Some(hit) => self.tree().contains(hit) && self.can_focus(hit),
                None => true,
            },
        decreases self.tree()@.len() - slot_id.0,
    {
        if self.slots.info(slot_id).hidden {
            return None;
        }
        let takes = self.slot_takes_focus(slot_id);
        if !reverse && takes {
            return Some(slot_id);
        }
        let children = self.slots.children(slot_id);
        let count = children.len();
        let mut examined: usize = 0;
        while examined < count
            invariant
                self.wf(),
                self.tree().contains(slot_id),
                children@ == self.tree()@[slot_id.0 as int].children,
                count == children.len(),
                0 <= examined <= count,
                !self.tree()@[slot_id.0 as int].info.hidden,
                takes == self.focus_flags()[slot_id.0 as int],
                !reverse ==> !takes,
                search_children(self.tree()@, self.focus_flags(), slot_id, 0, reverse)
                    == search_children(
                    self.tree()@,
                    self.focus_flags(),
                    slot_id,
                    examined as int,
                    reverse,
                ),
            decreases count - examined,
        {
            let turn = if reverse {
                count - 1 - examined
            } else {
                examined
            };
            let child = children[turn];
            proof {
                assert(child_linked(self.tree()@, slot_id.0 as int, turn as int));
                assert(child == child_in_turn(self.tree()@, slot_id, examined as int, reverse));
            }
            match self.find_focusable_recursive(child, reverse) {
                Some(found) => {
                    return Some(found);
                },
                None => {},
            }
            examined = examined + 1;
        }
        if reverse && takes {
            Some(slot_id)
        } else {
            None
        }
    }

    /// The place of a child in the child list of its parent.
    fn position_in_parent(&self, parent: SlotId, child: SlotId) -> (position: usize)
        requires
            self.wf(),
            self.tree().contains(child),
            self.tree()@[child.0 as int].parent == Some(parent),
        ensures
            position < self.tree()@[parent.0 as int].children.len(),
            position == self.tree()@[parent.0 as int].children.index_of(child),
            self.tree().contains(parent),
            parent.0 < child.0,
    {
        proof {
            assert(child.0 > 0);
            assert(parent_precedes(self.tree()@, child.0 as int));
            assert(listed_by_parent(self.tree()@, child.0 as int));
            assert(SlotId(child.0 as int as u32) == child);
        }
        let children = self.slots.children(parent);
        let ghost at = children@.index_of(child);
        proof {
            assert(crate::slots::ascending(children@));
            assert(0 <= at < children@.len() && children@[at] == child);
        }
        let count = children.len();
        let mut position: usize = 0;
        while children[position] != child
            invariant
                count == children@.len(),
                parent.0 < self.tree()@.len(),
                children@ == self.tree()@[parent.0 as int].children,
                crate::slots::ascending(children@),
                0 <= at < children@.len(),
                children@[at] == child,
                0 <= position <= at,
            decreases at - position,
        {
            proof {
                assert(children@[position as int] != child);
            }
            position = position + 1;
        }
        position
    }

    /// The first hit among the siblings that follow, or precede, the child
    /// at `position` of `parent`.
    fn find_among_siblings(&self, parent: SlotId, position: usize, forward: bool) -> (found: Option<
        SlotId,
    >)
        requires
            self.wf(),
            self.tree().contains(parent),
            position < self.tree()@[parent.0 as int].children.len(),
        ensures
            found == search_siblings(
                self.tree()@,
                self.focus_flags(),
                parent,
                position as int,
                0,
                forward,
            ),
            match found {
                Some(hit) => self.tree().contains(hit) && self.can_focus(hit),
                None => true,
            },
    {
        let children = self.slots.children(parent);
        let count = children.len();
        let candidates = if forward {
            count - 1 - position
        } else {
            position
        };
        let mut examined: usize = 0;
        while examined < candidates
            invariant
                self.wf(),
                self.tree().contains(parent),
                children@ == self.tree()@[parent.0 as int].children,
                count == children.len(),
                position < count,
                candidates == if forward {
                    count - 1 - position
                } else {
                    position as int
                },
                0 <= examined <= candidates,
                search_siblings(
                    self.tree()@,
                    self.focus_flags(),
                    parent,
                    position as int,
                    0,
                    forward,
                ) == search_siblings(
                    self.tree()@,
                    self.focus_flags(),
                    parent,
                    position as int,
                    examined as int,
                    forward,
                ),
            decreases candidates - examined,
        {
            let turn = if forward {
                position + 1 + examined
            } else {
                position - 1 - examined
            };
            let candidate = children[turn];
            proof {
                assert(child_linked(self.tree()@, parent.0 as int, turn as int));
                assert(turn == sibling_in_turn(position as int, examined as int, forward));
            }
            match self.find_focusable_recursive(candidate, false) {
                Some(found) => {
                    return Some(found);
                },
                None => {},
            }
            examined = examined + 1;
        }
        None
    }

    /// The first hit on the way up from `start`.
    fn find_above(&self, start: SlotId, forward: bool) -> (found: Option<SlotId>)
        requires
            self.wf(),
            self.tree().contains(start),
        ensures
            found == climb(self.tree()@, self.focus_flags(), start, forward),
            match found {
                Some(hit) => self.tree().contains(hit) && self.can_focus(hit),
                None => true,
            },
    {
        let mut current = start;
        let mut found: Option<SlotId> = None;
        let mut climbing = true;
        while climbing
            invariant
                self.wf(),
                self.tree().contains(current),
                climb(self.tree()@, self.focus_flags(), start, forward) == if climbing {
                    climb(self.tree()@, self.focus_flags(), current, forward)
                } else {
                    found
                },
                match found {
                    Some(hit) => self.tree().contains(hit) && self.can_focus(hit),
                    None => true,
                },
            decreases current.0 + if climbing { 1int } else { 0int },
        {
            match self.slots.parent(current) {
                Some(parent) => {
                    let position = self.position_in_parent(parent, current);
                    found = self.find_among_siblings(parent, position, forward);
                    if found.is_some() {
                        climbing = false;
                    } else {
                        current = parent;
                    }
                },
                None => {
                    found = None;
                    climbing = false;
                },
            }
        }
        found
    }

    /// Moves the focus to the next slot that can hold it, or to the previous
    /// one. From the focused slot the way goes up through its ancestors: at
    /// each, the siblings behind (or before) the way are searched, nearest
    /// first, and the first hit takes the focus. Without a focused slot, or
    /// without a hit, the whole tree is searched from the root.
    pub fn cycle_focus(&mut self, direction: CycleFocusDirection)
        requires
            old(self).wf(),
        ensures
            final(self).focus() == next_focus(
                old(self).tree()@,
                old(self).focus_flags(),
                old(self).focus(),
                direction == CycleFocusDirection::Next,
            ),
            match final(self).focus() {
                Some(hit) => final(self).can_focus(hit)
                    && !final(self).tree()@[hit.0 as int].info.hidden,
                None => true,
            },
            final(self).wf(),
            final(self).tree() == old(self).tree(),
            final(self).widgets() == old(self).widgets(),
            final(self).root() == old(self).root(),
            final(self).is_dirty() == old(self).is_dirty(),
            final(self).override_tables() == old(self).override_tables(),
    {
        let forward = match direction {
            CycleFocusDirection::Next => true,
            CycleFocusDirection::Previous => false,
        };
        let climbed = match self.focused_slot_id {
            Some(current) => self.find_above(current, forward),
            None => None,
        };
        let found = match climbed {
            Some(hit) => Some(hit),
            None => self.find_focusable_recursive(self.root_slot_id, !forward),
        };
        proof {
            lemma_next_focus_hit(
                self.tree()@,
                self.focus_flags(),
                self.focused_slot_id,
                forward,
            );
        }
        self.focused_slot_id = found;
    }

    /// The first pass of a layout, for the subtree of a slot: the minimum
    /// size of every slot of the subtree, children before parents. A slot
    /// without a widget has its size hint; a slot with a widget has what the
    /// widget asks for, and no less than the hint on either axis.
    fn calculate_minimum_sizes_recursive(
        &self,
        slot_id: SlotId,
        theme: &Theme<C::ThemeResources, C::StyleFieldValue>,
        cache: &mut MinimumSizeCache,
    )
        requires
            self.wf(),
            self.tree().contains(slot_id),
        ensures
            forall|i: int|
                0 <= i < self.tree()@.len() && within(self.tree()@, SlotId(i as u32), slot_id)
                    ==> #[trigger] sized_at(self.tree()@, final(cache)@, i),
            forall|other: SlotId|
                !#[trigger] within(self.tree()@, other, slot_id) ==> final(cache)@.contains_key(
                    other,
                ) == old(cache)@.contains_key(other) && final(cache)@[other] == old(cache)@[other],
        decreases self.tree()@.len() - slot_id.0,
    {
        let ghost s = self.tree()@;
        let ghost first = cache@;
        let children = self.slots.children(slot_id);
        let mut k: usize = 0;
        while k < children.len()
            invariant
                self.wf(),
                s == self.tree()@,
                slot_id.0 < s.len(),
                children@ == s[slot_id.0 as int].children,
                0 <= k <= children.len(),
                forall|i: int, j: int|
                    0 <= i < s.len() && 0 <= j < k && #[trigger] within(
                        s,
                        SlotId(i as u32),
                        children@[j],
                    ) ==> sized_at(s, cache@, i),
                forall|other: SlotId|
                    !#[trigger] within(s, other, slot_id) ==> cache@.contains_key(other)
                        == first.contains_key(other) && cache@[other] == first[other],
            decreases children.len() - k,
        {
            let child = children[k];
            proof {
                assert(child_linked(s, slot_id.0 as int, k as int));
            }
            let ghost middle = cache@;
            self.calculate_minimum_sizes_recursive(child, theme, cache);
            proof {
                assert forall|i: int, j: int|
                    0 <= i < s.len() && 0 <= j < k + 1 && #[trigger] within(
                        s,
                        SlotId(i as u32),
                        children@[j],
                    ) implies sized_at(s, cache@, i) by {
                    if j < k {
                        lemma_siblings_apart(s, SlotId(i as u32), slot_id, j, k as int);
                        assert(cache@[SlotId(i as u32)] == middle[SlotId(i as u32)]);
                        assert(sized_at(s, middle, i));
                    }
                }
                assert forall|other: SlotId| !#[trigger] within(
                    s,
                    other,
                    slot_id,
                ) implies cache@.contains_key(other) == first.contains_key(other) && cache@[other]
                    == first[other] by {
                    if within(s, other, child) {
                        lemma_within_parent(s, other, child, slot_id);
                    }
                }
            }
            k = k + 1;
        }
        proof {
            assert(widget_known(s, self.widgets().len() as int, slot_id.0 as int));
            assert forall|j: int|
                0 <= j < s[slot_id.0 as int].children.len() implies cache@.contains_key(
                #[trigger] s[slot_id.0 as int].children[j],
            ) by {
                assert(child_linked(s, slot_id.0 as int, j));
                let child = s[slot_id.0 as int].children[j];
                assert(within(s, SlotId(child.0 as int as u32), children@[j]));
                assert(sized_at(s, cache@, child.0 as int));
            }
        }
        let hint = self.slots.info(slot_id).minimum_size;
        let minimum_size = match self.slots.widget_id(slot_id) {
            Some(widget_id) => {
                let widget = &self.widgets[widget_id.0 as usize];
                let style = SlotStyle::new(
                    widget.kind_id(),
                    theme,
                    self.slot_style_overrides.get(&slot_id.0),
                );
                let args = MinimumSizeArgs {
                    slots: &self.slots,
                    slot_id,
                    minimum_size_cache: &*cache,
                    resources: theme.resources(),
                    style: &style,
                };
                hint.larger_of(widget.minimum_size(args))
            },
            None => hint,
        };
        let ghost gathered = cache@;
        cache.insert(slot_id, minimum_size);
        proof {
            assert forall|i: int|
                0 <= i < s.len() && within(
                    s,
                    SlotId(i as u32),
                    slot_id,
                ) implies #[trigger] sized_at(s, cache@, i) by {
                if i != slot_id.0 {
                    let j = lemma_within_some_child(s, SlotId(i as u32), slot_id);
                    assert(within(s, SlotId(i as u32), children@[j]));
                    assert(sized_at(s, gathered, i));
                }
            }
            assert(within(s, slot_id, slot_id));
        }
    }

    /// The second pass of a layout, for the subtree of a slot: the bounds of
    /// every slot below it, parents before children. The children of the
    /// slot are first put where their anchors and margins put them; then
    /// the widget of the slot, if it has one, arranges them; then each
    /// child lays out its own subtree.
    fn layout_recursive(&mut self, slot_id: SlotId, cache: &MinimumSizeCache)
        requires
            old(self).wf(),
            old(self).tree().contains(slot_id),
            sized(old(self).tree()@, cache@),
        ensures
            final(self).wf(),
            final(self).tree()@.len() == old(self).tree()@.len(),
            forall|i: int|
                0 <= i < old(self).tree()@.len() ==> #[trigger] kept_at(
                    old(self).tree()@,
                    final(self).tree()@,
                    i,
                ),
            forall|i: int|
                0 <= i < old(self).tree()@.len() && !below(
                    old(self).tree()@,
                    SlotId(i as u32),
                    slot_id,
                ) ==> (#[trigger] final(self).tree()@[i]).bounds == old(self).tree()@[i].bounds,
            forall|c: int|
                0 <= c < old(self).tree()@.len() && below(
                    old(self).tree()@,
                    SlotId(c as u32),
                    slot_id,
                ) ==> #[trigger] anchored_at(old(self).tree()@, final(self).tree()@, cache@, c),
            final(self).widgets() == old(self).widgets(),
            final(self).root() == old(self).root(),
            final(self).focus() == old(self).focus(),
            final(self).is_dirty() == old(self).is_dirty(),
            final(self).override_tables() == old(self).override_tables(),
        decreases old(self).tree()@.len() - slot_id.0,
    {
        let ghost before = self.slots@;
        proof {
            assert forall|k: int|
                0 <= k < before[slot_id.0 as int].children.len() implies cache@.contains_key(
                #[trigger] before[slot_id.0 as int].children[k],
            ) by {
                assert(child_linked(before, slot_id.0 as int, k));
                let child = before[slot_id.0 as int].children[k];
                assert(sized_at(before, cache@, child.0 as int));
                assert(SlotId(child.0 as int as u32) == child);
            }
            assert(widget_known(before, self.widgets().len() as int, slot_id.0 as int));
        }
        anchor_children(&mut self.slots, slot_id, cache);
        let ghost anchored = self.slots@;
        proof {
            lemma_rearranged_tree(before, anchored, slot_id);
            assert(rearranged_at(before, anchored, slot_id, slot_id.0 as int));
        }
        let children = copy_ids(self.slots.children(slot_id));
        match self.slots.widget_id(slot_id) {
            Some(widget_id) => {
                if children.len() > 0 {
                    let args = LayoutChildrenArgs {
                        slots: &mut self.slots,
                        slot_id,
                        minimum_size_cache: cache,
                        phantom: PhantomData,
                    };
                    self.widgets[widget_id.0 as usize].layout_children(args);
                }
            },
            None => {},
        }
        let ghost arranged = self.slots@;
        proof {
            assert(rearranged(anchored, arranged, slot_id));
            lemma_rearranged_tree(anchored, arranged, slot_id);
            assert forall|i: int| 0 <= i < before.len() implies #[trigger] kept_at(
                before,
                arranged,
                i,
            ) by {
                assert(rearranged_at(before, anchored, slot_id, i));
                assert(rearranged_at(anchored, arranged, slot_id, i));
            }
            assert forall|i: int|
                0 <= i < before.len() && !below(before, SlotId(i as u32), slot_id) implies (
            #[trigger] arranged[i]).bounds == before[i].bounds by {
                assert(rearranged_at(before, anchored, slot_id, i));
                assert(rearranged_at(anchored, arranged, slot_id, i));
                if before[i].parent == Some(slot_id) {
                    assert(i > 0);
                    assert(crate::slots::parent_precedes(before, i));
                    assert(within(before, slot_id, slot_id));
                    assert(within(before, SlotId(i as u32), slot_id));
                }
            }
            assert forall|i: int| 0 <= i < before.len() implies #[trigger] widget_known(
                arranged,
                self.widgets().len() as int,
                i,
            ) by {
                assert(widget_known(before, self.widgets().len() as int, i));
                assert(kept_at(before, arranged, i));
            }
            assert forall|k: int| 0 <= k < children@.len() implies #[trigger] anchored_at(
                before,
                arranged,
                cache@,
                children@[k].0 as int,
            ) by {
                assert(child_linked(before, slot_id.0 as int, k));
                assert(kept_at(before, arranged, children@[k].0 as int));
                assert(kept_at(before, arranged, slot_id.0 as int));
                if before[slot_id.0 as int].widget_id is None {
                    assert(arranged == anchored);
                    assert(anchored[anchored[slot_id.0 as int].children[k].0 as int].bounds
                        == placed(
                        anchored[slot_id.0 as int].bounds.size,
                        anchored[anchored[slot_id.0 as int].children[k].0 as int].info,
                        cache@[anchored[slot_id.0 as int].children[k]],
                    ));
                    assert(SlotId(children@[k].0 as int as u32) == children@[k]);
                }
            }
        }
        let mut k: usize = 0;
        while k < children.len()
            invariant
                self.wf(),
                before == old(self).tree()@,
                is_tree(before),
                sized(before, cache@),
                slot_id.0 < before.len(),
                children@ == before[slot_id.0 as int].children,
                0 <= k <= children.len(),
                self.tree()@.len() == before.len(),
                forall|i: int|
                    0 <= i < before.len() ==> #[trigger] kept_at(before, self.tree()@, i),
                forall|i: int|
                    0 <= i < before.len() && !below(before, SlotId(i as u32), slot_id) ==> (
                    #[trigger] self.tree()@[i]).bounds == before[i].bounds,
                forall|j: int|
                    0 <= j < children@.len() ==> #[trigger] anchored_at(
                        before,
                        self.tree()@,
                        cache@,
                        children@[j].0 as int,
                    ),
                forall|c: int, j: int|
                    0 <= c < before.len() && 0 <= j < k && #[trigger] below(
                        before,
                        SlotId(c as u32),
                        children@[j],
                    ) ==> anchored_at(before, self.tree()@, cache@, c),
                self.widgets() == old(self).widgets(),
                self.root() == old(self).root(),
                self.focus() == old(self).focus(),
                self.is_dirty() == old(self).is_dirty(),
                self.override_tables() == old(self).override_tables(),
            decreases children.len() - k,
        {
            let child = children[k];
            let ghost entered = self.tree()@;
            proof {
                assert(child_linked(before, slot_id.0 as int, k as int));
                lemma_kept_sized(before, entered, cache@);
            }
            self.layout_recursive(child, cache);
            proof {
                let left = self.tree()@;
                lemma_kept_same_links(before, entered);
                assert forall|i: int| 0 <= i < before.len() implies #[trigger] kept_at(
                    before,
                    left,
                    i,
                ) by {
                    assert(kept_at(before, entered, i));
                    assert(kept_at(entered, left, i));
                }
                // What has moved lies below the child.
                assert forall|i: int|
                    0 <= i < before.len() && !below(
                        before,
                        SlotId(i as u32),
                        child,
                    ) implies left[i].bounds == entered[i].bounds by {
                    lemma_within_same_links(before, entered, SlotId(i as u32), child);
                    assert(!below(entered, SlotId(i as u32), child));
                }
                assert forall|i: int|
                    0 <= i < before.len() && !below(before, SlotId(i as u32), slot_id) implies (
                #[trigger] left[i]).bounds == before[i].bounds by {
                    if below(before, SlotId(i as u32), child) {
                        lemma_within_parent(before, SlotId(i as u32), child, slot_id);
                        lemma_within_later(before, SlotId(i as u32), child);
                    }
                }
                assert(!below(before, slot_id, child)) by {
                    if within(before, slot_id, child) {
                        lemma_within_later(before, slot_id, child);
                    }
                }
                assert forall|j: int| 0 <= j < children@.len() implies #[trigger] anchored_at(
                    before,
                    left,
                    cache@,
                    children@[j].0 as int,
                ) by {
                    assert(child_linked(before, slot_id.0 as int, j));
                    assert(anchored_at(before, entered, cache@, children@[j].0 as int));
                    assert(SlotId(children@[j].0 as int as u32) == children@[j]);
                    if j != k {
                        assert(within(before, children@[j], children@[j]));
                        lemma_siblings_apart(before, children@[j], slot_id, j, k as int);
                    }
                }
                assert forall|c: int, j: int|
                    0 <= c < before.len() && 0 <= j < k + 1 && #[trigger] below(
                        before,
                        SlotId(c as u32),
                        children@[j],
                    ) implies anchored_at(before, left, cache@, c) by {
                    let parent = before[c].parent.unwrap();
                    assert(c > 0) by {
                        lemma_within_later(before, SlotId(c as u32), children@[j]);
                        assert(child_linked(before, slot_id.0 as int, j));
                    }
                    assert(crate::slots::parent_precedes(before, c));
                    assert(kept_at(before, entered, c));
                    assert(kept_at(before, entered, parent.0 as int));
                    if j < k {
                        assert(anchored_at(before, entered, cache@, c));
                        lemma_siblings_apart(before, SlotId(c as u32), slot_id, j, k as int);
                        assert(within(before, parent, children@[j]));
                        assert(SlotId(parent.0 as int as u32) == parent);
                        lemma_siblings_apart(before, parent, slot_id, j, k as int);
                    } else {
                        lemma_within_same_links(before, entered, SlotId(c as u32), child);
                        assert(below(entered, SlotId(c as u32), child));
                        assert(anchored_at(entered, left, cache@, c));
                    }
                }
            }
            k = k + 1;
        }
        proof {
            assert forall|c: int|
                0 <= c < before.len() && below(
                    before,
                    SlotId(c as u32),
                    slot_id,
                ) implies #[trigger] anchored_at(before, self.tree()@, cache@, c) by {
                let j = lemma_within_some_child(before, SlotId(c as u32), slot_id);
                if SlotId(c as u32) == children@[j] {
                    assert(anchored_at(before, self.tree()@, cache@, children@[j].0 as int));
                } else {
                    assert(below(before, SlotId(c as u32), children@[j]));
                }
            }
        }
    }

    /// Lays the tree out if its bounds may be out of date, and says whether
    /// it did. A layout computes the minimum size of every slot and then the
    /// bounds of every slot; a tree that was laid out and has not changed
    /// since is left as it is.
    pub fn layout_if_needed(
        &mut self,
        theme: &Theme<C::ThemeResources, C::StyleFieldValue>,
    ) -> (performed: bool)
        requires
            old(self).wf(),
        ensures
            performed == old(self).needs_layout(),
            !final(self).needs_layout(),
            !performed ==> *final(self) == *old(self),
            performed ==> exists|sizes: Map<SlotId, Dimensions>|
                sized(old(self).tree()@, sizes) && #[trigger] laid_out(
                    old(self).tree()@,
                    final(self).tree()@,
                    sizes,
                ),
            final(self).tree()@.len() == old(self).tree()@.len(),
            forall|i: int|
                0 <= i < old(self).tree()@.len() ==> #[trigger] kept_at(
                    old(self).tree()@,
                    final(self).tree()@,
                    i,
                ),
            final(self).tree()@[0].bounds == old(self).tree()@[0].bounds,
            performed && old(self).widgetless() ==> laid_out(
                old(self).tree()@,
                final(self).tree()@,
                hints(old(self).tree()@),
            ),
            final(self).wf(),
            final(self).widgets() == old(self).widgets(),
            final(self).root() == old(self).root(),
            final(self).focus() == old(self).focus(),
            final(self).override_tables() == old(self).override_tables(),
    {
        if self.dirty || self.slots.dirty() {
            let mut cache = MinimumSizeCache::new();
            let root = self.root_slot_id;
            self.calculate_minimum_sizes_recursive(root, theme, &mut cache);
            proof {
                let s = self.tree()@;
                assert forall|i: int| 0 <= i < s.len() implies #[trigger] sized_at(
                    s,
                    cache@,
                    i,
                ) by {
                    lemma_within_root(s, SlotId(i as u32));
                }
            }
            self.layout_recursive(root, &cache);
            self.dirty = false;
            self.slots.clear_dirty();
            proof {
                let s = old(self).tree()@;
                let t = self.tree()@;
                assert(!below(s, SlotId(0), root));
                assert forall|c: int| 0 < c < s.len() implies #[trigger] anchored_at(
                    s,
                    t,
                    cache@,
                    c,
                ) by {
                    lemma_within_root(s, SlotId(c as u32));
                    assert(below(s, SlotId(c as u32), root));
                }
                assert(laid_out(s, t, cache@));
                if old(self).widgetless() {
                    assert forall|c: int| 0 < c < s.len() implies #[trigger] anchored_at(
                        s,
                        t,
                        hints(s),
                        c,
                    ) by {
                        assert(anchored_at(s, t, cache@, c));
                        assert(sized_at(s, cache@, c));
                    }
                }
            }
            true
        } else {
            false
        }
    }

    /// Whether the focus is where it was at `focus`, or on a slot that
    /// carries a widget that can hold it.
    pub open spec fn focus_moved_from(&self, focus: Option<SlotId>) -> bool {
        self.focus() == focus || match self.focus() {
            Some(focused) => self.tree().contains(focused) && self.can_focus(focused),
            None => false,
        }
    }

    /// Whether `self` is what the handling of an event can make of `before`:
    /// the tree has grown at most, the widgets are the same in number and
    /// each can hold the focus as before, and the focus has stayed or moved
    /// to a slot whose widget can hold it.
    pub open spec fn handled_from(&self, before: &Self) -> bool {
        &&& self.wf()
        &&& grown(before.tree()@, self.tree()@)
        &&& self.widgets().len() == before.widgets().len()
        &&& forall|i: int|
            0 <= i < self.widgets().len() ==> (#[trigger] self.widgets()[i]).focusable()
                == before.widgets()[i].focusable()
        &&& self.root() == before.root()
        &&& self.is_dirty() == before.is_dirty()
        &&& self.override_tables() == before.override_tables()
        &&& self.focus_moved_from(before.focus())
    }

    /// Whether a signal under this identity was emitted by the widget of
    /// `slot_id` or of a slot below it.
    pub open spec fn emitted_below(&self, tag: SlotId, slot_id: SlotId) -> bool {
        &&& self.tree().contains(tag)
        &&& self.tree()@[tag.0 as int].widget_id is Some
        &&& within(self.tree()@, tag, slot_id)
    }

    /// A signal stays where it was emitted while the tree grows.
    proof fn lemma_emitted_below_kept(&self, before: &Self, tag: SlotId, slot_id: SlotId)
        requires
            grown(before.tree()@, self.tree()@),
            before.emitted_below(tag, slot_id),
        ensures
            self.emitted_below(tag, slot_id),
    {
        assert(grown_at(before.tree()@, self.tree()@, tag.0 as int));
        lemma_within_grown(before.tree()@, self.tree()@, tag, slot_id);
    }

    /// Takes in what the widget of a slot has answered to an event: its
    /// signals are appended to `signals` in their order, each under the
    /// identity of the slot, and the focus goes to the slot if the widget
    /// has asked for it and can hold it.
    pub fn absorb(
        &mut self,
        slot_id: SlotId,
        result: ProcessEventResult,
        signals: &mut Vec<(SlotId, Signal)>,
    )
        requires
            old(self).wf(),
            old(self).tree().contains(slot_id),
        ensures
            final(signals)@ == old(signals)@ + tagged(slot_id, result.signals@),
            final(self).focus() == if result.request_focus && old(self).can_focus(slot_id) {
                Some(slot_id)
            } else {
                old(self).focus()
            },
            final(self).wf(),
            final(self).tree() == old(self).tree(),
            final(self).widgets() == old(self).widgets(),
            final(self).root() == old(self).root(),
            final(self).is_dirty() == old(self).is_dirty(),
            final(self).override_tables() == old(self).override_tables(),
    {
        let ProcessEventResult { request_focus, signals: emitted } = result;
        let ghost first = signals@;
        let ghost under = tagged(slot_id, emitted@);
        for signal in iter: emitted
            invariant
                iter.seq() == emitted@,
                signals@ == first + under.take(iter.index() as int),
                under == tagged(slot_id, emitted@),
        {
            proof {
                assert(under.take(iter.index() + 1) =~= under.take(iter.index() as int).push(
                    (slot_id, signal),
                ));
            }
            signals.push((slot_id, signal));
        }
        proof {
            assert(under.take(emitted@.len() as int) =~= under);
        }
        if request_focus && self.slot_takes_focus(slot_id) {
            self.focused_slot_id = Some(slot_id);
        }
    }

    /// Two steps of handling are one.
    proof fn lemma_handled_transitive(&self, middle: &Self, before: &Self)
        requires
            middle.handled_from(before),
            self.handled_from(middle),
        ensures
            self.handled_from(before),
    {
        lemma_grown_transitive(before.tree()@, middle.tree()@, self.tree()@);
        if self.focus() == middle.focus() && middle.focus() != before.focus() {
            let focused = middle.focus().unwrap();
            assert(grown_at(middle.tree()@, self.tree()@, focused.0 as int));
            assert(widget_known(middle.tree()@, middle.widgets().len() as int, focused.0 as int));
        }
    }

    /// Hands an event to the subtree of a slot: to the children of the slot
    /// first, the last one first, and then to the widget of the slot itself.
    /// On the way down the coordinates of the event are moved into the space
    /// of the slot, and on the way back they are restored. A hidden slot is
    /// passed over with all that is below it: nothing is moved, and no
    /// widget is called. The signals of each widget are appended to
    /// `signals` under the identity of its slot, so that they stand in the
    /// order in which the event has come to the widgets. A widget that asks
    /// for the focus and can hold it takes it.
    pub fn process_event_recursive(
        &mut self,
        slot_id: SlotId,
        theme: &Theme<C::ThemeResources, C::StyleFieldValue>,
        event: &mut C::InputEvent,
        signals: &mut Vec<(SlotId, Signal)>,
    )
        requires
            old(self).wf(),
            old(self).tree().contains(slot_id),
        ensures
            final(self).handled_from(old(self)),
            final(event).offset() == old(event).offset(),
            old(signals)@.is_prefix_of(final(signals)@),
            forall|k: int|
                old(signals)@.len() <= k < final(signals)@.len() ==> final(self).emitted_below(
                    (#[trigger] final(signals)@[k]).0,
                    slot_id,
                ),
            in_order_of_dispatch(final(self).tree()@, final(signals)@, old(signals)@.len() as int),
            old(self).tree()@[slot_id.0 as int].info.hidden ==> *final(self) == *old(self)
                && *final(event) == *old(event) && *final(signals) == *old(signals),
            old(self).widgetless() ==> *final(self) == *old(self)
                && *final(signals) == *old(signals),
            old(self).reaches_no_widget(slot_id) ==> *final(self) == *old(self)
                && *final(signals) == *old(signals),
        decreases u32::MAX - slot_id.0,
    {
        proof {
            lemma_grown_reflexive(self.tree()@);
        }
        if self.slots.info(slot_id).hidden {
            return ;
        }
        let bounds = self.slots.bounds(slot_id);
        let children = copy_ids(self.slots.children(slot_id));
        let ghost entered = self.tree()@;
        let ghost first_signals = signals@;
        let ghost first_list = *signals;
        let ghost first_offset = event.offset();
        // Into the space of the slot, for the children.
        let down = enter_slot(event, bounds);
        let mut visited: usize = 0;
        while visited < children.len()
            invariant
                self.handled_from(old(self)),
                entered == old(self).tree()@,
                is_tree(entered),
                slot_id.0 < entered.len(),
                !entered[slot_id.0 as int].info.hidden,
                children@ == entered[slot_id.0 as int].children,
                0 <= visited <= children.len(),
                event.offset() == shifted(first_offset, down.0, down.1),
                first_signals.is_prefix_of(signals@),
                in_order_of_dispatch(self.tree()@, signals@, first_signals.len() as int),
                forall|k: int|
                    first_signals.len() <= k < signals@.len() ==> #[trigger] below_visited(
                        self.tree()@,
                        children@,
                        children.len() - visited,
                        signals@[k].0,
                    ),
                forall|k: int|
                    first_signals.len() <= k < signals@.len() ==> self.emitted_below(
                        (#[trigger] signals@[k]).0,
                        slot_id,
                    ),
                old(self).widgetless() ==> *self == *old(self) && *signals == first_list,
                old(self).reaches_no_widget(slot_id) ==> *self == *old(self) && *signals
                    == first_list,
            decreases children.len() - visited,
        {
            let child = child_in_dispatch(&children, visited);
            let ghost remaining = children.len() - 1 - visited;
            proof {
                assert(child_linked(entered, slot_id.0 as int, remaining as int));
                if old(self).reaches_no_widget(slot_id) {
                    // What the event reaches from the child, it reaches from
                    // the slot.
                    assert forall|i: int|
                        0 <= i < entered.len() && #[trigger] shown_up_to(
                            entered,
                            SlotId(i as u32),
                            child,
                        ) implies entered[i].widget_id is None by {
                        lemma_shown_up_to_parent(entered, SlotId(i as u32), child, slot_id);
                    }
                }
            }
            let ghost middle = *self;
            let ghost middle_signals = signals@;
            self.process_event_recursive(child, theme, event, signals);
            proof {
                self.lemma_handled_transitive(&middle, old(self));
                assert(grown_at(entered, self.tree()@, child.0 as int));
                assert forall|k: int|
                    first_signals.len() <= k < signals@.len() implies self.emitted_below(
                    (#[trigger] signals@[k]).0,
                    slot_id,
                ) by {
                    if k < middle_signals.len() {
                        assert(signals@[k] == middle_signals[k]);
                        self.lemma_emitted_below_kept(&middle, signals@[k].0, slot_id);
                    } else {
                        lemma_within_parent(self.tree()@, signals@[k].0, child, slot_id);
                    }
                }
                // The signals of the children that the event came to before
                // stand before those of this child.
                let s = middle.tree()@;
                let t = self.tree()@;
                assert forall|k: int|
                    first_signals.len() <= k < signals@.len() implies #[trigger] below_visited(
                    t,
                    children@,
                    remaining,
                    signals@[k].0,
                ) by {
                    if k < middle_signals.len() {
                        assert(signals@[k] == middle_signals[k]);
                        assert(below_visited(s, children@, remaining + 1, signals@[k].0));
                        let j = choose|j: int|
                            remaining + 1 <= j < children@.len() && within(
                                s,
                                signals@[k].0,
                                #[trigger] children@[j],
                            );
                        assert(middle.emitted_below(signals@[k].0, slot_id));
                        lemma_within_grown(s, t, signals@[k].0, children@[j]);
                    } else {
                        assert(self.emitted_below(signals@[k].0, child));
                        assert(within(t, signals@[k].0, children@[remaining]));
                    }
                }
                assert forall|k1: int, k2: int|
                    first_signals.len() <= k1 < k2 < signals@.len() implies reached_no_later(
                    t,
                    (#[trigger] signals@[k1]).0,
                    (#[trigger] signals@[k2]).0,
                ) by {
                    if k2 < middle_signals.len() {
                        assert(signals@[k1] == middle_signals[k1]);
                        assert(signals@[k2] == middle_signals[k2]);
                        assert(middle.emitted_below(signals@[k1].0, slot_id));
                        assert(middle.emitted_below(signals@[k2].0, slot_id));
                        lemma_reached_no_later_grown(s, t, signals@[k1].0, signals@[k2].0);
                    } else if k1 < middle_signals.len() {
                        assert(signals@[k1] == middle_signals[k1]);
                        assert(below_visited(s, children@, remaining + 1, signals@[k1].0));
                        let j = choose|j: int|
                            remaining + 1 <= j < children@.len() && within(
                                s,
                                signals@[k1].0,
                                #[trigger] children@[j],
                            );
                        assert(middle.emitted_below(signals@[k1].0, slot_id));
                        lemma_within_grown(s, t, signals@[k1].0, children@[j]);
                        assert(self.emitted_below(signals@[k2].0, child));
                        assert(child_linked(entered, slot_id.0 as int, j));
                        assert(crate::slots::ascending(children@));
                        assert(grown_at(entered, t, children@[j].0 as int));
                        assert(later_sibling(t, children@[j], child));
                    }
                }
            }
            visited = visited + 1;
        }
        leave_slot(event, down);
        // The widget of the slot itself.
        proof {
            assert(grown_at(entered, self.tree()@, slot_id.0 as int));
            assert(widget_known(self.tree()@, self.widgets().len() as int, slot_id.0 as int));
            if old(self).widgetless() {
                assert(self.tree()@[slot_id.0 as int].widget_id is None);
            }
            if old(self).reaches_no_widget(slot_id) {
                assert(shown_up_to(entered, SlotId(slot_id.0 as int as u32), slot_id));
                assert(self.tree()@[slot_id.0 as int].widget_id is None);
            }
        }
        match self.slots.widget_id(slot_id) {
            Some(widget_id) => {
                let slot_bounds = self.slots.bounds(slot_id);
                let focused = holds_focus(self.focused_slot_id, slot_id);
                let local = Bounds::new(0, 0, slot_bounds.size.width, slot_bounds.size.height);
                let near = enter_slot(event, slot_bounds);
                let ghost middle = *self;
                let ghost middle_signals = signals@;
                let style = SlotStyle::new(
                    self.widgets[widget_id.0 as usize].kind_id(),
                    theme,
                    self.slot_style_overrides.get(&slot_id.0),
                );
                let args = ProcessEventArgs {
                    slots: &mut self.slots,
                    slot_id,
                    bounds: local,
                    event: &mut *event,
                    focused,
                    resources: theme.resources(),
                    style: &style,
                };
                let result = self.widgets[widget_id.0 as usize].process_event(args);
                proof {
                    let s = middle.tree()@;
                    let t = self.tree()@;
                    assert forall|i: int| 0 <= i < t.len() implies #[trigger] widget_known(
                        t,
                        self.widgets().len() as int,
                        i,
                    ) by {
                        if i < s.len() {
                            assert(grown_at(s, t, i));
                            assert(widget_known(s, middle.widgets().len() as int, i));
                        }
                    }
                    if let Some(held) = self.focus() {
                        assert(grown_at(s, t, held.0 as int));
                    }
                    assert(self.handled_from(&middle));
                    self.lemma_handled_transitive(&middle, old(self));
                    assert forall|k: int|
                        first_signals.len() <= k < signals@.len() implies self.emitted_below(
                        (#[trigger] signals@[k]).0,
                        slot_id,
                    ) by {
                        self.lemma_emitted_below_kept(&middle, signals@[k].0, slot_id);
                    }
                    assert(grown_at(s, t, slot_id.0 as int));
                    assert(within(t, slot_id, slot_id));
                    assert forall|k1: int, k2: int|
                        first_signals.len() <= k1 < k2 < signals@.len() implies reached_no_later(
                        t,
                        (#[trigger] signals@[k1]).0,
                        (#[trigger] signals@[k2]).0,
                    ) by {
                        assert(middle.emitted_below(signals@[k1].0, slot_id));
                        assert(middle.emitted_below(signals@[k2].0, slot_id));
                        lemma_reached_no_later_grown(s, t, signals@[k1].0, signals@[k2].0);
                    }
                    // What the children have emitted was emitted below the
                    // slot.
                    assert forall|k: int|
                        first_signals.len() <= k < signals@.len() implies below(
                        t,
                        (#[trigger] signals@[k]).0,
                        slot_id,
                    ) by {
                        assert(below_visited(
                            s,
                            children@,
                            children.len() - visited,
                            signals@[k].0,
                        ));
                        let j = choose|j: int|
                            0 <= j < children@.len() && within(
                                s,
                                signals@[k].0,
                                #[trigger] children@[j],
                            );
                        assert(child_linked(entered, slot_id.0 as int, j));
                        lemma_within_later(s, signals@[k].0, children@[j]);
                        assert(self.emitted_below(signals@[k].0, slot_id));
                    }
                }
                leave_slot(event, near);
                let ghost answered = *self;
                self.absorb(slot_id, result, signals);
                proof {
                    assert(self.handled_from(&answered));
                    self.lemma_handled_transitive(&answered, old(self));
                    lemma_tagged(slot_id, result.signals@);
                    assert forall|k1: int, k2: int|
                        first_signals.len() <= k1 < k2 < signals@.len() implies reached_no_later(
                        self.tree()@,
                        (#[trigger] signals@[k1]).0,
                        (#[trigger] signals@[k2]).0,
                    ) by {
                        if k2 < middle_signals.len() {
                            assert(signals@[k1] == middle_signals[k1]);
                            assert(signals@[k2] == middle_signals[k2]);
                        } else {
                            assert(signals@[k2] == tagged(slot_id, result.signals@)[k2
                                - middle_signals.len()]);
                            if k1 < middle_signals.len() {
                                assert(signals@[k1] == middle_signals[k1]);
                            } else {
                                assert(signals@[k1] == tagged(slot_id, result.signals@)[k1
                                    - middle_signals.len()]);
                            }
                        }
                    }
                }
            },
            None => {},
        }
    }

    /// Hands an event to the tree and returns the signals that the widgets
    /// emit, each under the identity of the slot of its widget, in the order
    /// in which the event has come to the widgets: the signals of what is
    /// below a slot before those of the slot, and those of a child that was
    /// added later before those of a child that was added earlier. The
    /// coordinates of the event are left where they were. If the event says
    /// afterwards that the layout is out of date, the tree is laid out anew
    /// on the next occasion.
    pub fn process_event(
        &mut self,
        theme: &Theme<C::ThemeResources, C::StyleFieldValue>,
        event: &mut C::InputEvent,
    ) -> (signals: Vec<(SlotId, Signal)>)
        requires
            old(self).wf(),
        ensures
            final(self).wf(),
            grown(old(self).tree()@, final(self).tree()@),
            final(event).offset() == old(event).offset(),
            final(self).is_dirty() == (old(self).is_dirty() || final(event).is_dirty()),
            final(event).is_dirty() ==> final(self).needs_layout(),
            final(self).widgets().len() == old(self).widgets().len(),
            forall|i: int|
                0 <= i < final(self).widgets().len() ==> (
                #[trigger] final(self).widgets()[i]).focusable()
                    == old(self).widgets()[i].focusable(),
            final(self).root() == old(self).root(),
            final(self).override_tables() == old(self).override_tables(),
            final(self).focus_moved_from(old(self).focus()),
            forall|k: int|
                0 <= k < signals@.len() ==> final(self).tree().contains((#[trigger] signals@[k]).0)
                    && final(self).tree()@[signals@[k].0.0 as int].widget_id is Some,
            in_order_of_dispatch(final(self).tree()@, signals@, 0),
            old(self).tree()@[0].info.hidden || old(self).widgetless() || old(self).draws_nothing() ==> {
                &&& signals@.len() == 0
                &&& final(self).tree() == old(self).tree()
                &&& final(self).widgets() == old(self).widgets()
                &&& final(self).focus() == old(self).focus()
            },
    {
        let mut signals: Vec<(SlotId, Signal)> = Vec::new();
        let root = self.root_slot_id;
        proof {
            if self.draws_nothing() {
                self.lemma_draws_nothing_reaches_none();
            }
        }
        self.process_event_recursive(root, theme, event, &mut signals);
        if event.dirty() {
            self.dirty = true;
        }
        signals
    }

    /// Whether no slot carries a widget.
    pub open spec fn widgetless(&self) -> bool {
        forall|i: int|
            0 <= i < self.tree()@.len() ==> (#[trigger] self.tree()@[i]).widget_id is None
    }

    /// Whether no slot that an event reaches from `slot_id` carries a widget.
    /// The event reaches the slot and, through slots that are not hidden,
    /// the slots below it that are not hidden.
    pub open spec fn reaches_no_widget(&self, slot_id: SlotId) -> bool {
        forall|i: int|
            0 <= i < self.tree()@.len() && #[trigger] shown_up_to(
                self.tree()@,
                SlotId(i as u32),
                slot_id,
            ) ==> self.tree()@[i].widget_id is None
    }

    /// An event reaches from the root the slots that are drawn: where none of
    /// these carries a widget, an event reaches no widget.
    pub proof fn lemma_draws_nothing_reaches_none(&self)
        requires
            self.tree().wf(),
            self.draws_nothing(),
        ensures
            self.reaches_no_widget(SlotId(0)),
    {
        let s = self.tree()@;
        assert forall|i: int|
            0 <= i < s.len() && #[trigger] shown_up_to(
                s,
                SlotId(i as u32),
                SlotId(0),
            ) implies s[i].widget_id is None by {
            lemma_shown_not_concealed(s, SlotId(i as u32));
            lemma_walk_complete(s, SlotId(i as u32));
            let k = choose|k: int|
                0 <= k < walk(s).len() && (#[trigger] walk(s)[k]).slot_id == SlotId(i as u32);
            assert(s[walk(s)[k].slot_id.0 as int].widget_id is None);
        }
    }

    /// Whether no slot that is drawn carries a widget.
    pub open spec fn draws_nothing(&self) -> bool {
        forall|k: int|
            0 <= k < walk(self.tree()@).len() ==> self.tree()@[(#[trigger] walk(
                self.tree()@,
            )[k]).slot_id.0 as int].widget_id is None
    }

    /// Draws the tree: the draw commands of the widgets of all slots that are
    /// neither hidden nor below a hidden slot, parents before children and
    /// children in their order. Each widget draws with the bounds of its slot
    /// in the space of the root, and with its own copy of the draw context as
    /// the widget of the nearest slot above left it, so that no widget sees
    /// what a widget beside it has made of the context.
    pub fn draw(
        &self,
        theme: &Theme<C::ThemeResources, C::StyleFieldValue>,
        draw_context: C::DrawContext,
    ) -> (commands: Vec<C::DrawCommand>)
        requires
            self.wf(),
        ensures
            self.draws_nothing() ==> commands@.len() == 0,
    {
        let order = draw_order(&self.slots);
        proof {
            lemma_walk(self.tree()@);
        }
        let mut commands: Vec<C::DrawCommand> = Vec::new();
        let mut contexts: Vec<C::DrawContext> = Vec::new();
        let mut k: usize = 0;
        while k < order.len()
            invariant
                self.wf(),
                order@ == walk(self.tree()@),
                all_visible(self.tree()@, order@),
                descends_from(order@, 0),
                0 <= k <= order.len(),
                contexts.len() == if k == 0 {
                    0
                } else {
                    order[k - 1].depth + 1
                },
                self.draws_nothing() ==> commands@.len() == 0,
            decreases order.len() - k,
        {
            let step = order[k];
            proof {
                if k > 0 {
                    assert(order@[k - 1 + 1].depth <= order@[k - 1].depth + 1);
                }
                assert(widget_known(
                    self.tree()@,
                    self.widgets().len() as int,
                    step.slot_id.0 as int,
                ));
            }
            let mut context = inherited_context(&contexts, step.depth, draw_context);
            match self.slots.widget_id(step.slot_id) {
                Some(widget_id) => {
                    let widget = &self.widgets[widget_id.0 as usize];
                    let style = SlotStyle::new(
                        widget.kind_id(),
                        theme,
                        self.slot_style_overrides.get(&step.slot_id.0),
                    );
                    let focused = holds_focus(self.focused_slot_id, step.slot_id);
                    let args = DrawArgs {
                        bounds: step.bounds,
                        focused,
                        resources: theme.resources(),
                        style: &style,
                        context: &mut context,
                        commands: &mut commands,
                    };
                    widget.draw(args);
                },
                None => {},
            }
            keep_context(&mut contexts, step.depth, context);
            k = k + 1;
        }
        commands
    }

    /// The slot that holds the focus, if any.
    pub fn focused_slot_id(&self) -> (focused: Option<SlotId>)
        ensures
            focused == self.focus(),
    {
        self.focused_slot_id
    }

    /// Puts the focus on a slot whose widget can hold it, or on none.
    pub fn set_focus(&mut self, slot_id: Option<SlotId>)
        requires
            match slot_id {
                Some(focused) => old(self).tree().contains(focused) && old(self).can_focus(
                    focused,
                ),
                None => true,
            },
        ensures
            final(self).focus() == slot_id,
            final(self).tree() == old(self).tree(),
            final(self).widgets() == old(self).widgets(),
            final(self).root() == old(self).root(),
            final(self).is_dirty() == old(self).is_dirty(),
            final(self).override_tables() == old(self).override_tables(),
    {
        self.focused_slot_id = slot_id;
    }
}

} // verus!
