//! The slot tree: an arena of rectangular slots with parent and child links.

use crate::anchor::Anchor;
use crate::geometry::{Bounds, Dimensions};
use crate::scalar::Scalar;
use vstd::prelude::*;

verus! {

/// The identity of a slot: its position in the arena. Identities are handed out
/// in increasing order and never reused.
#[derive(Debug, Clone, Copy, PartialEq, Eq, Hash, Structural)]
pub struct SlotId(pub u32);

/// The identity of a widget held by a tree.
#[derive(Debug, Clone, Copy, PartialEq, Eq, Hash, Structural)]
pub struct WidgetId(pub u32);

/// Which edge of a slot moves when its minimum size exceeds its anchor box.
#[derive(Debug, Clone, Copy, PartialEq, Eq, Structural)]
pub enum GrowDirection {
    Begin,
    End,
    Both,
}

/// The layout metadata of a slot.
pub struct SlotInfo {
    pub hidden: bool,
    pub minimum_size: Dimensions,
    pub expand_x: bool,
    pub expand_y: bool,
    pub grow_x: GrowDirection,
    pub grow_y: GrowDirection,
    pub anchor_left: Anchor,
    pub anchor_right: Anchor,
    pub anchor_top: Anchor,
    pub anchor_bottom: Anchor,
    pub margin_left: Scalar,
    pub margin_right: Scalar,
    pub margin_top: Scalar,
    pub margin_bottom: Scalar,
}

impl SlotInfo {
    /// Whether `self` is the metadata of a visible slot without a size hint,
    /// that does not expand, grows at its end, and has all four anchors at
    /// `left_top` or `right_bottom` parts and no margins.
    pub open spec fn is_plain(self, left_top: int, right_bottom: int) -> bool {
        &&& !self.hidden
        &&& !self.expand_x
        &&& !self.expand_y
        &&& self.grow_x == GrowDirection::End
        &&& self.grow_y == GrowDirection::End
        &&& self.anchor_left.parts() == left_top
        &&& self.anchor_top.parts() == left_top
        &&& self.anchor_right.parts() == right_bottom
        &&& self.anchor_bottom.parts() == right_bottom
        &&& self.margin_left == 0
        &&& self.margin_right == 0
        &&& self.margin_top == 0
        &&& self.margin_bottom == 0
    }
}

impl Default for SlotInfo {
    fn default() -> (r: SlotInfo)
        ensures
            r.is_plain(0, 0),
            r.minimum_size == (Dimensions { width: 0, height: 0 }),
    {
        SlotInfo {
            hidden: false,
            minimum_size: Dimensions::zero(),
            expand_x: false,
            expand_y: false,
            grow_x: GrowDirection::End,
            grow_y: GrowDirection::End,
            anchor_left: Anchor::zero(),
            anchor_right: Anchor::zero(),
            anchor_top: Anchor::zero(),
            anchor_bottom: Anchor::zero(),
            margin_left: 0,
            margin_right: 0,
            margin_top: 0,
            margin_bottom: 0,
        }
    }
}

/// A node of the tree.
pub struct Slot {
    pub info: SlotInfo,
    pub bounds: Bounds,
    pub widget_id: Option<WidgetId>,
    parent: Option<SlotId>,
    children: Vec<SlotId>,
}

/// What a slot holds, links included.
pub struct SlotView {
    pub info: SlotInfo,
    pub bounds: Bounds,
    pub widget_id: Option<WidgetId>,
    pub parent: Option<SlotId>,
    pub children: Seq<SlotId>,
}

impl View for Slot {
    type V = SlotView;

    closed spec fn view(&self) -> SlotView {
        SlotView {
            info: self.info,
            bounds: self.bounds,
            widget_id: self.widget_id,
            parent: self.parent,
            children: self.children@,
        }
    }
}

impl Slot {
    /// The children of the slot, in the order in which they were added.
    pub fn children(&self) -> (r: &[SlotId])
        ensures
            r@ == self@.children,
    {
        self.children.as_slice()
    }

    /// The parent of the slot; the root has none.
    pub fn parent(&self) -> (r: Option<SlotId>)
        ensures
            r == self@.parent,
    {
        self.parent
    }
}

/// Slot `i` names a parent that was added before it.
pub open spec fn parent_precedes(s: Seq<SlotView>, i: int) -> bool {
    match s[i].parent {
        Some(p) => p.0 < i,
        None => false,
    }
}

/// The `k`-th child of slot `i` was added after it and names it as its parent.
pub open spec fn child_linked(s: Seq<SlotView>, i: int, k: int) -> bool {
    let c = s[i].children[k];
    &&& i < c.0 < s.len()
    &&& s[c.0 as int].parent == Some(SlotId(i as u32))
}

/// The identities rise along the sequence.
pub open spec fn ascending(ids: Seq<SlotId>) -> bool {
    forall|a: int, b: int| 0 <= a < b < ids.len() ==> ids[a].0 < ids[b].0
}

/// Slot `c` stands in the child list of the parent it names.
pub open spec fn listed_by_parent(s: Seq<SlotView>, c: int) -> bool {
    match s[c].parent {
        Some(p) => p.0 < s.len() && s[p.0 as int].children.contains(SlotId(c as u32)),
        None => false,
    }
}

/// The slots form a tree rooted at the first slot: every other slot has one
/// parent, added before it, and occurs once in that parent's child list.
pub open spec fn is_tree(s: Seq<SlotView>) -> bool {
    &&& 0 < s.len() <= u32::MAX
    &&& s[0].parent is None
    &&& forall|i: int| 0 < i < s.len() ==> #[trigger] parent_precedes(s, i)
    &&& forall|i: int, k: int|
        0 <= i < s.len() && 0 <= k < s[i].children.len() ==> #[trigger] child_linked(s, i, k)
    &&& forall|i: int| 0 <= i < s.len() ==> ascending(#[trigger] s[i].children)
    &&& forall|c: int| 0 < c < s.len() ==> #[trigger] listed_by_parent(s, c)
}

/// Slot `i` of `t` has the links that it has in `s`.
pub open spec fn same_links_at(s: Seq<SlotView>, t: Seq<SlotView>, i: int) -> bool {
    s[i].parent == t[i].parent && s[i].children == t[i].children
}

/// Both arenas hold the same slots with the same links.
pub open spec fn same_links(s: Seq<SlotView>, t: Seq<SlotView>) -> bool {
    &&& s.len() == t.len()
    &&& forall|i: int| 0 <= i < s.len() ==> #[trigger] same_links_at(s, t, i)
}

/// An arena with the links of a tree is a tree.
pub proof fn lemma_same_links_tree(s: Seq<SlotView>, t: Seq<SlotView>)
    requires
        is_tree(s),
        same_links(s, t),
    ensures
        is_tree(t),
{
    assert(same_links_at(s, t, 0));
    assert forall|i: int| 0 < i < t.len() implies #[trigger] parent_precedes(t, i) by {
        assert(parent_precedes(s, i));
        assert(same_links_at(s, t, i));
    }
    assert forall|i: int, k: int|
        0 <= i < t.len() && 0 <= k < t[i].children.len() implies #[trigger] child_linked(
        t,
        i,
        k,
    ) by {
        assert(same_links_at(s, t, i));
        assert(child_linked(s, i, k));
        assert(same_links_at(s, t, s[i].children[k].0 as int));
    }
    assert forall|i: int| 0 <= i < t.len() implies ascending(#[trigger] t[i].children) by {
        assert(same_links_at(s, t, i));
        assert(ascending(s[i].children));
    }
    assert forall|c: int| 0 < c < t.len() implies #[trigger] listed_by_parent(t, c) by {
        assert(listed_by_parent(s, c));
        assert(same_links_at(s, t, c));
        assert(same_links_at(s, t, s[c].parent.unwrap().0 as int));
    }
}

/// Whether the slot is `ancestor` or lies below it.
pub open spec fn within(s: Seq<SlotView>, slot_id: SlotId, ancestor: SlotId) -> bool
    decreases slot_id.0,
{
    slot_id == ancestor || match s[slot_id.0 as int].parent {
        Some(parent) => parent.0 < slot_id.0 && within(s, parent, ancestor),
        None => false,
    }
}

/// Whether the slot lies below `ancestor`.
pub open spec fn below(s: Seq<SlotView>, slot_id: SlotId, ancestor: SlotId) -> bool {
    slot_id != ancestor && within(s, slot_id, ancestor)
}

/// A slot was added no earlier than a slot that it lies within.
pub proof fn lemma_within_later(s: Seq<SlotView>, slot_id: SlotId, ancestor: SlotId)
    requires
        within(s, slot_id, ancestor),
    ensures
        ancestor.0 <= slot_id.0,
    decreases slot_id.0,
{
    if slot_id != ancestor {
        lemma_within_later(s, s[slot_id.0 as int].parent.unwrap(), ancestor);
    }
}

/// Every slot of a tree lies within the root.
pub proof fn lemma_within_root(s: Seq<SlotView>, slot_id: SlotId)
    requires
        is_tree(s),
        slot_id.0 < s.len(),
    ensures
        within(s, slot_id, SlotId(0)),
    decreases slot_id.0,
{
    if slot_id.0 > 0 {
        assert(parent_precedes(s, slot_id.0 as int));
        lemma_within_root(s, s[slot_id.0 as int].parent.unwrap());
    }
}

/// A slot that lies below another lies within one of its children.
pub proof fn lemma_within_some_child(s: Seq<SlotView>, slot_id: SlotId, ancestor: SlotId) -> (k:
    int)
    requires
        is_tree(s),
        slot_id.0 < s.len(),
        within(s, slot_id, ancestor),
        slot_id != ancestor,
    ensures
        0 <= k < s[ancestor.0 as int].children.len(),
        within(s, slot_id, s[ancestor.0 as int].children[k]),
    decreases slot_id.0,
{
    let parent = s[slot_id.0 as int].parent.unwrap();
    if parent == ancestor {
        assert(listed_by_parent(s, slot_id.0 as int));
        assert(SlotId(slot_id.0 as int as u32) == slot_id);
        let k = choose|k: int|
            0 <= k < s[ancestor.0 as int].children.len() && s[ancestor.0 as int].children[k]
                == slot_id;
        k
    } else {
        lemma_within_some_child(s, parent, ancestor)
    }
}

/// The subtrees of two children of a slot have no slot in common.
pub proof fn lemma_siblings_apart(s: Seq<SlotView>, slot_id: SlotId, parent: SlotId, j: int, k: int)
    requires
        is_tree(s),
        parent.0 < s.len(),
        0 <= j < s[parent.0 as int].children.len(),
        0 <= k < s[parent.0 as int].children.len(),
        j != k,
        within(s, slot_id, s[parent.0 as int].children[j]),
    ensures
        !within(s, slot_id, s[parent.0 as int].children[k]),
    decreases slot_id.0,
{
    let children = s[parent.0 as int].children;
    assert(child_linked(s, parent.0 as int, j));
    assert(child_linked(s, parent.0 as int, k));
    assert(ascending(children));
    assert(children[j] != children[k]) by {
        if j < k {
            assert(children[j].0 < children[k].0);
        } else {
            assert(children[k].0 < children[j].0);
        }
    }
    if within(s, slot_id, children[k]) {
        if slot_id == children[j] {
            // The parent would lie within the other child, which was added
            // after it.
            assert(within(s, parent, children[k]));
            lemma_within_later(s, parent, children[k]);
        } else if slot_id == children[k] {
            assert(within(s, parent, children[j]));
            lemma_within_later(s, parent, children[j]);
        } else {
            lemma_siblings_apart(s, s[slot_id.0 as int].parent.unwrap(), parent, j, k);
        }
    }
}

/// Whether a slot lies within another depends on the links alone.
pub proof fn lemma_within_same_links(
    s: Seq<SlotView>,
    t: Seq<SlotView>,
    slot_id: SlotId,
    ancestor: SlotId,
)
    requires
        same_links(s, t),
        slot_id.0 < s.len(),
        forall|i: int| 0 < i < s.len() ==> #[trigger] parent_precedes(s, i),
    ensures
        within(s, slot_id, ancestor) == within(t, slot_id, ancestor),
    decreases slot_id.0,
{
    assert(same_links_at(s, t, slot_id.0 as int));
    if slot_id != ancestor && slot_id.0 > 0 {
        assert(parent_precedes(s, slot_id.0 as int));
        lemma_within_same_links(s, t, s[slot_id.0 as int].parent.unwrap(), ancestor);
    }
}

/// What lies within a slot lies within the parent of that slot.
pub proof fn lemma_within_parent(s: Seq<SlotView>, slot_id: SlotId, child: SlotId, parent: SlotId)
    requires
        within(s, slot_id, child),
        s[child.0 as int].parent == Some(parent),
        parent.0 < child.0,
    ensures
        within(s, slot_id, parent),
    decreases slot_id.0,
{
    if slot_id != child {
        lemma_within_parent(s, s[slot_id.0 as int].parent.unwrap(), child, parent);
    } else {
        assert(within(s, parent, parent));
    }
}

/// Whether the two slots are children of one slot, and `first` was added
/// after `second`.
pub open spec fn later_sibling(s: Seq<SlotView>, first: SlotId, second: SlotId) -> bool {
    &&& second.0 < first.0 < s.len()
    &&& s[first.0 as int].parent is Some
    &&& s[first.0 as int].parent == s[second.0 as int].parent
}

/// Whether `first` lies within a child of some slot and `second` within a
/// child of the same slot that was added earlier.
pub open spec fn in_later_branch(s: Seq<SlotView>, first: SlotId, second: SlotId) -> bool {
    exists|upper: SlotId, lower: SlotId| #[trigger]
        later_sibling(s, upper, lower) && within(s, first, upper) && within(s, second, lower)
}

/// Whether an event that goes through the tree comes to `first` no later
/// than to `second`. An event comes to the children of a slot before it
/// comes to the slot, and to the child that was added last first: so it
/// comes to a slot before it comes to the slots that it lies below, and,
/// of two slots in the subtrees of two children of one slot, first to the
/// one in the subtree of the child that was added later.
pub open spec fn reached_no_later(s: Seq<SlotView>, first: SlotId, second: SlotId) -> bool {
    first == second || below(s, first, second) || in_later_branch(s, first, second)
}

/// An event comes to two slots of a grown tree in the order in which it
/// came to them before.
pub proof fn lemma_reached_no_later_grown(
    s: Seq<SlotView>,
    t: Seq<SlotView>,
    first: SlotId,
    second: SlotId,
)
    requires
        grown(s, t),
        first.0 < s.len(),
        second.0 < s.len(),
        reached_no_later(s, first, second),
    ensures
        reached_no_later(t, first, second),
{
    if first == second {
    } else if below(s, first, second) {
        lemma_within_grown(s, t, first, second);
    } else {
        let (upper, lower) = choose|upper: SlotId, lower: SlotId| #[trigger]
            later_sibling(s, upper, lower) && within(s, first, upper) && within(
                s,
                second,
                lower,
            );
        lemma_within_grown(s, t, first, upper);
        lemma_within_grown(s, t, second, lower);
        assert(grown_at(s, t, upper.0 as int));
        assert(grown_at(s, t, lower.0 as int));
        assert(later_sibling(t, upper, lower));
    }
}

/// The child of a slot that an event comes to after it has come to
/// `visited` others: the last of the children first.
pub fn child_in_dispatch(children: &Vec<SlotId>, visited: usize) -> (child: SlotId)
    requires
        visited < children.len(),
    ensures
        child == children@[children.len() - 1 - visited],
{
    children[children.len() - 1 - visited]
}

/// The arena `s` with a new leaf of the given metadata under `parent`: a slot
/// of no size and without a widget, last among the children of `parent`.
pub open spec fn with_leaf(s: Seq<SlotView>, parent: SlotId, info: SlotInfo) -> Seq<SlotView> {
    s.update(
        parent.0 as int,
        SlotView {
            children: s[parent.0 as int].children.push(SlotId(s.len() as u32)),
            ..s[parent.0 as int]
        },
    ).push(
        SlotView {
            info,
            bounds: Bounds { x: 0, y: 0, size: Dimensions { width: 0, height: 0 } },
            widget_id: None,
            parent: Some(parent),
            children: Seq::empty(),
        },
    )
}

/// The arena `s` with the widget bound to the slot.
pub open spec fn with_widget(s: Seq<SlotView>, slot_id: SlotId, widget_id: WidgetId) -> Seq<
    SlotView,
> {
    s.update(slot_id.0 as int, SlotView { widget_id: Some(widget_id), ..s[slot_id.0 as int] })
}

/// Slot `i` of `t` is slot `i` of `s` but for its bounds, and has the bounds
/// too unless it is a child of `parent`.
pub open spec fn rearranged_at(s: Seq<SlotView>, t: Seq<SlotView>, parent: SlotId, i: int) -> bool {
    &&& t[i] == (SlotView { bounds: t[i].bounds, ..s[i] })
    &&& s[i].parent != Some(parent) ==> t[i].bounds == s[i].bounds
}

/// Whether `t` is `s` with nothing changed but the bounds of children of
/// `parent`.
pub open spec fn rearranged(s: Seq<SlotView>, t: Seq<SlotView>, parent: SlotId) -> bool {
    &&& s.len() == t.len()
    &&& forall|i: int| 0 <= i < s.len() ==> #[trigger] rearranged_at(s, t, parent, i)
}

/// Slot `i` of `t` has the parent and the widget that it has in `s`, and its
/// children of `s` first among its children.
pub open spec fn grown_at(s: Seq<SlotView>, t: Seq<SlotView>, i: int) -> bool {
    &&& t[i].parent == s[i].parent
    &&& t[i].widget_id == s[i].widget_id
    &&& s[i].children.is_prefix_of(t[i].children)
}

/// Whether the tree `t` is what a widget can make of the tree `s` while it
/// handles an event: no slot is gone or bound to another widget, no link of
/// `s` is broken, and slots that were added have no widget.
pub open spec fn grown(s: Seq<SlotView>, t: Seq<SlotView>) -> bool {
    &&& is_tree(t)
    &&& s.len() <= t.len()
    &&& forall|i: int| 0 <= i < s.len() ==> #[trigger] grown_at(s, t, i)
    &&& forall|i: int| s.len() <= i < t.len() ==> (#[trigger] t[i]).widget_id is None
}

/// Rearranging the children of a slot leaves the tree a tree.
pub proof fn lemma_rearranged_tree(s: Seq<SlotView>, t: Seq<SlotView>, parent: SlotId)
    requires
        is_tree(s),
        rearranged(s, t, parent),
    ensures
        is_tree(t),
        same_links(s, t),
{
    assert forall|i: int| 0 <= i < s.len() implies #[trigger] same_links_at(
        s,
        t,
        i,
    ) by {
        assert(rearranged_at(s, t, parent, i));
    }
    lemma_same_links_tree(s, t);
}

/// What a widget makes of a tree that a widget has made of a tree, a widget
/// can make of the first tree.
pub proof fn lemma_grown_transitive(s: Seq<SlotView>, t: Seq<SlotView>, u: Seq<SlotView>)
    requires
        grown(s, t),
        grown(t, u),
    ensures
        grown(s, u),
{
    assert forall|i: int| 0 <= i < s.len() implies #[trigger] grown_at(s, u, i) by {
        assert(grown_at(s, t, i));
        assert(grown_at(t, u, i));
    }
    assert forall|i: int| s.len() <= i < u.len() implies (#[trigger] u[i]).widget_id is None by {
        if i < t.len() {
            assert(grown_at(t, u, i));
        }
    }
}

/// A tree is what a widget can make of it by leaving it alone.
pub proof fn lemma_grown_reflexive(s: Seq<SlotView>)
    requires
        is_tree(s),
    ensures
        grown(s, s),
{
    assert forall|i: int| 0 <= i < s.len() implies #[trigger] grown_at(s, s, i) by {}
}

/// A slot lies in a grown tree within the slots that it lay within before.
pub proof fn lemma_within_grown(
    s: Seq<SlotView>,
    t: Seq<SlotView>,
    slot_id: SlotId,
    ancestor: SlotId,
)
    requires
        grown(s, t),
        slot_id.0 < s.len(),
        within(s, slot_id, ancestor),
    ensures
        within(t, slot_id, ancestor),
    decreases slot_id.0,
{
    assert(grown_at(s, t, slot_id.0 as int));
    if slot_id != ancestor {
        lemma_within_grown(s, t, s[slot_id.0 as int].parent.unwrap(), ancestor);
    }
}

/// A tree with a new leaf is a tree, and one that the first has grown into.
pub proof fn lemma_with_leaf(s: Seq<SlotView>, parent: SlotId, info: SlotInfo)
    requires
        is_tree(s),
        parent.0 < s.len(),
        s.len() < u32::MAX,
    ensures
        is_tree(with_leaf(s, parent, info)),
        grown(s, with_leaf(s, parent, info)),
{
    let t = with_leaf(s, parent, info);
    let p = parent.0 as int;
    let n = s.len() as int;
    let slot_id = SlotId(n as u32);
    assert forall|i: int| 0 < i < t.len() implies #[trigger] parent_precedes(t, i) by {
        if i < n {
            assert(parent_precedes(s, i));
        }
    }
    assert forall|i: int, k: int|
        0 <= i < t.len() && 0 <= k < t[i].children.len() implies #[trigger] child_linked(
        t,
        i,
        k,
    ) by {
        if i == p && k == s[p].children.len() {
        } else {
            assert(child_linked(s, i, k));
        }
    }
    assert forall|i: int| 0 <= i < t.len() implies ascending(#[trigger] t[i].children) by {
        if i < n {
            assert(ascending(s[i].children));
            if i == p {
                assert forall|a: int, b: int|
                    0 <= a < b < t[i].children.len() implies t[i].children[a].0
                    < t[i].children[b].0 by {
                    assert(child_linked(s, p, a));
                }
            }
        }
    }
    assert forall|c: int| 0 < c < t.len() implies #[trigger] listed_by_parent(t, c) by {
        if c < n {
            assert(listed_by_parent(s, c));
            let q = s[c].parent.unwrap().0 as int;
            let k = choose|k: int|
                0 <= k < s[q].children.len() && s[q].children[k] == SlotId(c as u32);
            assert(t[q].children[k] == SlotId(c as u32));
        } else {
            assert(t[p].children[s[p].children.len() as int] == slot_id);
        }
    }
    assert forall|i: int| 0 <= i < s.len() implies #[trigger] grown_at(s, t, i) by {}
}

/// A tree whose slots have changed in nothing but metadata and bounds is a
/// tree, and one that the first has grown into.
pub proof fn lemma_kept_links(s: Seq<SlotView>, t: Seq<SlotView>)
    requires
        is_tree(s),
        same_links(s, t),
        forall|i: int| 0 <= i < s.len() ==> (#[trigger] t[i]).widget_id == s[i].widget_id,
    ensures
        is_tree(t),
        grown(s, t),
{
    lemma_same_links_tree(s, t);
    assert forall|i: int| 0 <= i < s.len() implies #[trigger] grown_at(s, t, i) by {
        assert(same_links_at(s, t, i));
    }
}

/// The arena that owns every slot of a tree.
pub struct Slots {
    map: Vec<Slot>,
    dirty: bool,
}

impl View for Slots {
    type V = Seq<SlotView>;

    closed spec fn view(&self) -> Seq<SlotView> {
        Seq::new(self.map.len() as nat, |i: int| self.map[i]@)
    }
}

impl Slots {
    /// Whether a slot was added or handed out for change since the flag was
    /// last cleared.
    pub closed spec fn is_dirty(&self) -> bool {
        self.dirty
    }

    /// Whether the arena holds a slot of this identity.
    pub open spec fn contains(&self, slot_id: SlotId) -> bool {
        slot_id.0 < self@.len()
    }

    /// Whether the slots form a tree.
    pub open spec fn wf(&self) -> bool {
        is_tree(self@)
    }

    /// An arena that holds a root of the given metadata and nothing else.
    pub(crate) fn with_root(info: SlotInfo) -> (r: Slots)
        ensures
            r.wf(),
            r.is_dirty(),
            r@.len() == 1,
            r@[0] == (SlotView {
                info,
                bounds: Bounds { x: 0, y: 0, size: Dimensions { width: 0, height: 0 } },
                widget_id: None,
                parent: None,
                children: Seq::empty(),
            }),
    {
        let mut map: Vec<Slot> = Vec::new();
        map.push(
            Slot {
                info,
                bounds: Bounds::zero(),
                widget_id: None,
                parent: None,
                children: Vec::new(),
            },
        );
        Slots { map, dirty: true }
    }

    /// Appends a new leaf under `parent_id` and returns its identity.
    pub fn add(&mut self, parent_id: SlotId, info: SlotInfo) -> (slot_id: SlotId)
        requires
            old(self).contains(parent_id),
            old(self)@.len() < u32::MAX,
        ensures
            slot_id.0 == old(self)@.len(),
            final(self)@ == with_leaf(old(self)@, parent_id, info),
            final(self).is_dirty(),
            old(self).wf() ==> final(self).wf() && grown(old(self)@, final(self)@),
    {
        let slot_id = SlotId(self.map.len() as u32);
        self.map.push(
            Slot {
                info,
                bounds: Bounds::zero(),
                widget_id: None,
                parent: Some(parent_id),
                children: Vec::new(),
            },
        );
        self.map[parent_id.0 as usize].children.push(slot_id);
        self.dirty = true;
        proof {
            let s = old(self)@;
            let t = self@;
            let p = parent_id.0 as int;
            let n = s.len() as int;
            assert(t =~= s.update(
                p,
                SlotView { children: s[p].children.push(slot_id), ..s[p] },
            ).push(
                SlotView {
                    info,
                    bounds: Bounds { x: 0, y: 0, size: Dimensions { width: 0, height: 0 } },
                    widget_id: None,
                    parent: Some(parent_id),
                    children: Seq::empty(),
                },
            ));
            if is_tree(s) {
                lemma_with_leaf(s, parent_id, info);
            }
        }
        slot_id
    }

    /// Gives the slot a new size.
    pub fn set_size(&mut self, slot_id: SlotId, size: Dimensions)
        requires
            old(self).contains(slot_id),
        ensures
            final(self)@ == old(self)@.update(
                slot_id.0 as int,
                SlotView {
                    bounds: Bounds { size, ..old(self)@[slot_id.0 as int].bounds },
                    ..old(self)@[slot_id.0 as int]
                },
            ),
            final(self).is_dirty(),
            old(self).wf() ==> final(self).wf() && grown(old(self)@, final(self)@),
    {
        self.map[slot_id.0 as usize].bounds.size = size;
        self.dirty = true;
        assert(self@ =~= old(self)@.update(
            slot_id.0 as int,
            SlotView {
                bounds: Bounds { size, ..old(self)@[slot_id.0 as int].bounds },
                ..old(self)@[slot_id.0 as int]
            },
        ));
        proof {
            if old(self).wf() {
                assert forall|i: int| 0 <= i < self@.len() implies #[trigger] same_links_at(
                    old(self)@,
                    self@,
                    i,
                ) by {}
                lemma_kept_links(old(self)@, self@);
            }
        }
    }

    /// The slot of this identity.
    pub fn get(&self, slot_id: SlotId) -> (slot: &Slot)
        requires
            self.contains(slot_id),
        ensures
            slot@ == self@[slot_id.0 as int],
    {
        &self.map[slot_id.0 as usize]
    }

    /// The slot of this identity, for change. The arena counts as changed
    /// from then on, whatever the caller does with the slot.
    pub fn get_mut(&mut self, slot_id: SlotId) -> (slot: &mut Slot)
        requires
            old(self).contains(slot_id),
        ensures
            slot@ == old(self)@[slot_id.0 as int],
            final(self)@ == old(self)@.update(slot_id.0 as int, final(slot)@),
            final(self).is_dirty(),
    {
        self.dirty = true;
        &mut self.map[slot_id.0 as usize]
    }

    /// The number of slots.
    pub fn len(&self) -> (n: usize)
        ensures
            n == self@.len(),
    {
        self.map.len()
    }

    /// The layout metadata of a slot.
    pub fn info(&self, slot_id: SlotId) -> (info: &SlotInfo)
        requires
            self.contains(slot_id),
        ensures
            *info == self@[slot_id.0 as int].info,
    {
        &self.map[slot_id.0 as usize].info
    }

    /// The current bounds of a slot.
    pub fn bounds(&self, slot_id: SlotId) -> (bounds: Bounds)
        requires
            self.contains(slot_id),
        ensures
            bounds == self@[slot_id.0 as int].bounds,
    {
        self.map[slot_id.0 as usize].bounds
    }

    /// The widget bound to a slot, if any.
    pub fn widget_id(&self, slot_id: SlotId) -> (widget_id: Option<WidgetId>)
        requires
            self.contains(slot_id),
        ensures
            widget_id == self@[slot_id.0 as int].widget_id,
    {
        self.map[slot_id.0 as usize].widget_id
    }

    /// The parent of a slot; the root has none.
    pub fn parent(&self, slot_id: SlotId) -> (parent: Option<SlotId>)
        requires
            self.contains(slot_id),
        ensures
            parent == self@[slot_id.0 as int].parent,
    {
        self.map[slot_id.0 as usize].parent
    }

    /// The children of a slot, in the order in which they were added.
    pub fn children(&self, slot_id: SlotId) -> (children: &Vec<SlotId>)
        requires
            self.contains(slot_id),
        ensures
            children@ == self@[slot_id.0 as int].children,
    {
        &self.map[slot_id.0 as usize].children
    }

    /// Gives the slot new bounds.
    pub fn set_bounds(&mut self, slot_id: SlotId, bounds: Bounds)
        requires
            old(self).contains(slot_id),
        ensures
            final(self)@ == old(self)@.update(
                slot_id.0 as int,
                SlotView { bounds, ..old(self)@[slot_id.0 as int] },
            ),
            final(self).is_dirty(),
            old(self).wf() ==> final(self).wf() && grown(old(self)@, final(self)@),
    {
        self.map[slot_id.0 as usize].bounds = bounds;
        self.dirty = true;
        assert(self@ =~= old(self)@.update(
            slot_id.0 as int,
            SlotView { bounds, ..old(self)@[slot_id.0 as int] },
        ));
        proof {
            if old(self).wf() {
                assert forall|i: int| 0 <= i < self@.len() implies #[trigger] same_links_at(
                    old(self)@,
                    self@,
                    i,
                ) by {}
                lemma_kept_links(old(self)@, self@);
            }
        }
    }

    /// Gives the slot new layout metadata.
    pub fn set_info(&mut self, slot_id: SlotId, info: SlotInfo)
        requires
            old(self).contains(slot_id),
        ensures
            final(self)@ == old(self)@.update(
                slot_id.0 as int,
                SlotView { info, ..old(self)@[slot_id.0 as int] },
            ),
            final(self).is_dirty(),
            old(self).wf() ==> final(self).wf() && grown(old(self)@, final(self)@),
    {
        self.map[slot_id.0 as usize].info = info;
        self.dirty = true;
        assert(self@ =~= old(self)@.update(
            slot_id.0 as int,
            SlotView { info, ..old(self)@[slot_id.0 as int] },
        ));
        proof {
            if old(self).wf() {
                assert forall|i: int| 0 <= i < self@.len() implies #[trigger] same_links_at(
                    old(self)@,
                    self@,
                    i,
                ) by {}
                lemma_kept_links(old(self)@, self@);
            }
        }
    }

    /// Binds a widget to the slot.
    pub(crate) fn bind_widget(&mut self, slot_id: SlotId, widget_id: WidgetId)
        requires
            old(self).contains(slot_id),
        ensures
            final(self)@ == with_widget(old(self)@, slot_id, widget_id),
            final(self).is_dirty(),
    {
        self.map[slot_id.0 as usize].widget_id = Some(widget_id);
        self.dirty = true;
        assert(self@ =~= old(self)@.update(
            slot_id.0 as int,
            SlotView { widget_id: Some(widget_id), ..old(self)@[slot_id.0 as int] },
        ));
    }

    /// Whether the arena changed since the flag was last cleared.
    pub fn dirty(&self) -> (dirty: bool)
        ensures
            dirty == self.is_dirty(),
    {
        self.dirty
    }

    /// Clears the flag: the layout is up to date.
    pub(crate) fn clear_dirty(&mut self)
        ensures
            final(self)@ == old(self)@,
            !final(self).is_dirty(),
    {
        self.dirty = false;
        assert(self@ =~= old(self)@);
    }
}

/// Whether the slot of this identity is not hidden itself.
pub open spec fn shown(s: Seq<SlotView>, slot_id: SlotId) -> bool {
    !s[slot_id.0 as int].info.hidden
}

/// The identities among `ids` of slots that are not hidden, in their order.
pub open spec fn visible_among(s: Seq<SlotView>, ids: Seq<SlotId>) -> Seq<SlotId> {
    ids.filter(|c: SlotId| shown(s, c))
}

/// The children of a slot that occupy space: those that are not hidden, in
/// the order of the child list.
pub open spec fn visible_children_of(s: Seq<SlotView>, slot_id: SlotId) -> Seq<SlotId> {
    visible_among(s, s[slot_id.0 as int].children)
}

/// Every visible child of a slot is one of its children, and is not hidden.
pub proof fn lemma_visible_children(s: Seq<SlotView>, slot_id: SlotId, k: int)
    requires
        is_tree(s),
        slot_id.0 < s.len(),
        0 <= k < visible_children_of(s, slot_id).len(),
    ensures
        s[slot_id.0 as int].children.contains(visible_children_of(s, slot_id)[k]),
        shown(s, visible_children_of(s, slot_id)[k]),
        slot_id.0 < visible_children_of(s, slot_id)[k].0 < s.len(),
        s[visible_children_of(s, slot_id)[k].0 as int].parent == Some(slot_id),
{
    let children = s[slot_id.0 as int].children;
    let pred = |c: SlotId| shown(s, c);
    broadcast use vstd::seq_lib::group_filter_ensures;
    let v = children.filter(pred)[k];
    children.lemma_filter_contains_rev(pred, v);
    let j = choose|j: int| 0 <= j < children.len() && children[j] == v;
    assert(child_linked(s, slot_id.0 as int, j));
}

/// The children of a slot that are not hidden, in the order of the child list.
pub fn visible_children(slots: &Slots, slot_id: SlotId) -> (visible: Vec<SlotId>)
    requires
        slots.wf(),
        slots.contains(slot_id),
    ensures
        visible@ == visible_children_of(slots@, slot_id),
{
    let children = slots.children(slot_id);
    let mut visible: Vec<SlotId> = Vec::new();
    let mut k: usize = 0;
    while k < children.len()
        invariant
            slots.wf(),
            slots.contains(slot_id),
            children@ == slots@[slot_id.0 as int].children,
            0 <= k <= children.len(),
            visible@ == visible_among(slots@, children@.take(k as int)),
        decreases children.len() - k,
    {
        let child = children[k];
        proof {
            assert(child_linked(slots@, slot_id.0 as int, k as int));
            assert(children@.take(k + 1).drop_last() =~= children@.take(k as int));
            reveal(Seq::filter);
        }
        if !slots.info(child).hidden {
            visible.push(child);
        }
        k = k + 1;
    }
    proof {
        assert(children@.take(k as int) =~= children@);
    }
    visible
}

} // verus!
