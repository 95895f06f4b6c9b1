//! The order in which the slots of a tree are drawn.

use crate::geometry::Bounds;
use crate::scalar::{saturate, saturated};
use crate::slots::{
    child_linked, is_tree, lemma_within_later, lemma_within_some_child, parent_precedes, within,
    SlotId, SlotView, Slots,
};
use vstd::prelude::*;

verus! {

/// One stop of the walk: a slot that is drawn, where it lies in the space of
/// the root, and how many slots lie above it.
#[derive(Debug, Clone, Copy, PartialEq, Eq, Structural)]
pub struct DrawStep {
    pub slot_id: SlotId,
    pub bounds: Bounds,
    pub depth: usize,
}

/// A slot that the walk has yet to visit, with the origin of its parent in the
/// space of the root and its depth.
struct Visit {
    slot_id: SlotId,
    x: i128,
    y: i128,
    depth: usize,
}

/// The bounds moved by the origin of the parent, clamped into the scalar range.
pub open spec fn absolute(bounds: Bounds, x: int, y: int) -> Bounds {
    Bounds {
        x: saturated(bounds.x + x) as i32,
        y: saturated(bounds.y + y) as i32,
        size: bounds.size,
    }
}

/// The walk through the subtree of `slot_id`: the slot, then the subtrees of
/// its children in their order. A hidden slot is left out with all that is
/// below it. `x` and `y` are the origin of the parent of the slot in the
/// space of the root.
pub open spec fn visit(s: Seq<SlotView>, slot_id: SlotId, x: int, y: int, depth: int) -> Seq<
    DrawStep,
>
    decreases s.len() - slot_id.0, 1int, 0int,
{
    if slot_id.0 >= s.len() || s[slot_id.0 as int].info.hidden {
        Seq::empty()
    } else {
        let slot = s[slot_id.0 as int];
        seq![DrawStep { slot_id, bounds: absolute(slot.bounds, x, y), depth: depth as usize }]
            + visit_children(s, slot_id, 0, x + slot.bounds.x, y + slot.bounds.y, depth + 1)
    }
}

/// The walk through the subtrees of the children of `slot_id`, from the
/// child at `from` on.
pub open spec fn visit_children(
    s: Seq<SlotView>,
    slot_id: SlotId,
    from: int,
    x: int,
    y: int,
    depth: int,
) -> Seq<DrawStep>
    decreases s.len() - slot_id.0, 0int, s[slot_id.0 as int].children.len() - from,
{
    let children = s[slot_id.0 as int].children;
    if slot_id.0 >= s.len() || from < 0 || from >= children.len() {
        Seq::empty()
    } else if slot_id.0 < children[from].0 < s.len() {
        visit(s, children[from], x, y, depth) + visit_children(s, slot_id, from + 1, x, y, depth)
    } else {
        Seq::empty()
    }
}

/// The walk through the whole tree: every slot that is neither hidden nor
/// below a hidden slot, parents before children, children in their order.
pub open spec fn walk(s: Seq<SlotView>) -> Seq<DrawStep> {
    visit(s, SlotId(0), 0, 0, 0)
}

/// Whether the slot is hidden or below a hidden slot.
pub open spec fn concealed(s: Seq<SlotView>, slot_id: SlotId) -> bool
    decreases slot_id.0,
{
    s[slot_id.0 as int].info.hidden || match s[slot_id.0 as int].parent {
        Some(parent) => parent.0 < slot_id.0 && concealed(s, parent),
        None => false,
    }
}

/// Whether the steps begin at `depth`, never rise above it, and descend by
/// one slot at most from one step to the next.
pub open spec fn descends_from(steps: Seq<DrawStep>, depth: int) -> bool {
    &&& steps.len() > 0 ==> steps[0].depth == depth
    &&& forall|k: int| 0 <= k < steps.len() ==> (#[trigger] steps[k]).depth >= depth
    &&& forall|k: int|
        0 <= k && k + 1 < steps.len() ==> (#[trigger] steps[k + 1]).depth <= steps[k].depth + 1
}

/// Whether every step stops at a slot of the arena that is neither hidden nor
/// below a hidden slot.
pub open spec fn all_visible(s: Seq<SlotView>, steps: Seq<DrawStep>) -> bool {
    forall|k: int|
        0 <= k < steps.len() ==> (#[trigger] steps[k]).slot_id.0 < s.len() && !concealed(
            s,
            steps[k].slot_id,
        )
}

/// The walk through the subtree of a slot that lies below no hidden slot
/// stops at visible slots only, and descends step by step.
proof fn lemma_visit(s: Seq<SlotView>, slot_id: SlotId, x: int, y: int, depth: int)
    requires
        is_tree(s),
        slot_id.0 < s.len(),
        0 <= depth <= slot_id.0,
        match s[slot_id.0 as int].parent {
            Some(parent) => !concealed(s, parent),
            None => true,
        },
    ensures
        all_visible(s, visit(s, slot_id, x, y, depth)),
        descends_from(visit(s, slot_id, x, y, depth), depth),
    decreases s.len() - slot_id.0, 1int, 0int,
{
    if !s[slot_id.0 as int].info.hidden {
        let slot = s[slot_id.0 as int];
        if slot_id.0 > 0 {
            assert(crate::slots::parent_precedes(s, slot_id.0 as int));
        }
        assert(!concealed(s, slot_id));
        lemma_visit_children(s, slot_id, 0, x + slot.bounds.x, y + slot.bounds.y, depth + 1);
        let below = visit_children(s, slot_id, 0, x + slot.bounds.x, y + slot.bounds.y, depth + 1);
        let steps = visit(s, slot_id, x, y, depth);
        assert forall|k: int| 0 <= k && k + 1 < steps.len() implies (#[trigger] steps[k
            + 1]).depth <= steps[k].depth + 1 by {
            if k > 0 {
                assert(steps[k + 1] == below[k - 1 + 1]);
                assert(steps[k] == below[k - 1]);
            }
        }
    }
}

/// The walk through the subtrees of the children of a visible slot stops at
/// visible slots only, and descends step by step.
proof fn lemma_visit_children(
    s: Seq<SlotView>,
    slot_id: SlotId,
    from: int,
    x: int,
    y: int,
    depth: int,
)
    requires
        is_tree(s),
        slot_id.0 < s.len(),
        0 <= from,
        0 <= depth <= slot_id.0 + 1,
        !concealed(s, slot_id),
    ensures
        all_visible(s, visit_children(s, slot_id, from, x, y, depth)),
        descends_from(visit_children(s, slot_id, from, x, y, depth), depth),
    decreases s.len() - slot_id.0, 0int, s[slot_id.0 as int].children.len() - from,
{
    let children = s[slot_id.0 as int].children;
    if from < children.len() {
        assert(child_linked(s, slot_id.0 as int, from));
        lemma_visit(s, children[from], x, y, depth);
        lemma_visit_children(s, slot_id, from + 1, x, y, depth);
        let first = visit(s, children[from], x, y, depth);
        let rest = visit_children(s, slot_id, from + 1, x, y, depth);
        let steps = visit_children(s, slot_id, from, x, y, depth);
        assert(steps == first + rest);
        assert forall|k: int| 0 <= k && k + 1 < steps.len() implies (#[trigger] steps[k
            + 1]).depth <= steps[k].depth + 1 by {
            if k + 1 < first.len() {
                assert(steps[k + 1] == first[k + 1]);
            } else if k < first.len() {
                assert(steps[k] == first[k]);
                assert(steps[k + 1] == rest[0]);
            } else {
                assert(steps[k] == rest[k - first.len()]);
                assert(steps[k + 1] == rest[k - first.len() + 1]);
            }
        }
    }
}

/// A hidden slot is not drawn, nor anything that is below it: the walk stops
/// at slots of the arena that are neither hidden nor below a hidden slot. It
/// begins at the root, if anywhere, and descends by one slot at most from one
/// step to the next.
pub proof fn lemma_walk(s: Seq<SlotView>)
    requires
        is_tree(s),
    ensures
        all_visible(s, walk(s)),
        descends_from(walk(s), 0),
        s[0].info.hidden ==> walk(s).len() == 0,
{
    lemma_visit(s, SlotId(0), 0, 0, 0);
}

/// Whether one of the steps stops at the slot.
pub open spec fn stops_at(steps: Seq<DrawStep>, slot_id: SlotId) -> bool {
    exists|k: int| 0 <= k < steps.len() && (#[trigger] steps[k]).slot_id == slot_id
}

/// Whether neither the slot nor any slot between it and `ancestor`, which
/// it lies within, is hidden, nor `ancestor` itself.
pub open spec fn shown_up_to(s: Seq<SlotView>, slot_id: SlotId, ancestor: SlotId) -> bool
    decreases slot_id.0,
{
    !s[slot_id.0 as int].info.hidden && (slot_id == ancestor || match s[slot_id.0 as int].parent {
        Some(parent) => parent.0 < slot_id.0 && shown_up_to(s, parent, ancestor),
        None => false,
    })
}

/// A slot that is shown up to a child of a slot that is not hidden is shown
/// up to that slot.
pub proof fn lemma_shown_up_to_parent(
    s: Seq<SlotView>,
    slot_id: SlotId,
    child: SlotId,
    parent: SlotId,
)
    requires
        shown_up_to(s, slot_id, child),
        s[child.0 as int].parent == Some(parent),
        parent.0 < child.0,
        !s[parent.0 as int].info.hidden,
    ensures
        shown_up_to(s, slot_id, parent),
    decreases slot_id.0,
{
    if slot_id != child {
        lemma_shown_up_to_parent(s, s[slot_id.0 as int].parent.unwrap(), child, parent);
    } else {
        assert(shown_up_to(s, parent, parent));
    }
}

/// A slot of a tree that is shown up to the root is neither hidden nor
/// below a hidden slot.
pub proof fn lemma_shown_not_concealed(s: Seq<SlotView>, slot_id: SlotId)
    requires
        is_tree(s),
        slot_id.0 < s.len(),
        shown_up_to(s, slot_id, SlotId(0)),
    ensures
        !concealed(s, slot_id),
    decreases slot_id.0,
{
    if slot_id.0 > 0 {
        assert(parent_precedes(s, slot_id.0 as int));
        lemma_shown_not_concealed(s, s[slot_id.0 as int].parent.unwrap());
    }
}

/// A slot that is shown up to a slot is shown up to the child of that slot
/// that it lies within.
proof fn lemma_shown_up_to_child(
    s: Seq<SlotView>,
    slot_id: SlotId,
    child: SlotId,
    ancestor: SlotId,
)
    requires
        shown_up_to(s, slot_id, ancestor),
        within(s, slot_id, child),
        s[child.0 as int].parent == Some(ancestor),
        ancestor.0 < child.0,
    ensures
        shown_up_to(s, slot_id, child),
    decreases slot_id.0,
{
    if slot_id != child {
        if slot_id == ancestor {
            lemma_within_later(s, slot_id, child);
        } else {
            lemma_shown_up_to_child(s, s[slot_id.0 as int].parent.unwrap(), child, ancestor);
        }
    }
}

/// A slot of a tree that is not concealed is shown up to the root.
proof fn lemma_shown_up_to_root(s: Seq<SlotView>, slot_id: SlotId)
    requires
        is_tree(s),
        slot_id.0 < s.len(),
        !concealed(s, slot_id),
    ensures
        shown_up_to(s, slot_id, SlotId(0)),
    decreases slot_id.0,
{
    if slot_id.0 > 0 {
        assert(parent_precedes(s, slot_id.0 as int));
        lemma_shown_up_to_root(s, s[slot_id.0 as int].parent.unwrap());
    }
}

/// The walk through the subtrees of the children of a slot stops wherever
/// the walk through the subtree of one of them stops.
proof fn lemma_visit_children_stops(
    s: Seq<SlotView>,
    slot_id: SlotId,
    from: int,
    k: int,
    x: int,
    y: int,
    depth: int,
    target: SlotId,
)
    requires
        is_tree(s),
        slot_id.0 < s.len(),
        0 <= from <= k < s[slot_id.0 as int].children.len(),
        stops_at(visit(s, s[slot_id.0 as int].children[k], x, y, depth), target),
    ensures
        stops_at(visit_children(s, slot_id, from, x, y, depth), target),
    decreases k - from,
{
    let children = s[slot_id.0 as int].children;
    assert(child_linked(s, slot_id.0 as int, from));
    let first = visit(s, children[from], x, y, depth);
    let rest = visit_children(s, slot_id, from + 1, x, y, depth);
    let steps = visit_children(s, slot_id, from, x, y, depth);
    assert(steps == first + rest);
    if from == k {
        let at = choose|at: int| 0 <= at < first.len() && (#[trigger] first[at]).slot_id == target;
        assert(steps[at] == first[at]);
    } else {
        lemma_visit_children_stops(s, slot_id, from + 1, k, x, y, depth, target);
        let at = choose|at: int| 0 <= at < rest.len() && (#[trigger] rest[at]).slot_id == target;
        assert(steps[first.len() + at] == rest[at]);
    }
}

/// The walk through the subtree of a slot stops at every slot of the
/// subtree that is shown up to the slot.
proof fn lemma_visit_stops(
    s: Seq<SlotView>,
    slot_id: SlotId,
    x: int,
    y: int,
    depth: int,
    target: SlotId,
)
    requires
        is_tree(s),
        slot_id.0 < s.len(),
        target.0 < s.len(),
        within(s, target, slot_id),
        shown_up_to(s, target, slot_id),
    ensures
        stops_at(visit(s, slot_id, x, y, depth), target),
    decreases s.len() - slot_id.0,
{
    lemma_shown_top(s, target, slot_id);
    let slot = s[slot_id.0 as int];
    let steps = visit(s, slot_id, x, y, depth);
    let below = visit_children(s, slot_id, 0, x + slot.bounds.x, y + slot.bounds.y, depth + 1);
    if target == slot_id {
        assert(steps[0].slot_id == target);
    } else {
        let k = lemma_within_some_child(s, target, slot_id);
        let child = slot.children[k];
        assert(child_linked(s, slot_id.0 as int, k));
        lemma_shown_up_to_child(s, target, child, slot_id);
        lemma_visit_stops(s, child, x + slot.bounds.x, y + slot.bounds.y, depth + 1, target);
        lemma_visit_children_stops(
            s,
            slot_id,
            0,
            k,
            x + slot.bounds.x,
            y + slot.bounds.y,
            depth + 1,
            target,
        );
        let at = choose|at: int| 0 <= at < below.len() && (#[trigger] below[at]).slot_id == target;
        assert(steps[1 + at] == below[at]);
    }
}

/// A slot up to which another is shown is not hidden.
proof fn lemma_shown_top(s: Seq<SlotView>, slot_id: SlotId, ancestor: SlotId)
    requires
        shown_up_to(s, slot_id, ancestor),
    ensures
        !s[ancestor.0 as int].info.hidden,
    decreases slot_id.0,
{
    if slot_id != ancestor {
        lemma_shown_top(s, s[slot_id.0 as int].parent.unwrap(), ancestor);
    }
}

/// Every slot that is neither hidden nor below a hidden slot is drawn: the
/// walk stops at it.
pub proof fn lemma_walk_complete(s: Seq<SlotView>, slot_id: SlotId)
    requires
        is_tree(s),
        slot_id.0 < s.len(),
        !concealed(s, slot_id),
    ensures
        stops_at(walk(s), slot_id),
{
    lemma_shown_up_to_root(s, slot_id);
    crate::slots::lemma_within_root(s, slot_id);
    lemma_visit_stops(s, SlotId(0), 0, 0, 0, slot_id);
}

/// The number of slots in the subtree of `slot_id`.
spec fn weight(s: Seq<SlotView>, slot_id: SlotId) -> nat
    decreases s.len() - slot_id.0, 1int, 0int,
{
    if slot_id.0 >= s.len() {
        1
    } else {
        1 + weight_of_children(s, slot_id, 0)
    }
}

/// The number of slots in the subtrees of the children of `slot_id`, from
/// the child at `from` on.
spec fn weight_of_children(s: Seq<SlotView>, slot_id: SlotId, from: int) -> nat
    decreases s.len() - slot_id.0, 0int, s[slot_id.0 as int].children.len() - from,
{
    let children = s[slot_id.0 as int].children;
    if slot_id.0 >= s.len() || from < 0 || from >= children.len() {
        0
    } else if slot_id.0 < children[from].0 < s.len() {
        weight(s, children[from]) + weight_of_children(s, slot_id, from + 1)
    } else {
        0
    }
}

/// The walk that is left when these slots are yet to be visited, the last
/// of them first.
spec fn pending(s: Seq<SlotView>, stack: Seq<Visit>) -> Seq<DrawStep>
    decreases stack.len(),
{
    if stack.len() == 0 {
        Seq::empty()
    } else {
        let top = stack.last();
        visit(s, top.slot_id, top.x as int, top.y as int, top.depth as int) + pending(
            s,
            stack.drop_last(),
        )
    }
}

/// The number of slots in the subtrees of these slots.
spec fn pending_weight(s: Seq<SlotView>, stack: Seq<Visit>) -> nat
    decreases stack.len(),
{
    if stack.len() == 0 {
        0
    } else {
        weight(s, stack.last().slot_id) + pending_weight(s, stack.drop_last())
    }
}

/// Whether the walk can go on from this slot without leaving the arena or
/// the range of its numbers.
spec fn visitable(s: Seq<SlotView>, entry: Visit) -> bool {
    &&& entry.slot_id.0 < s.len()
    &&& entry.depth <= entry.slot_id.0
    &&& -0x8000_0000 * (entry.slot_id.0 as int) <= entry.x <= 0x8000_0000 * (
    entry.slot_id.0 as int)
    &&& -0x8000_0000 * (entry.slot_id.0 as int) <= entry.y <= 0x8000_0000 * (
    entry.slot_id.0 as int)
}

/// The draw context that the widget of a slot at `depth` starts from: its
/// own copy of the context as the nearest slot above left it, or of the
/// first context where no slot lies above. `contexts` holds, by depth, the
/// contexts that the slots above have left.
pub fn inherited_context<T: Copy>(contexts: &Vec<T>, depth: usize, first: T) -> (context: T)
    requires
        depth <= contexts.len(),
    ensures
        context == if depth == 0 {
            first
        } else {
            contexts@[depth - 1]
        },
{
    if depth == 0 {
        first
    } else {
        contexts[depth - 1]
    }
}

/// Keeps the context as a slot at `depth` has left it, for the slots below
/// it. The contexts that slots at this depth or deeper have left before are
/// dropped: no slot inherits from a slot beside it.
pub fn keep_context<T>(contexts: &mut Vec<T>, depth: usize, context: T)
    requires
        depth <= old(contexts).len(),
    ensures
        final(contexts)@ == old(contexts)@.take(depth as int).push(context),
{
    contexts.truncate(depth);
    contexts.push(context);
}

/// The order in which the slots of a tree are drawn, with the bounds of each
/// in the space of the root. The walk keeps the slots that it has yet to
/// visit on a stack of its own, however deep the tree is.
pub fn draw_order(slots: &Slots) -> (order: Vec<DrawStep>)
    requires
        slots.wf(),
    ensures
        order@ == walk(slots@),
{
    let ghost s = slots@;
    let mut order: Vec<DrawStep> = Vec::new();
    let mut stack: Vec<Visit> = Vec::new();
    stack.push(Visit { slot_id: SlotId(0), x: 0, y: 0, depth: 0 });
    proof {
        assert(stack@.drop_last() =~= Seq::<Visit>::empty());
        assert(pending(s, stack@) =~= walk(s)) by {
            reveal_with_fuel(pending, 2);
        }
    }
    while stack.len() > 0
        invariant
            s == slots@,
            is_tree(s),
            forall|k: int| 0 <= k < stack@.len() ==> visitable(s, #[trigger] stack@[k]),
            order@ + pending(s, stack@) == walk(s),
        decreases pending_weight(s, stack@),
    {
        let ghost entered = stack@;
        let entry = stack.pop().unwrap();
        proof {
            assert(stack@ =~= entered.drop_last());
            assert(visitable(s, entered[entered.len() - 1]));
        }
        let slot_id = entry.slot_id;
        if !slots.info(slot_id).hidden {
            let bounds = slots.bounds(slot_id);
            order.push(
                DrawStep {
                    slot_id,
                    bounds: Bounds {
                        x: saturate(bounds.x as i128 + entry.x),
                        y: saturate(bounds.y as i128 + entry.y),
                        size: bounds.size,
                    },
                    depth: entry.depth,
                },
            );
            let x = entry.x + bounds.x as i128;
            let y = entry.y + bounds.y as i128;
            let children = slots.children(slot_id);
            let ghost rest = stack@;
            let mut from = children.len();
            while from > 0
                invariant
                    s == slots@,
                    is_tree(s),
                    slot_id.0 < s.len(),
                    children@ == s[slot_id.0 as int].children,
                    0 <= from <= children.len(),
                    entry.depth <= slot_id.0,
                    -0x8000_0000 * (slot_id.0 as int + 1) <= x <= 0x8000_0000 * (slot_id.0 as int
                        + 1),
                    -0x8000_0000 * (slot_id.0 as int + 1) <= y <= 0x8000_0000 * (slot_id.0 as int
                        + 1),
                    forall|k: int| 0 <= k < stack@.len() ==> visitable(s, #[trigger] stack@[k]),
                    pending(s, stack@) == visit_children(
                        s,
                        slot_id,
                        from as int,
                        x as int,
                        y as int,
                        entry.depth + 1,
                    ) + pending(s, rest),
                    pending_weight(s, stack@) == weight_of_children(s, slot_id, from as int)
                        + pending_weight(s, rest),
                decreases from,
            {
                from = from - 1;
                let child = children[from];
                proof {
                    assert(child_linked(s, slot_id.0 as int, from as int));
                }
                let ghost below = stack@;
                stack.push(Visit { slot_id: child, x, y, depth: entry.depth + 1 });
                proof {
                    assert(stack@.drop_last() =~= below);
                    assert(stack@.last().slot_id == child);
                    assert(pending(s, stack@) =~= visit_children(
                        s,
                        slot_id,
                        from as int,
                        x as int,
                        y as int,
                        entry.depth + 1,
                    ) + pending(s, rest));
                }
            }
            proof {
                assert(order@ + pending(s, stack@) =~= walk(s));
            }
        }
    }
    proof {
        assert(order@ + pending(s, stack@) =~= order@);
    }
    order
}

} // verus!
