//! Where the focus goes: the search for a slot that can hold it.

use crate::slots::{child_linked, is_tree, SlotId, SlotView};
use crate::walk::{
    concealed, lemma_walk, lemma_walk_complete, stops_at, visit, visit_children, walk,
    DrawStep,
};
use vstd::prelude::*;

verus! {

/// Whether the slot is the one that holds the focus: what the widget of the
/// slot is told when it is handed an event or drawn.
pub fn holds_focus(focus: Option<SlotId>, slot_id: SlotId) -> (held: bool)
    ensures
        held == (focus == Some(slot_id)),
{
    match focus {
        Some(focused) => focused == slot_id,
        None => false,
    }
}

/// The first slot that can hold the focus among the slot `slot_id` and the
/// slots below it, none of them hidden or below a hidden slot. `flags` tells
/// of each slot whether it can hold the focus. The search goes through the
/// slot and then its children in their order, or, in reverse, through the
/// children in the opposite order and then the slot, so that it finds the
/// first such slot of the subtree, or in reverse the last.
pub open spec fn search(
    s: Seq<SlotView>,
    flags: Seq<bool>,
    slot_id: SlotId,
    reverse: bool,
) -> Option<SlotId>
    decreases s.len() - slot_id.0, 1int, 0int,
{
    if slot_id.0 >= s.len() || s[slot_id.0 as int].info.hidden {
        None
    } else if reverse {
        match search_children(s, flags, slot_id, 0, reverse) {
            Some(found) => Some(found),
            None => if flags[slot_id.0 as int] {
                Some(slot_id)
            } else {
                None
            },
        }
    } else {
        if flags[slot_id.0 as int] {
            Some(slot_id)
        } else {
            search_children(s, flags, slot_id, 0, reverse)
        }
    }
}

/// The child of `slot_id` that a search examines after `examined` others.
pub open spec fn child_in_turn(
    s: Seq<SlotView>,
    slot_id: SlotId,
    examined: int,
    reverse: bool,
) -> SlotId {
    let children = s[slot_id.0 as int].children;
    if reverse {
        children[children.len() - 1 - examined]
    } else {
        children[examined]
    }
}

/// The first hit of a search through the subtrees of the children of
/// `slot_id`, after `examined` of them have been examined in vain.
pub open spec fn search_children(
    s: Seq<SlotView>,
    flags: Seq<bool>,
    slot_id: SlotId,
    examined: int,
    reverse: bool,
) -> Option<SlotId>
    decreases s.len() - slot_id.0, 0int, s[slot_id.0 as int].children.len() - examined,
{
    let children = s[slot_id.0 as int].children;
    if slot_id.0 >= s.len() || examined < 0 || examined >= children.len() {
        None
    } else {
        let child = child_in_turn(s, slot_id, examined, reverse);
        if slot_id.0 < child.0 < s.len() {
            match search(s, flags, child, reverse) {
                Some(found) => Some(found),
                None => search_children(s, flags, slot_id, examined + 1, reverse),
            }
        } else {
            None
        }
    }
}

/// The sibling of the child at `position` that a move of the focus examines
/// after `examined` others: the next ones in their order, or the previous
/// ones, nearest first.
pub open spec fn sibling_in_turn(position: int, examined: int, forward: bool) -> int {
    if forward {
        position + 1 + examined
    } else {
        position - 1 - examined
    }
}

/// The first hit among the siblings that follow (or precede) the child at
/// `position` of `parent`, each searched through in document order, after
/// `examined` of them have been searched in vain.
pub open spec fn search_siblings(
    s: Seq<SlotView>,
    flags: Seq<bool>,
    parent: SlotId,
    position: int,
    examined: int,
    forward: bool,
) -> Option<SlotId>
    decreases
            (if forward {
                s[parent.0 as int].children.len() - sibling_in_turn(position, examined, forward)
            } else {
                sibling_in_turn(position, examined, forward) + 1
            }),
{
    let children = s[parent.0 as int].children;
    let turn = sibling_in_turn(position, examined, forward);
    if examined < 0 || turn < 0 || turn >= children.len() {
        None
    } else {
        match search(s, flags, children[turn], false) {
            Some(found) => Some(found),
            None => search_siblings(s, flags, parent, position, examined + 1, forward),
        }
    }
}

/// The first hit on the way up from `current`: at each ancestor, among the
/// siblings that follow (or precede) the slot that the way came through.
pub open spec fn climb(
    s: Seq<SlotView>,
    flags: Seq<bool>,
    current: SlotId,
    forward: bool,
) -> Option<SlotId>
    decreases current.0,
{
    match s[current.0 as int].parent {
        Some(parent) => if parent.0 < current.0 {
            let position = s[parent.0 as int].children.index_of(current);
            match search_siblings(s, flags, parent, position, 0, forward) {
                Some(found) => Some(found),
                None => climb(s, flags, parent, forward),
            }
        } else {
            None
        },
        None => None,
    }
}

/// The slot that holds the focus after a move. From a focused slot the way
/// goes up through its ancestors and takes the first hit. Without a focused
/// slot, or without a hit, the whole tree is searched from the root: for its
/// first slot that can hold the focus, or for its last on a move backward.
pub open spec fn next_focus(
    s: Seq<SlotView>,
    flags: Seq<bool>,
    focused: Option<SlotId>,
    forward: bool,
) -> Option<SlotId> {
    let climbed = match focused {
        Some(current) => climb(s, flags, current, forward),
        None => None,
    };
    match climbed {
        Some(found) => Some(found),
        None => search(s, flags, SlotId(0), !forward),
    }
}

/// The slot that holds the focus after a move is a slot of the arena that
/// can hold the focus and is not hidden.
pub proof fn lemma_next_focus_hit(
    s: Seq<SlotView>,
    flags: Seq<bool>,
    focused: Option<SlotId>,
    forward: bool,
)
    ensures
        match next_focus(s, flags, focused, forward) {
            Some(hit) => hit.0 < s.len() && flags[hit.0 as int] && !s[hit.0 as int].info.hidden,
            None => true,
        },
{
    match focused {
        Some(current) => {
            lemma_climb_hit(s, flags, current, forward);
        },
        None => {},
    }
    lemma_search_hit(s, flags, SlotId(0), !forward);
}

/// What a search finds is a slot of the arena that can hold the focus and
/// is not hidden.
proof fn lemma_search_hit(s: Seq<SlotView>, flags: Seq<bool>, slot_id: SlotId, reverse: bool)
    ensures
        match search(s, flags, slot_id, reverse) {
            Some(hit) => hit.0 < s.len() && flags[hit.0 as int] && !s[hit.0 as int].info.hidden,
            None => true,
        },
    decreases s.len() - slot_id.0, 1int, 0int,
{
    if slot_id.0 < s.len() && !s[slot_id.0 as int].info.hidden {
        lemma_search_children_hit(s, flags, slot_id, 0, reverse);
    }
}

/// What a search through the children finds is a slot of the arena that can
/// hold the focus and is not hidden.
proof fn lemma_search_children_hit(
    s: Seq<SlotView>,
    flags: Seq<bool>,
    slot_id: SlotId,
    examined: int,
    reverse: bool,
)
    ensures
        match search_children(s, flags, slot_id, examined, reverse) {
            Some(hit) => hit.0 < s.len() && flags[hit.0 as int] && !s[hit.0 as int].info.hidden,
            None => true,
        },
    decreases s.len() - slot_id.0, 0int, s[slot_id.0 as int].children.len() - examined,
{
    let children = s[slot_id.0 as int].children;
    if slot_id.0 < s.len() && 0 <= examined < children.len() {
        let child = child_in_turn(s, slot_id, examined, reverse);
        if slot_id.0 < child.0 < s.len() {
            lemma_search_hit(s, flags, child, reverse);
            lemma_search_children_hit(s, flags, slot_id, examined + 1, reverse);
        }
    }
}

/// What a search through the siblings finds is a slot of the arena that can
/// hold the focus and is not hidden.
proof fn lemma_search_siblings_hit(
    s: Seq<SlotView>,
    flags: Seq<bool>,
    parent: SlotId,
    position: int,
    examined: int,
    forward: bool,
)
    ensures
        match search_siblings(s, flags, parent, position, examined, forward) {
            Some(hit) => hit.0 < s.len() && flags[hit.0 as int] && !s[hit.0 as int].info.hidden,
            None => true,
        },
    decreases
            (if forward {
                s[parent.0 as int].children.len() - sibling_in_turn(position, examined, forward)
            } else {
                sibling_in_turn(position, examined, forward) + 1
            }),
{
    let children = s[parent.0 as int].children;
    let turn = sibling_in_turn(position, examined, forward);
    if examined >= 0 && 0 <= turn < children.len() {
        lemma_search_hit(s, flags, children[turn], false);
        lemma_search_siblings_hit(s, flags, parent, position, examined + 1, forward);
    }
}

/// What the way up finds is a slot of the arena that can hold the focus and
/// is not hidden.
proof fn lemma_climb_hit(s: Seq<SlotView>, flags: Seq<bool>, current: SlotId, forward: bool)
    ensures
        match climb(s, flags, current, forward) {
            Some(hit) => hit.0 < s.len() && flags[hit.0 as int] && !s[hit.0 as int].info.hidden,
            None => true,
        },
    decreases current.0,
{
    match s[current.0 as int].parent {
        Some(parent) => {
            if parent.0 < current.0 {
                let position = s[parent.0 as int].children.index_of(current);
                lemma_search_siblings_hit(s, flags, parent, position, 0, forward);
                lemma_climb_hit(s, flags, parent, forward);
            }
        },
        None => {},
    }
}

/// The first of the steps that stops at a slot that can hold the focus.
pub open spec fn first_flagged(steps: Seq<DrawStep>, flags: Seq<bool>) -> Option<SlotId>
    decreases steps.len(),
{
    if steps.len() == 0 {
        None
    } else if flags[steps.first().slot_id.0 as int] {
        Some(steps.first().slot_id)
    } else {
        first_flagged(steps.drop_first(), flags)
    }
}

/// The last of the steps that stops at a slot that can hold the focus.
pub open spec fn last_flagged(steps: Seq<DrawStep>, flags: Seq<bool>) -> Option<SlotId>
    decreases steps.len(),
{
    if steps.len() == 0 {
        None
    } else if flags[steps.last().slot_id.0 as int] {
        Some(steps.last().slot_id)
    } else {
        last_flagged(steps.drop_last(), flags)
    }
}

/// The first hit of one walk and then another is the first hit of the first,
/// or else of the second.
proof fn lemma_first_flagged_of_two(a: Seq<DrawStep>, b: Seq<DrawStep>, flags: Seq<bool>)
    ensures
        first_flagged(a + b, flags) == match first_flagged(a, flags) {
            Some(hit) => Some(hit),
            None => first_flagged(b, flags),
        },
    decreases a.len(),
{
    if a.len() == 0 {
        assert(a + b =~= b);
    } else {
        assert((a + b).first() == a.first());
        assert((a + b).drop_first() =~= a.drop_first() + b);
        lemma_first_flagged_of_two(a.drop_first(), b, flags);
    }
}

/// The last hit of one walk and then another is the last hit of the second,
/// or else of the first.
proof fn lemma_last_flagged_of_two(a: Seq<DrawStep>, b: Seq<DrawStep>, flags: Seq<bool>)
    ensures
        last_flagged(a + b, flags) == match last_flagged(b, flags) {
            Some(hit) => Some(hit),
            None => last_flagged(a, flags),
        },
    decreases b.len(),
{
    if b.len() == 0 {
        assert(a + b =~= a);
    } else {
        assert((a + b).last() == b.last());
        assert((a + b).drop_last() =~= a + b.drop_last());
        lemma_last_flagged_of_two(a, b.drop_last(), flags);
    }
}

/// The walk through the subtrees of the first `upto` children of `slot_id`.
pub open spec fn visit_front(
    s: Seq<SlotView>,
    slot_id: SlotId,
    upto: int,
    x: int,
    y: int,
    depth: int,
) -> Seq<DrawStep>
    decreases upto,
{
    if upto <= 0 {
        Seq::empty()
    } else {
        visit_front(s, slot_id, upto - 1, x, y, depth) + visit(
            s,
            s[slot_id.0 as int].children[upto - 1],
            x,
            y,
            depth,
        )
    }
}

/// The walk through the first children and the walk through the others are
/// the walk through them all.
proof fn lemma_visit_front(s: Seq<SlotView>, slot_id: SlotId, upto: int, x: int, y: int, depth: int)
    requires
        is_tree(s),
        slot_id.0 < s.len(),
        0 <= upto <= s[slot_id.0 as int].children.len(),
    ensures
        visit_front(s, slot_id, upto, x, y, depth) + visit_children(s, slot_id, upto, x, y, depth)
            == visit_children(s, slot_id, 0, x, y, depth),
    decreases upto,
{
    if upto == 0 {
        assert(visit_front(s, slot_id, upto, x, y, depth) + visit_children(
            s,
            slot_id,
            upto,
            x,
            y,
            depth,
        ) =~= visit_children(s, slot_id, 0, x, y, depth));
    } else {
        lemma_visit_front(s, slot_id, upto - 1, x, y, depth);
        assert(child_linked(s, slot_id.0 as int, upto - 1));
        let front = visit_front(s, slot_id, upto - 1, x, y, depth);
        let child = visit(s, s[slot_id.0 as int].children[upto - 1], x, y, depth);
        let rest = visit_children(s, slot_id, upto, x, y, depth);
        assert(visit_children(s, slot_id, upto - 1, x, y, depth) == child + rest);
        assert((front + child) + rest =~= front + (child + rest));
    }
}

/// A search finds the slots in the order of the walk: forward, the first
/// slot of the walk through the subtree that can hold the focus; in
/// reverse, the last.
pub proof fn lemma_search_follows_walk(
    s: Seq<SlotView>,
    flags: Seq<bool>,
    slot_id: SlotId,
    x: int,
    y: int,
    depth: int,
)
    requires
        is_tree(s),
        slot_id.0 < s.len(),
    ensures
        search(s, flags, slot_id, false) == first_flagged(visit(s, slot_id, x, y, depth), flags),
        search(s, flags, slot_id, true) == last_flagged(visit(s, slot_id, x, y, depth), flags),
    decreases s.len() - slot_id.0, 1int, 0int,
{
    let slot = s[slot_id.0 as int];
    if !slot.info.hidden {
        let below_x = x + slot.bounds.x;
        let below_y = y + slot.bounds.y;
        let count = slot.children.len() as int;
        let step = seq![
            DrawStep {
                slot_id,
                bounds: crate::walk::absolute(slot.bounds, x, y),
                depth: depth as usize,
            },
        ];
        let below = visit_children(s, slot_id, 0, below_x, below_y, depth + 1);
        assert(visit(s, slot_id, x, y, depth) == step + below);
        lemma_forward_follows_walk(s, flags, slot_id, 0, below_x, below_y, depth + 1);
        lemma_first_flagged_of_two(step, below, flags);
        assert(first_flagged(step, flags) == if flags[slot_id.0 as int] {
            Some(slot_id)
        } else {
            None::<SlotId>
        }) by {
            assert(step.drop_first() =~= Seq::<DrawStep>::empty());
            reveal_with_fuel(first_flagged, 2);
        }
        lemma_reverse_follows_walk(s, flags, slot_id, 0, below_x, below_y, depth + 1);
        lemma_visit_front(s, slot_id, count, below_x, below_y, depth + 1);
        assert(visit_children(s, slot_id, count, below_x, below_y, depth + 1) =~= Seq::<
            DrawStep,
        >::empty());
        assert(visit_front(s, slot_id, count, below_x, below_y, depth + 1) =~= below);
        lemma_last_flagged_of_two(step, below, flags);
        assert(last_flagged(step, flags) == if flags[slot_id.0 as int] {
            Some(slot_id)
        } else {
            None::<SlotId>
        }) by {
            assert(step.drop_last() =~= Seq::<DrawStep>::empty());
            reveal_with_fuel(last_flagged, 2);
        }
    }
}

/// A forward search through the children finds the first slot of the walk
/// through their subtrees that can hold the focus.
proof fn lemma_forward_follows_walk(
    s: Seq<SlotView>,
    flags: Seq<bool>,
    slot_id: SlotId,
    from: int,
    x: int,
    y: int,
    depth: int,
)
    requires
        is_tree(s),
        slot_id.0 < s.len(),
        0 <= from,
    ensures
        search_children(s, flags, slot_id, from, false) == first_flagged(
            visit_children(s, slot_id, from, x, y, depth),
            flags,
        ),
    decreases s.len() - slot_id.0, 0int, s[slot_id.0 as int].children.len() - from,
{
    let children = s[slot_id.0 as int].children;
    if from < children.len() {
        assert(child_linked(s, slot_id.0 as int, from));
        lemma_search_follows_walk(s, flags, children[from], x, y, depth);
        lemma_forward_follows_walk(s, flags, slot_id, from + 1, x, y, depth);
        lemma_first_flagged_of_two(
            visit(s, children[from], x, y, depth),
            visit_children(s, slot_id, from + 1, x, y, depth),
            flags,
        );
    }
}

/// A search in reverse through the children finds the last slot of the walk
/// through the subtrees of those not yet examined that can hold the focus.
proof fn lemma_reverse_follows_walk(
    s: Seq<SlotView>,
    flags: Seq<bool>,
    slot_id: SlotId,
    examined: int,
    x: int,
    y: int,
    depth: int,
)
    requires
        is_tree(s),
        slot_id.0 < s.len(),
        0 <= examined <= s[slot_id.0 as int].children.len(),
    ensures
        search_children(s, flags, slot_id, examined, true) == last_flagged(
            visit_front(s, slot_id, s[slot_id.0 as int].children.len() - examined, x, y, depth),
            flags,
        ),
    decreases s.len() - slot_id.0, 0int, s[slot_id.0 as int].children.len() - examined,
{
    let children = s[slot_id.0 as int].children;
    let left = children.len() - examined;
    if examined < children.len() {
        assert(child_linked(s, slot_id.0 as int, left - 1));
        assert(child_in_turn(s, slot_id, examined, true) == children[left - 1]);
        lemma_search_follows_walk(s, flags, children[left - 1], x, y, depth);
        lemma_reverse_follows_walk(s, flags, slot_id, examined + 1, x, y, depth);
        lemma_last_flagged_of_two(
            visit_front(s, slot_id, left - 1, x, y, depth),
            visit(s, children[left - 1], x, y, depth),
            flags,
        );
    }
}

/// Steps have a first and a last hit if one of them stops at a slot that
/// can hold the focus, and no hit otherwise.
proof fn lemma_flagged_iff(steps: Seq<DrawStep>, flags: Seq<bool>)
    ensures
        first_flagged(steps, flags) is Some <==> exists|k: int|
            0 <= k < steps.len() && flags[(#[trigger] steps[k]).slot_id.0 as int],
        last_flagged(steps, flags) is Some <==> exists|k: int|
            0 <= k < steps.len() && flags[(#[trigger] steps[k]).slot_id.0 as int],
    decreases steps.len(),
{
    if steps.len() > 0 {
        lemma_flagged_iff(steps.drop_first(), flags);
        lemma_flagged_iff(steps.drop_last(), flags);
        let front = steps.drop_last();
        let back = steps.drop_first();
        if exists|k: int| 0 <= k < steps.len() && flags[(#[trigger] steps[k]).slot_id.0 as int] {
            let k = choose|k: int|
                0 <= k < steps.len() && flags[(#[trigger] steps[k]).slot_id.0 as int];
            if k > 0 {
                assert(back[k - 1] == steps[k]);
            }
            if k < steps.len() - 1 {
                assert(front[k] == steps[k]);
            }
        }
        if exists|k: int| 0 <= k < back.len() && flags[(#[trigger] back[k]).slot_id.0 as int] {
            let k = choose|k: int|
                0 <= k < back.len() && flags[(#[trigger] back[k]).slot_id.0 as int];
            assert(steps[k + 1] == back[k]);
        }
        if exists|k: int| 0 <= k < front.len() && flags[(#[trigger] front[k]).slot_id.0 as int] {
            let k = choose|k: int|
                0 <= k < front.len() && flags[(#[trigger] front[k]).slot_id.0 as int];
            assert(steps[k] == front[k]);
        }
    }
}

/// A move of the focus finds a slot whenever there is one to find: the
/// focus is nowhere afterwards only if no slot that is neither hidden nor
/// below a hidden slot can hold it.
pub proof fn lemma_next_focus_finds(
    s: Seq<SlotView>,
    flags: Seq<bool>,
    focused: Option<SlotId>,
    forward: bool,
    slot_id: SlotId,
)
    requires
        is_tree(s),
        slot_id.0 < s.len(),
        flags[slot_id.0 as int],
        !concealed(s, slot_id),
    ensures
        next_focus(s, flags, focused, forward) is Some,
{
    lemma_search_follows_walk(s, flags, SlotId(0), 0, 0, 0);
    lemma_flagged_iff(walk(s), flags);
    lemma_walk_complete(s, slot_id);
    let k = choose|k: int| 0 <= k < walk(s).len() && (#[trigger] walk(s)[k]).slot_id == slot_id;
    assert(flags[walk(s)[k].slot_id.0 as int]);
}

/// What a search of the whole tree finds is a slot that can hold the focus
/// and is neither hidden nor below a hidden slot.
pub proof fn lemma_search_from_root_visible(s: Seq<SlotView>, flags: Seq<bool>, reverse: bool)
    requires
        is_tree(s),
    ensures
        match search(s, flags, SlotId(0), reverse) {
            Some(hit) => hit.0 < s.len() && flags[hit.0 as int] && !concealed(s, hit),
            None => true,
        },
{
    lemma_search_follows_walk(s, flags, SlotId(0), 0, 0, 0);
    lemma_walk(s);
    lemma_flagged_in(walk(s), flags);
}

/// The first and the last hit of steps are slots at which one of them stops.
proof fn lemma_flagged_in(steps: Seq<DrawStep>, flags: Seq<bool>)
    ensures
        match first_flagged(steps, flags) {
            Some(hit) => stops_at(steps, hit) && flags[hit.0 as int],
            None => true,
        },
        match last_flagged(steps, flags) {
            Some(hit) => stops_at(steps, hit) && flags[hit.0 as int],
            None => true,
        },
    decreases steps.len(),
{
    if steps.len() > 0 {
        lemma_flagged_in(steps.drop_first(), flags);
        lemma_flagged_in(steps.drop_last(), flags);
        let front = steps.drop_last();
        let back = steps.drop_first();
        match first_flagged(steps, flags) {
            Some(hit) => {
                if flags[steps.first().slot_id.0 as int] {
                    assert(steps[0].slot_id == hit);
                } else {
                    let k = choose|k: int|
                        0 <= k < back.len() && (#[trigger] back[k]).slot_id == hit;
                    assert(steps[k + 1] == back[k]);
                }
            },
            None => {},
        }
        match last_flagged(steps, flags) {
            Some(hit) => {
                if flags[steps.last().slot_id.0 as int] {
                    assert(steps[steps.len() - 1].slot_id == hit);
                } else {
                    let k = choose|k: int|
                        0 <= k < front.len() && (#[trigger] front[k]).slot_id == hit;
                    assert(steps[k] == front[k]);
                }
            },
            None => {},
        }
    }
}

/// Without a focused slot, a move forward puts the focus on the first slot
/// of the walk through the tree that can hold it, and a move backward on
/// the last.
pub proof fn lemma_next_focus_from_nowhere(s: Seq<SlotView>, flags: Seq<bool>)
    requires
        is_tree(s),
    ensures
        next_focus(s, flags, None, true) == first_flagged(walk(s), flags),
        next_focus(s, flags, None, false) == last_flagged(walk(s), flags),
{
    lemma_search_follows_walk(s, flags, SlotId(0), 0, 0, 0);
}

} // verus!
