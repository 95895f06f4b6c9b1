//! Stacking children along one axis: the arithmetic of the box layout, on plain
//! values.
//!
//! Children that do not expand keep their minimum extent. The others share what
//! is left of the parent's extent in equal parts, but none of them is pressed
//! below its minimum: an expanding child whose minimum exceeds the equal share
//! keeps its minimum and leaves the sharing, largest minimum first.

use crate::scalar::{larger, quotient, saturate, saturated, scalar_max, Scalar};
use vstd::prelude::*;

verus! {

/// What the stacking reads of one child.
#[derive(Debug, Clone, Copy, PartialEq, Eq, Structural)]
pub struct StackItem {
    /// The minimum extent along the stacking axis.
    pub minimum: Scalar,
    /// Whether the child expands along the stacking axis.
    pub expand: bool,
    /// The minimum extent across the stacking axis.
    pub cross_minimum: Scalar,
    /// Whether the child expands across the stacking axis.
    pub cross_expand: bool,
}

/// Where the stacking puts one child.
#[derive(Debug, Clone, Copy, PartialEq, Eq, Structural)]
pub struct StackPlace {
    pub offset: Scalar,
    pub extent: Scalar,
    pub cross_offset: Scalar,
    pub cross_extent: Scalar,
}

/// The total of the gaps between `count` children.
pub open spec fn gaps(spacing: int, count: int) -> int {
    if count > 0 {
        spacing * (count - 1)
    } else {
        0
    }
}

/// What a parent of the given extent has left for its children after the
/// padding at both ends and the gaps between them.
pub open spec fn available(extent: int, padding: int, spacing: int, count: int) -> int {
    extent - 2 * padding - gaps(spacing, count)
}

/// The total of the minimums of the children that do not expand.
pub open spec fn fixed_total(items: Seq<StackItem>) -> int
    decreases items.len(),
{
    if items.len() == 0 {
        0
    } else {
        fixed_total(items.drop_last()) + if items.last().expand {
            0
        } else {
            items.last().minimum as int
        }
    }
}

/// The total of the minimums of all children.
pub open spec fn minimum_total(items: Seq<StackItem>) -> int
    decreases items.len(),
{
    if items.len() == 0 {
        0
    } else {
        minimum_total(items.drop_last()) + items.last().minimum
    }
}

/// The largest cross minimum of the children, and no less than zero.
pub open spec fn cross_peak(items: Seq<StackItem>) -> int
    decreases items.len(),
{
    if items.len() == 0 {
        0
    } else {
        larger(cross_peak(items.drop_last()), items.last().cross_minimum as int)
    }
}

/// The positions of the children that expand.
pub open spec fn expanding(items: Seq<StackItem>) -> Set<int> {
    Set::new(|i: int| 0 <= i < items.len() && items[i].expand)
}

/// Whether `c` is the child examined first among `pending`: the one of the
/// largest minimum, and among equals the first in the list.
pub open spec fn leads(items: Seq<StackItem>, pending: Set<int>, c: int) -> bool {
    &&& pending.contains(c)
    &&& forall|i: int| #[trigger]
        pending.contains(i) ==> items[i].minimum < items[c].minimum || (items[i].minimum
            == items[c].minimum && c <= i)
}

/// The child examined first among `pending`.
pub open spec fn leader(items: Seq<StackItem>, pending: Set<int>) -> int {
    choose|c: int| leads(items, pending, c)
}

/// The equal part of `space` for each of `sharers` children, rounded toward
/// zero; nothing where nobody shares.
pub open spec fn share(space: int, sharers: int) -> int {
    if sharers > 0 {
        quotient(space, sharers)
    } else {
        0
    }
}

/// The children that still share once the sharing has settled, and the space
/// left to them. As long as the minimum of the leader exceeds the equal share,
/// the leader keeps its minimum, which is taken from the space, and leaves.
pub open spec fn settled(items: Seq<StackItem>, pending: Set<int>, space: int) -> (Set<int>, int)
    decreases pending.len(),
{
    let c = leader(items, pending);
    if pending.finite() && pending.contains(c) && items[c].minimum > share(
        space,
        pending.len() as int,
    ) {
        settled(items, pending.remove(c), space - items[c].minimum)
    } else {
        (pending, space)
    }
}

/// The outcome of the sharing among the children of a parent: who still shares,
/// and the space left to them.
pub open spec fn outcome(items: Seq<StackItem>, extent: int, padding: int, spacing: int) -> (
    Set<int>,
    int,
) {
    settled(
        items,
        expanding(items),
        available(extent, padding, spacing, items.len() as int) - fixed_total(items),
    )
}

/// The equal share that the sharing children of a parent receive.
pub open spec fn final_share(
    items: Seq<StackItem>,
    extent: int,
    padding: int,
    spacing: int,
) -> int {
    let end = outcome(items, extent, padding, spacing);
    share(end.1, end.0.len() as int)
}

/// The extent of child `i` along the axis: the equal share, and no less than
/// its minimum, if it still shares; its minimum otherwise.
pub open spec fn stack_extent(
    items: Seq<StackItem>,
    extent: int,
    padding: int,
    spacing: int,
    i: int,
) -> int {
    if outcome(items, extent, padding, spacing).0.contains(i) {
        saturated(larger(final_share(items, extent, padding, spacing), items[i].minimum as int))
    } else {
        items[i].minimum as int
    }
}

/// Where child `i` starts along the axis: after the padding, the children
/// before it, and one gap behind each of them.
pub open spec fn stack_start(
    items: Seq<StackItem>,
    extent: int,
    padding: int,
    spacing: int,
    i: int,
) -> int
    decreases i,
{
    if i <= 0 {
        padding
    } else {
        stack_start(items, extent, padding, spacing, i - 1) + stack_extent(
            items,
            extent,
            padding,
            spacing,
            i - 1,
        ) + spacing
    }
}

/// The extent of a child across the axis: what the parent has between its
/// paddings, and no less than the child's minimum, if it expands that way; its
/// minimum otherwise.
pub open spec fn cross_extent_of(item: StackItem, cross_extent: int, padding: int) -> int {
    if item.cross_expand {
        saturated(larger(cross_extent - 2 * padding, item.cross_minimum as int))
    } else {
        item.cross_minimum as int
    }
}

/// The place of child `i` in a parent of the given extents.
pub open spec fn stacked_at(
    items: Seq<StackItem>,
    extent: int,
    cross_extent: int,
    padding: int,
    spacing: int,
    i: int,
) -> StackPlace {
    StackPlace {
        offset: saturated(stack_start(items, extent, padding, spacing, i)) as i32,
        extent: stack_extent(items, extent, padding, spacing, i) as i32,
        cross_offset: padding as i32,
        cross_extent: cross_extent_of(items[i], cross_extent, padding) as i32,
    }
}

/// The minimum extent along the axis of a parent that stacks these children:
/// their minimums, the gaps between them, and the padding at both ends.
pub open spec fn stack_minimum(items: Seq<StackItem>, padding: int, spacing: int) -> int {
    2 * padding + gaps(spacing, items.len() as int) + minimum_total(items)
}

/// The minimum extent across the axis of a parent that stacks these children:
/// their largest cross minimum, and the padding at both ends.
pub open spec fn stack_cross_minimum(items: Seq<StackItem>, padding: int) -> int {
    cross_peak(items) + 2 * padding
}

/// The total of the gaps between `count` children, computed.
fn gaps_total(spacing: Scalar, count: usize) -> (r: i128)
    ensures
        r == gaps(spacing as int, count as int),
        -0x8000_0000 * (count as int) <= r <= 0x8000_0000 * (count as int),
{
    if count > 0 {
        let between: i128 = (count - 1) as i128;
        let wide: i128 = spacing as i128;
        assert(-0x8000_0000 * between <= wide * between <= 0x8000_0000 * between)
            by (nonlinear_arith)
            requires
                -0x8000_0000 <= wide <= 0x7fff_ffff,
                0 <= between,
        ;
        wide * between
    } else {
        0
    }
}

/// The minimum extents of a parent that stacks these children: along the axis
/// and across it, each clamped into the scalar range.
pub fn minimum_extents(items: &Vec<StackItem>, padding: Scalar, spacing: Scalar) -> (r: (
    Scalar,
    Scalar,
))
    ensures
        r.0 == saturated(stack_minimum(items@, padding as int, spacing as int)),
        r.1 == saturated(stack_cross_minimum(items@, padding as int)),
{
    let count = items.len();
    let mut total: i128 = 0;
    let mut peak: Scalar = 0;
    let mut i: usize = 0;
    while i < count
        invariant
            count == items.len(),
            0 <= i <= count,
            total == minimum_total(items@.take(i as int)),
            peak == cross_peak(items@.take(i as int)),
            -0x8000_0000 * (i as int) <= total <= 0x8000_0000 * (i as int),
        decreases count - i,
    {
        proof {
            assert(items@.take(i + 1).drop_last() =~= items@.take(i as int));
        }
        total = total + items[i].minimum as i128;
        peak = scalar_max(peak, items[i].cross_minimum);
        i = i + 1;
    }
    proof {
        assert(items@.take(count as int) =~= items@);
    }
    let along = 2 * padding as i128 + gaps_total(spacing, count) + total;
    let across = peak as i128 + 2 * padding as i128;
    (saturate(along), saturate(across))
}

/// Finds the child examined first among those that still share.
fn find_leader(items: &Vec<StackItem>, sharing: &Vec<bool>, Ghost(pending): Ghost<Set<int>>) -> (c:
    usize)
    requires
        sharing.len() == items.len(),
        forall|i: int| 0 <= i < items.len() ==> (#[trigger] sharing[i] <==> pending.contains(i)),
        forall|i: int| #[trigger] pending.contains(i) ==> 0 <= i < items.len(),
        exists|i: int| pending.contains(i),
    ensures
        c < items.len(),
        leads(items@, pending, c as int),
        c as int == leader(items@, pending),
{
    let count = items.len();
    let mut best: usize = 0;
    let mut found = false;
    let mut i: usize = 0;
    while i < count
        invariant
            count == items.len(),
            sharing.len() == count,
            0 <= i <= count,
            forall|j: int| 0 <= j < count ==> (#[trigger] sharing[j] <==> pending.contains(j)),
            found ==> best < i && pending.contains(best as int),
            found ==> forall|j: int|
                0 <= j < i && #[trigger] pending.contains(j) ==> items[j].minimum
                    < items[best as int].minimum || (items[j].minimum == items[best as int].minimum
                    && best <= j),
            !found ==> forall|j: int| 0 <= j < i ==> !#[trigger] pending.contains(j),
        decreases count - i,
    {
        if sharing[i] && (!found || items[i].minimum > items[best].minimum) {
            best = i;
            found = true;
        }
        i = i + 1;
    }
    proof {
        assert(found) by {
            let w = choose|w: int| pending.contains(w);
            assert(pending.contains(w));
        }
        assert(leads(items@, pending, best as int));
        let chosen = leader(items@, pending);
        assert(leads(items@, pending, chosen));
        assert(pending.contains(chosen));
    }
    best
}

/// Stacks the children along the axis of a parent of the given extents, and
/// returns the place of each.
pub fn arrange(
    items: &Vec<StackItem>,
    extent: Scalar,
    cross_extent: Scalar,
    padding: Scalar,
    spacing: Scalar,
) -> (places: Vec<StackPlace>)
    ensures
        places.len() == items.len(),
        forall|i: int|
            0 <= i < items.len() ==> #[trigger] places[i] == stacked_at(
                items@,
                extent as int,
                cross_extent as int,
                padding as int,
                spacing as int,
                i,
            ),
{
    let count = items.len();
    let room: i128 = extent as i128 - 2 * padding as i128 - gaps_total(spacing, count);
    // Children that do not expand keep their minimum.
    let mut sharing: Vec<bool> = Vec::new();
    let mut space: i128 = room;
    let mut sharers: usize = 0;
    let ghost mut pending: Set<int> = Set::empty();
    let mut i: usize = 0;
    while i < count
        invariant
            count == items.len(),
            0 <= i <= count,
            sharing.len() == i,
            sharers <= i,
            pending.finite(),
            pending.len() == sharers,
            pending =~= expanding(items@.take(i as int)),
            forall|j: int| 0 <= j < i ==> (#[trigger] sharing[j] <==> pending.contains(j)),
            space == room - fixed_total(items@.take(i as int)),
            -0x8000_0000 * ((i - sharers) as int) <= room - space <= 0x8000_0000 * ((i
                - sharers) as int),
            -0x8000_0000 * (count as int) - 0x2_0000_0000 <= room <= 0x8000_0000 * (count as int)
                + 0x2_0000_0000,
        decreases count - i,
    {
        proof {
            assert(items@.take(i + 1).drop_last() =~= items@.take(i as int));
            if items[i as int].expand {
                assert(expanding(items@.take(i + 1)) =~= pending.insert(i as int));
            } else {
                assert(expanding(items@.take(i + 1)) =~= pending);
            }
        }
        if items[i].expand {
            sharing.push(true);
            sharers = sharers + 1;
            proof {
                pending = pending.insert(i as int);
            }
        } else {
            sharing.push(false);
            space = space - items[i].minimum as i128;
        }
        i = i + 1;
    }
    proof {
        assert(items@.take(count as int) =~= items@);
    }
    // An expanding child whose minimum exceeds the equal share keeps its
    // minimum and leaves the sharing, largest minimum first.
    let ghost first_pending = pending;
    let ghost first_space = space as int;
    let mut settling = true;
    while settling && sharers > 0
        invariant
            count == items.len(),
            sharing.len() == count,
            sharers <= count,
            pending.finite(),
            pending.len() == sharers,
            forall|j: int| 0 <= j < count ==> (#[trigger] sharing[j] <==> pending.contains(j)),
            forall|j: int| #[trigger] pending.contains(j) ==> 0 <= j < count,
            settled(items@, first_pending, first_space) == if settling {
                settled(items@, pending, space as int)
            } else {
                (pending, space as int)
            },
            -0x8000_0000 * ((count - sharers) as int) <= room - space <= 0x8000_0000 * ((count
                - sharers) as int),
            -0x8000_0000 * (count as int) - 0x2_0000_0000 <= room <= 0x8000_0000 * (count as int)
                + 0x2_0000_0000,
        decreases sharers + if settling { 1int } else { 0int },
    {
        proof {
            assert(pending.len() > 0);
            assert(exists|w: int| pending.contains(w)) by {
                if pending =~= Set::<int>::empty() {
                    assert(pending.len() == 0);
                }
                if forall|w: int| !pending.contains(w) {
                    assert(pending =~= Set::<int>::empty());
                }
            }
        }
        let c = find_leader(items, &sharing, Ghost(pending));
        let part: i128 = space / (sharers as i128);
        if items[c].minimum as i128 > part {
            sharing.set(c, false);
            space = space - items[c].minimum as i128;
            sharers = sharers - 1;
            proof {
                pending = pending.remove(c as int);
            }
        } else {
            settling = false;
        }
    }
    let part: i128 = if sharers > 0 {
        space / (sharers as i128)
    } else {
        0
    };
    proof {
        if settling {
            assert(pending.len() == 0);
            assert(!pending.contains(leader(items@, pending))) by {
                if pending.contains(leader(items@, pending)) {
                    assert(pending.len() > 0);
                }
            }
        }
        assert(outcome(items@, extent as int, padding as int, spacing as int) == (
            pending,
            space as int,
        ));
        assert(part == final_share(items@, extent as int, padding as int, spacing as int));
    }
    // Place the children one behind the other.
    let mut places: Vec<StackPlace> = Vec::new();
    let mut start: i128 = padding as i128;
    let mut k: usize = 0;
    while k < count
        invariant
            count == items.len(),
            sharing.len() == count,
            0 <= k <= count,
            places.len() == k,
            forall|j: int| 0 <= j < count ==> (#[trigger] sharing[j] <==> pending.contains(j)),
            outcome(items@, extent as int, padding as int, spacing as int) == (
                pending,
                space as int,
            ),
            part == final_share(items@, extent as int, padding as int, spacing as int),
            start == stack_start(items@, extent as int, padding as int, spacing as int, k as int),
            -0x1_0000_0000 * (k as int) - 0x8000_0000 <= start <= 0x1_0000_0000 * (k as int)
                + 0x8000_0000,
            forall|j: int|
                0 <= j < k ==> #[trigger] places[j] == stacked_at(
                    items@,
                    extent as int,
                    cross_extent as int,
                    padding as int,
                    spacing as int,
                    j,
                ),
        decreases count - k,
    {
        let item = items[k];
        let along: Scalar = if sharing[k] {
            saturate(
                if part >= item.minimum as i128 {
                    part
                } else {
                    item.minimum as i128
                },
            )
        } else {
            item.minimum
        };
        let room_across: i128 = cross_extent as i128 - 2 * padding as i128;
        let across: Scalar = if item.cross_expand {
            saturate(
                if room_across >= item.cross_minimum as i128 {
                    room_across
                } else {
                    item.cross_minimum as i128
                },
            )
        } else {
            item.cross_minimum
        };
        places.push(
            StackPlace {
                offset: saturate(start),
                extent: along,
                cross_offset: padding,
                cross_extent: across,
            },
        );
        start = start + along as i128 + spacing as i128;
        k = k + 1;
    }
    places
}

/// Pointwise larger minimums give a larger total.
proof fn lemma_minimum_total_monotonic(a: Seq<StackItem>, b: Seq<StackItem>)
    requires
        a.len() == b.len(),
        forall|i: int| 0 <= i < a.len() ==> a[i].minimum <= b[i].minimum,
    ensures
        minimum_total(a) <= minimum_total(b),
    decreases a.len(),
{
    if a.len() > 0 {
        lemma_minimum_total_monotonic(a.drop_last(), b.drop_last());
    }
}

/// Pointwise larger cross minimums give a larger peak.
proof fn lemma_cross_peak_monotonic(a: Seq<StackItem>, b: Seq<StackItem>)
    requires
        a.len() == b.len(),
        forall|i: int| 0 <= i < a.len() ==> a[i].cross_minimum <= b[i].cross_minimum,
    ensures
        cross_peak(a) <= cross_peak(b),
    decreases a.len(),
{
    if a.len() > 0 {
        lemma_cross_peak_monotonic(a.drop_last(), b.drop_last());
    }
}

/// The peak is no less than any cross minimum, and no less than zero.
proof fn lemma_cross_peak_covers(items: Seq<StackItem>, i: int)
    requires
        0 <= i < items.len(),
    ensures
        cross_peak(items) >= items[i].cross_minimum,
        cross_peak(items) >= 0,
    decreases items.len(),
{
    if i < items.len() - 1 {
        lemma_cross_peak_covers(items.drop_last(), i);
    } else if items.len() > 1 {
        lemma_cross_peak_covers(items.drop_last(), 0);
    }
}

/// The minimum size of a stacking parent never shrinks when the minimum of a
/// child grows: if every child of `b` has minimums at least as large as the
/// child of `a` in its place, the parent of `b` has minimums at least as large
/// as the parent of `a`, before and after clamping.
pub proof fn lemma_stack_minimum_monotonic(
    a: Seq<StackItem>,
    b: Seq<StackItem>,
    padding: int,
    spacing: int,
)
    requires
        a.len() == b.len(),
        forall|i: int|
            0 <= i < a.len() ==> a[i].minimum <= b[i].minimum && a[i].cross_minimum
                <= b[i].cross_minimum,
    ensures
        stack_minimum(a, padding, spacing) <= stack_minimum(b, padding, spacing),
        stack_cross_minimum(a, padding) <= stack_cross_minimum(b, padding),
        saturated(stack_minimum(a, padding, spacing)) <= saturated(
            stack_minimum(b, padding, spacing),
        ),
        saturated(stack_cross_minimum(a, padding)) <= saturated(stack_cross_minimum(b, padding)),
{
    lemma_minimum_total_monotonic(a, b);
    lemma_cross_peak_monotonic(a, b);
}

/// The minimum size of a stacking parent covers what its children need: where
/// the sum along the axis and the peak across it fit the scalar range, the
/// clamped minimums are no less than they, and the cross minimum is no less
/// than the cross minimum of any child with the padding at both ends.
pub proof fn lemma_stack_minimum_covers(items: Seq<StackItem>, padding: int, spacing: int, i: int)
    requires
        0 <= i < items.len(),
        stack_minimum(items, padding, spacing) <= i32::MAX,
        stack_cross_minimum(items, padding) <= i32::MAX,
    ensures
        saturated(stack_minimum(items, padding, spacing)) >= stack_minimum(items, padding, spacing),
        saturated(stack_cross_minimum(items, padding)) >= stack_cross_minimum(items, padding),
        stack_cross_minimum(items, padding) >= items[i].cross_minimum + 2 * padding,
{
    lemma_cross_peak_covers(items, i);
}

/// Taking a child whose minimum exceeds the equal share out of the sharing
/// does not raise the share of the others.
proof fn lemma_share_shrinks(space: int, sharers: int, minimum: int)
    requires
        sharers >= 2,
        minimum > share(space, sharers),
    ensures
        share(space - minimum, sharers - 1) <= share(space, sharers),
{
    let k = sharers;
    let q = share(space, k);
    let rest = space - minimum;
    if space >= 0 {
        assert(q == space / k);
        assert(space < k * (space / k) + k) by (nonlinear_arith)
            requires
                space >= 0,
                k >= 2,
        ;
        assert(rest < (k - 1) * (q + 1)) by (nonlinear_arith)
            requires
                space < k * q + k,
                rest <= space - q - 1,
                k >= 2,
        ;
        if rest >= 0 {
            assert(rest / (k - 1) <= q) by (nonlinear_arith)
                requires
                    0 <= rest < (k - 1) * (q + 1),
                    k >= 2,
            ;
        } else {
            assert((-rest) / (k - 1) >= 0) by (nonlinear_arith)
                requires
                    -rest >= 0,
                    k >= 2,
            ;
            assert(q >= 0) by (nonlinear_arith)
                requires
                    q == space / k,
                    space >= 0,
                    k >= 2,
            ;
        }
    } else {
        let t = (-space) / k;
        assert(q == -t);
        assert(k * t <= -space && t >= 0) by (nonlinear_arith)
            requires
                t == (-space) / k,
                -space >= 0,
                k >= 2,
        ;
        assert(-rest > (k - 1) * t) by (nonlinear_arith)
            requires
                rest <= space - q - 1,
                q == -t,
                k * t <= -space,
                k >= 2,
        ;
        assert((-rest) / (k - 1) >= t) by (nonlinear_arith)
            requires
                -rest > (k - 1) * t,
                t >= 0,
                k >= 2,
        ;
    }
}

/// What holds once the sharing has settled: who still shares shared before;
/// none of them has a minimum above the final share; and, where somebody
/// still shares, the final share is no more than the first, and every child
/// that left has a minimum above the final share.
proof fn lemma_settled(items: Seq<StackItem>, pending: Set<int>, space: int)
    requires
        pending.finite(),
    ensures
        ({
            let end = settled(items, pending, space);
            &&& end.0.finite()
            &&& end.0.subset_of(pending)
            &&& forall|i: int| #[trigger]
                end.0.contains(i) ==> items[i].minimum <= share(end.1, end.0.len() as int)
            &&& end.0.len() > 0 ==> {
                &&& share(end.1, end.0.len() as int) <= share(space, pending.len() as int)
                &&& forall|i: int|
                    pending.contains(i) && !#[trigger] end.0.contains(i) ==> items[i].minimum
                        > share(end.1, end.0.len() as int)
            }
        }),
    decreases pending.len(),
{
    let c = leader(items, pending);
    let end = settled(items, pending, space);
    if pending.contains(c) && items[c].minimum > share(space, pending.len() as int) {
        let rest = pending.remove(c);
        lemma_settled(items, rest, space - items[c].minimum);
        if end.0.len() > 0 {
            assert(rest.len() > 0) by {
                vstd::set_lib::lemma_len_subset(end.0, rest);
            }
            lemma_share_shrinks(space, pending.len() as int, items[c].minimum as int);
        }
    } else {
        if pending.len() > 0 {
            assert(exists|w: int| pending.contains(w)) by {
                if forall|w: int| !pending.contains(w) {
                    assert(pending =~= Set::<int>::empty());
                }
            }
            assert(exists|d: int| leads(items, pending, d)) by {
                lemma_leader_exists(items, pending);
            }
            assert(leads(items, pending, c));
        } else {
            assert(forall|i: int| !pending.contains(i)) by {
                if exists|i: int| pending.contains(i) {
                    let i = choose|i: int| pending.contains(i);
                    assert(pending.len() > 0);
                }
            }
        }
    }
}

/// Among finitely many pending children, one leads.
proof fn lemma_leader_exists(items: Seq<StackItem>, pending: Set<int>)
    requires
        pending.finite(),
        pending.len() > 0,
    ensures
        exists|d: int| leads(items, pending, d),
    decreases pending.len(),
{
    let w = pending.choose();
    assert(pending.contains(w)) by {
        if forall|x: int| !pending.contains(x) {
            assert(pending =~= Set::<int>::empty());
        }
    }
    let rest = pending.remove(w);
    if rest.len() == 0 {
        assert(forall|i: int| pending.contains(i) ==> i == w) by {
            assert forall|i: int| pending.contains(i) implies i == w by {
                if i != w {
                    assert(rest.contains(i));
                    assert(rest.len() > 0);
                }
            }
        }
        assert(leads(items, pending, w));
    } else {
        lemma_leader_exists(items, rest);
        let d = choose|d: int| leads(items, rest, d);
        if items[w].minimum > items[d].minimum || (items[w].minimum == items[d].minimum && w
            <= d) {
            assert forall|i: int| #[trigger] pending.contains(i) implies items[i].minimum
                < items[w].minimum || (items[i].minimum == items[w].minimum && w <= i) by {
                if i != w {
                    assert(rest.contains(i));
                }
            }
            assert(leads(items, pending, w));
        } else {
            assert forall|i: int| #[trigger] pending.contains(i) implies items[i].minimum
                < items[d].minimum || (items[i].minimum == items[d].minimum && d <= i) by {
                if i != w {
                    assert(rest.contains(i));
                }
            }
            assert(leads(items, pending, d));
        }
    }
}

/// No child is ever placed with less than its minimum extent, however little
/// room the parent has.
pub proof fn lemma_never_below_minimum(
    items: Seq<StackItem>,
    extent: int,
    cross_extent: int,
    padding: int,
    spacing: int,
    i: int,
)
    requires
        0 <= i < items.len(),
    ensures
        stack_extent(items, extent, padding, spacing, i) >= items[i].minimum,
        cross_extent_of(items[i], cross_extent, padding) >= items[i].cross_minimum,
{
}

/// The children that still share all receive exactly the final share, and
/// none of them has a minimum above it.
pub proof fn lemma_sharers_equal(
    items: Seq<StackItem>,
    extent: int,
    padding: int,
    spacing: int,
    i: int,
)
    requires
        outcome(items, extent, padding, spacing).0.contains(i),
    ensures
        0 <= i < items.len(),
        items[i].expand,
        items[i].minimum <= final_share(items, extent, padding, spacing),
        stack_extent(items, extent, padding, spacing, i) == saturated(
            final_share(items, extent, padding, spacing),
        ),
{
    lemma_expanding_finite(items);
    lemma_settled(
        items,
        expanding(items),
        available(extent, padding, spacing, items.len() as int) - fixed_total(items),
    );
}

/// Where some child still shares, every expanding child whose minimum does
/// not exceed the final share is one of the sharers: any two such children
/// receive exactly equal extents.
pub proof fn lemma_fair_share(
    items: Seq<StackItem>,
    extent: int,
    padding: int,
    spacing: int,
    i: int,
    j: int,
)
    requires
        outcome(items, extent, padding, spacing).0.len() > 0,
        0 <= i < items.len(),
        0 <= j < items.len(),
        items[i].expand,
        items[j].expand,
        items[i].minimum <= final_share(items, extent, padding, spacing),
        items[j].minimum <= final_share(items, extent, padding, spacing),
    ensures
        outcome(items, extent, padding, spacing).0.contains(i),
        outcome(items, extent, padding, spacing).0.contains(j),
        stack_extent(items, extent, padding, spacing, i) == stack_extent(
            items,
            extent,
            padding,
            spacing,
            j,
        ),
{
    lemma_expanding_finite(items);
    lemma_settled(
        items,
        expanding(items),
        available(extent, padding, spacing, items.len() as int) - fixed_total(items),
    );
    assert(expanding(items).contains(i));
    assert(expanding(items).contains(j));
}

/// The expanding children are finitely many.
proof fn lemma_expanding_finite(items: Seq<StackItem>)
    ensures
        expanding(items).finite(),
{
    let range = Set::new(|i: int| 0 <= i < items.len());
    vstd::set_lib::lemma_int_range(0, items.len() as int);
    assert(range =~= vstd::set_lib::set_int_range(0, items.len() as int));
    assert(expanding(items).subset_of(range));
    vstd::set_lib::lemma_len_subset(expanding(items), range);
}


/// The total of the extents of the first `upto` children.
pub open spec fn extent_total(
    items: Seq<StackItem>,
    extent: int,
    padding: int,
    spacing: int,
    upto: int,
) -> int
    decreases upto,
{
    if upto <= 0 {
        0
    } else {
        extent_total(items, extent, padding, spacing, upto - 1) + stack_extent(
            items,
            extent,
            padding,
            spacing,
            upto - 1,
        )
    }
}

/// Where the last child ends along the axis: after the padding, all the
/// children, and the gaps between them.
pub open spec fn stack_end(items: Seq<StackItem>, extent: int, padding: int, spacing: int) -> int {
    padding + extent_total(items, extent, padding, spacing, items.len() as int) + gaps(
        spacing,
        items.len() as int,
    )
}

/// The total of the minimums of those of the first `upto` children that are
/// among `keep`.
spec fn sum_where(items: Seq<StackItem>, keep: Set<int>, upto: int) -> int
    decreases upto,
{
    if upto <= 0 {
        0
    } else {
        sum_where(items, keep, upto - 1) + if keep.contains(upto - 1) {
            items[upto - 1].minimum as int
        } else {
            0
        }
    }
}

/// How many of the first `upto` positions are among `keep`.
spec fn count_in(keep: Set<int>, upto: int) -> int
    decreases upto,
{
    if upto <= 0 {
        0
    } else {
        count_in(keep, upto - 1) + if keep.contains(upto - 1) {
            1int
        } else {
            0int
        }
    }
}

/// A child starts after the padding, the children before it, and one gap
/// behind each of them.
proof fn lemma_start_is_total(
    items: Seq<StackItem>,
    extent: int,
    padding: int,
    spacing: int,
    i: int,
)
    requires
        0 <= i,
    ensures
        stack_start(items, extent, padding, spacing, i) == padding + extent_total(
            items,
            extent,
            padding,
            spacing,
            i,
        ) + i * spacing,
    decreases i,
{
    if i > 0 {
        lemma_start_is_total(items, extent, padding, spacing, i - 1);
        assert((i - 1) * spacing + spacing == i * spacing) by (nonlinear_arith);
    } else {
        assert(i * spacing == 0) by (nonlinear_arith)
            requires
                i == 0,
        ;
    }
}

/// The end of the last child is where it starts and as far on as it
/// extends.
pub proof fn lemma_stack_end(items: Seq<StackItem>, extent: int, padding: int, spacing: int)
    requires
        items.len() > 0,
    ensures
        stack_end(items, extent, padding, spacing) == stack_start(
            items,
            extent,
            padding,
            spacing,
            items.len() - 1,
        ) + stack_extent(items, extent, padding, spacing, items.len() - 1),
{
    let last = items.len() - 1;
    lemma_start_is_total(items, extent, padding, spacing, last);
    assert(spacing * last == last * spacing) by (nonlinear_arith);
    assert(extent_total(items, extent, padding, spacing, last + 1) == extent_total(
        items,
        extent,
        padding,
        spacing,
        last,
    ) + stack_extent(items, extent, padding, spacing, last));
}

/// Two sets that agree on the first positions give the same total.
proof fn lemma_sum_where_agrees(items: Seq<StackItem>, a: Set<int>, b: Set<int>, upto: int)
    requires
        forall|i: int| 0 <= i < upto ==> a.contains(i) == b.contains(i),
    ensures
        sum_where(items, a, upto) == sum_where(items, b, upto),
        count_in(a, upto) == count_in(b, upto),
    decreases upto,
{
    if upto > 0 {
        lemma_sum_where_agrees(items, a, b, upto - 1);
    }
}

/// The total over two sets without a common position is the sum of the
/// totals over each.
proof fn lemma_sum_where_apart(items: Seq<StackItem>, a: Set<int>, b: Set<int>, upto: int)
    requires
        forall|i: int| 0 <= i < upto ==> !(a.contains(i) && b.contains(i)),
    ensures
        sum_where(items, a.union(b), upto) == sum_where(items, a, upto) + sum_where(items, b, upto),
    decreases upto,
{
    if upto > 0 {
        lemma_sum_where_apart(items, a, b, upto - 1);
    }
}

/// A total of minimums that are not negative is not negative.
proof fn lemma_sum_where_not_negative(items: Seq<StackItem>, keep: Set<int>, upto: int)
    requires
        upto <= items.len(),
        forall|i: int| 0 <= i < items.len() ==> items[i].minimum >= 0,
    ensures
        sum_where(items, keep, upto) >= 0,
    decreases upto,
{
    if upto > 0 {
        lemma_sum_where_not_negative(items, keep, upto - 1);
    }
}

/// The positions of all children.
spec fn positions(items: Seq<StackItem>) -> Set<int> {
    Set::new(|i: int| 0 <= i < items.len())
}

/// The positions of the children that do not expand.
spec fn fixed(items: Seq<StackItem>) -> Set<int> {
    Set::new(|i: int| 0 <= i < items.len() && !items[i].expand)
}

/// The totals of the minimums, as totals over positions.
proof fn lemma_totals(items: Seq<StackItem>, upto: int)
    requires
        0 <= upto <= items.len(),
    ensures
        fixed_total(items.take(upto)) == sum_where(items, fixed(items), upto),
        minimum_total(items.take(upto)) == sum_where(items, positions(items), upto),
    decreases upto,
{
    if upto > 0 {
        lemma_totals(items, upto - 1);
        assert(items.take(upto).drop_last() =~= items.take(upto - 1));
    }
}

/// The children that still share are as many as their positions.
proof fn lemma_count_in(keep: Set<int>, upto: int)
    requires
        keep.finite(),
        0 <= upto,
        forall|i: int| #[trigger] keep.contains(i) ==> 0 <= i < upto,
    ensures
        count_in(keep, upto) == keep.len(),
    decreases upto,
{
    if upto == 0 {
        assert(keep =~= Set::<int>::empty());
    } else {
        let rest = keep.remove(upto - 1);
        lemma_count_in(rest, upto - 1);
        lemma_sum_where_agrees(Seq::<StackItem>::empty(), keep, rest, upto - 1);
    }
}

/// What the sharing has left is what there was, less the minimums of the
/// children that have left the sharing.
proof fn lemma_settled_space(items: Seq<StackItem>, pending: Set<int>, space: int)
    requires
        pending.finite(),
        forall|i: int| #[trigger] pending.contains(i) ==> 0 <= i < items.len(),
    ensures
        ({
            let end = settled(items, pending, space);
            end.1 == space - sum_where(items, pending.difference(end.0), items.len() as int)
        }),
    decreases pending.len(),
{
    let c = leader(items, pending);
    let end = settled(items, pending, space);
    let count = items.len() as int;
    if pending.contains(c) && items[c].minimum > share(space, pending.len() as int) {
        let rest = pending.remove(c);
        lemma_settled_space(items, rest, space - items[c].minimum);
        lemma_settled(items, rest, space - items[c].minimum);
        let gone = rest.difference(end.0);
        let single = Set::<int>::empty().insert(c);
        assert(pending.difference(end.0) =~= gone.union(single));
        lemma_sum_where_apart(items, gone, single, count);
        lemma_sum_where_single(items, c, count);
    } else {
        assert(pending.difference(end.0) =~= Set::<int>::empty());
        lemma_sum_where_none(items, count);
    }
}

/// The total over no position is nothing.
proof fn lemma_sum_where_none(items: Seq<StackItem>, upto: int)
    ensures
        sum_where(items, Set::<int>::empty(), upto) == 0,
    decreases upto,
{
    if upto > 0 {
        lemma_sum_where_none(items, upto - 1);
    }
}

/// The total over one position is the minimum of the child there.
proof fn lemma_sum_where_single(items: Seq<StackItem>, c: int, upto: int)
    requires
        0 <= c,
    ensures
        sum_where(items, Set::<int>::empty().insert(c), upto) == if c < upto {
            items[c].minimum as int
        } else {
            0
        },
    decreases upto,
{
    if upto > 0 {
        lemma_sum_where_single(items, c, upto - 1);
    }
}

/// The extents of the first children are no more than the minimums of
/// those of them that do not share, and the final share for each of the
/// others.
proof fn lemma_extent_total_bound(
    items: Seq<StackItem>,
    extent: int,
    padding: int,
    spacing: int,
    upto: int,
)
    requires
        0 <= upto <= items.len(),
        forall|i: int| 0 <= i < items.len() ==> items[i].minimum >= 0,
    ensures
        ({
            let sharers = outcome(items, extent, padding, spacing).0;
            extent_total(items, extent, padding, spacing, upto) <= sum_where(
                items,
                positions(items).difference(sharers),
                upto,
            ) + count_in(sharers, upto) * final_share(items, extent, padding, spacing)
        }),
    decreases upto,
{
    if upto > 0 {
        lemma_extent_total_bound(items, extent, padding, spacing, upto - 1);
        let sharers = outcome(items, extent, padding, spacing).0;
        let part = final_share(items, extent, padding, spacing);
        let before = count_in(sharers, upto - 1);
        if sharers.contains(upto - 1) {
            lemma_sharers_equal(items, extent, padding, spacing, upto - 1);
            assert((before + 1) * part == before * part + part) by (nonlinear_arith);
        }
    }
}

/// The children fit into a parent that is no smaller than its minimum
/// extent: where no minimum is negative and the parent has at least the
/// minimum extent of a stacking parent, the last child ends no later than
/// at the padding before the far edge.
pub proof fn lemma_children_fit(items: Seq<StackItem>, extent: int, padding: int, spacing: int)
    requires
        forall|i: int| 0 <= i < items.len() ==> items[i].minimum >= 0,
        stack_minimum(items, padding, spacing) <= extent,
    ensures
        stack_end(items, extent, padding, spacing) + padding <= extent,
{
    let count = items.len() as int;
    let room = available(extent, padding, spacing, count);
    let end = outcome(items, extent, padding, spacing);
    let sharers = end.0;
    let part = final_share(items, extent, padding, spacing);
    let all = positions(items);
    let leavers = expanding(items).difference(sharers);
    lemma_expanding_finite(items);
    lemma_settled(items, expanding(items), room - fixed_total(items));
    lemma_settled_space(items, expanding(items), room - fixed_total(items));
    lemma_totals(items, count);
    assert(items.take(count) =~= items);
    // The children that do not share are those that do not expand and
    // those that have left the sharing.
    assert forall|i: int| 0 <= i < count implies all.difference(sharers).contains(i) == fixed(
        items,
    ).union(leavers).contains(i) by {}
    lemma_sum_where_agrees(items, all.difference(sharers), fixed(items).union(leavers), count);
    lemma_sum_where_apart(items, fixed(items), leavers, count);
    // All children are those that share and those that do not.
    assert forall|i: int| 0 <= i < count implies all.contains(i) == all.difference(
        sharers,
    ).union(sharers).contains(i) by {}
    lemma_sum_where_agrees(items, all, all.difference(sharers).union(sharers), count);
    lemma_sum_where_apart(items, all.difference(sharers), sharers, count);
    lemma_sum_where_not_negative(items, sharers, count);
    assert(end.1 >= 0);
    lemma_count_in(sharers, count);
    lemma_extent_total_bound(items, extent, padding, spacing, count);
    let sharing = sharers.len() as int;
    if sharing > 0 {
        assert(sharing * (end.1 / sharing) <= end.1) by (nonlinear_arith)
            requires
                sharing > 0,
                end.1 >= 0,
        ;
    } else {
        assert(sharing * part == 0) by (nonlinear_arith)
            requires
                sharing == 0,
        ;
    }
}

} // verus!
