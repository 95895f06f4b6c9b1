use ganache::placement::anchored_bounds;
use ganache::scalar::{saturate, saturating_negate, scalar_max};
use ganache::{Anchor, Bounds, Dimensions, GrowDirection, SlotInfo, ANCHOR_WHOLE};

fn half() -> Anchor {
    Anchor::new(ANCHOR_WHOLE / 2)
}

#[test]
fn an_anchor_holds_no_more_than_the_whole() {
    assert_eq!(Anchor::new(0).get(), 0);
    assert_eq!(Anchor::new(100).get(), 100);
    assert_eq!(Anchor::new(ANCHOR_WHOLE).get(), ANCHOR_WHOLE);
    assert_eq!(Anchor::new(ANCHOR_WHOLE + 1).get(), ANCHOR_WHOLE);
    assert_eq!(Anchor::new(u32::MAX), Anchor::one());
    assert_eq!(Anchor::new(0), Anchor::zero());
}

#[test]
fn scaling_rounds_toward_zero() {
    assert_eq!(half().scale(400), 200);
    assert_eq!(half().scale(401), 200);
    assert_eq!(half().scale(-401), -200);
    assert_eq!(Anchor::one().scale(i32::MAX), i32::MAX);
    assert_eq!(Anchor::one().scale(i32::MIN), i32::MIN);
    assert_eq!(Anchor::zero().scale(i32::MIN), 0);
    assert_eq!(Anchor::new(ANCHOR_WHOLE / 4).scale(10), 2);
}

#[test]
fn scalars_saturate() {
    assert_eq!(saturate(1 << 40), i32::MAX);
    assert_eq!(saturate(-(1 << 40)), i32::MIN);
    assert_eq!(saturate(-7), -7);
    assert_eq!(saturating_negate(i32::MIN), i32::MAX);
    assert_eq!(saturating_negate(5), -5);
    assert_eq!(scalar_max(3, -4), 3);
}

#[test]
fn a_plain_child_has_its_minimum_size_at_the_origin() {
    let bounds = anchored_bounds(
        Dimensions::new(400, 300),
        &SlotInfo::default(),
        Dimensions::new(30, 20),
    );
    assert_eq!(bounds, Bounds::new(0, 0, 30, 20));
}

#[test]
fn anchors_span_a_part_of_the_parent() {
    let info = SlotInfo {
        anchor_left: Anchor::new(ANCHOR_WHOLE / 4),
        anchor_right: Anchor::new(ANCHOR_WHOLE / 4 * 3),
        anchor_top: Anchor::zero(),
        anchor_bottom: Anchor::one(),
        ..Default::default()
    };
    let bounds = anchored_bounds(Dimensions::new(400, 300), &info, Dimensions::zero());
    assert_eq!(bounds, Bounds::new(100, 0, 200, 300));
}

#[test]
fn margins_move_the_origin_and_change_the_extent() {
    let info = SlotInfo {
        anchor_right: Anchor::one(),
        anchor_bottom: Anchor::one(),
        margin_left: 10,
        margin_right: -20,
        margin_top: 5,
        margin_bottom: -5,
        ..Default::default()
    };
    let bounds = anchored_bounds(Dimensions::new(400, 300), &info, Dimensions::zero());
    assert_eq!(bounds, Bounds::new(10, 5, 370, 290));
}

#[test]
fn the_minimum_size_wins_over_anchors_and_margins() {
    let info = SlotInfo {
        anchor_right: half(),
        anchor_bottom: half(),
        margin_right: -150,
        ..Default::default()
    };
    let bounds = anchored_bounds(Dimensions::new(400, 300), &info, Dimensions::new(120, 200));
    assert_eq!(bounds, Bounds::new(0, 0, 120, 200));
}

#[test]
fn growing_at_the_beginning_moves_the_origin_back_by_the_deficit() {
    let info = SlotInfo {
        anchor_left: Anchor::one(),
        anchor_right: Anchor::one(),
        anchor_top: half(),
        anchor_bottom: Anchor::one(),
        grow_x: GrowDirection::Begin,
        grow_y: GrowDirection::Begin,
        ..Default::default()
    };
    // Across: a box of no width at 400 and a minimum of 100. Down: a box of
    // 150 from 150 on and a minimum of 200, a deficit of 50.
    let bounds = anchored_bounds(Dimensions::new(400, 300), &info, Dimensions::new(100, 200));
    assert_eq!(bounds, Bounds::new(300, 100, 100, 200));
}

#[test]
fn growing_at_both_ends_splits_the_deficit() {
    let info = SlotInfo {
        anchor_left: half(),
        anchor_right: half(),
        anchor_top: half(),
        anchor_bottom: half(),
        grow_x: GrowDirection::Both,
        grow_y: GrowDirection::Both,
        ..Default::default()
    };
    let bounds = anchored_bounds(Dimensions::new(400, 300), &info, Dimensions::new(100, 51));
    // Half of 51 is 25 at each end; the extent is the minimum all the same.
    assert_eq!(bounds, Bounds::new(150, 125, 100, 51));
}

#[test]
fn growing_at_the_end_leaves_the_origin() {
    let info = SlotInfo { anchor_left: half(), anchor_right: half(), ..Default::default() };
    let bounds = anchored_bounds(Dimensions::new(400, 300), &info, Dimensions::new(100, 10));
    assert_eq!(bounds, Bounds::new(200, 0, 100, 10));
}

#[test]
fn a_box_that_holds_the_minimum_does_not_grow() {
    let info = SlotInfo {
        anchor_left: half(),
        anchor_right: Anchor::one(),
        grow_x: GrowDirection::Begin,
        grow_y: GrowDirection::Both,
        ..Default::default()
    };
    let bounds = anchored_bounds(Dimensions::new(400, 300), &info, Dimensions::new(200, 0));
    assert_eq!(bounds, Bounds::new(200, 0, 200, 0));
}

#[test]
fn placement_is_clamped_into_the_scalar_range() {
    let info = SlotInfo {
        anchor_right: Anchor::one(),
        margin_left: i32::MIN,
        margin_right: i32::MAX,
        margin_top: i32::MAX,
        ..Default::default()
    };
    let bounds = anchored_bounds(Dimensions::new(i32::MAX, 0), &info, Dimensions::zero());
    assert_eq!(bounds, Bounds::new(i32::MIN, i32::MAX, i32::MAX, 0));
}

#[test]
fn margins_apply_to_the_grown_box() {
    let info = SlotInfo {
        anchor_left: Anchor::one(),
        anchor_right: Anchor::one(),
        anchor_top: half(),
        anchor_bottom: half(),
        grow_x: GrowDirection::Begin,
        grow_y: GrowDirection::Both,
        margin_left: -110,
        margin_right: -10,
        margin_top: 4,
        margin_bottom: -4,
        ..Default::default()
    };
    let bounds = anchored_bounds(Dimensions::new(400, 300), &info, Dimensions::new(100, 60));
    // Across: the box from 300 to 400, moved by the margins to 190 and 390.
    // Down: the box from 120 to 180, moved to 124 and 176, and the minimum.
    assert_eq!(bounds, Bounds::new(190, 124, 200, 60));
}

#[test]
fn a_parent_of_negative_size_is_no_obstacle() {
    let info = SlotInfo {
        anchor_left: Anchor::new(ANCHOR_WHOLE / 4),
        anchor_right: Anchor::one(),
        grow_x: GrowDirection::Both,
        ..Default::default()
    };
    // The box runs from -25 to -100: an extent of -75 and a deficit of 85.
    let bounds = anchored_bounds(Dimensions::new(-100, -7), &info, Dimensions::new(10, 0));
    assert_eq!(bounds, Bounds::new(-67, 0, 10, 0));
}
