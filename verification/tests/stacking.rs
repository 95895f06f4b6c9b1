use ganache::stacking::{arrange, minimum_extents, StackItem, StackPlace};

fn item(minimum: i32, expand: bool) -> StackItem {
    StackItem { minimum, expand, cross_minimum: 0, cross_expand: false }
}

fn extents(places: &[StackPlace]) -> Vec<i32> {
    places.iter().map(|place| place.extent).collect()
}

fn offsets(places: &[StackPlace]) -> Vec<i32> {
    places.iter().map(|place| place.offset).collect()
}

#[test]
fn no_children_are_placed_nowhere() {
    assert!(arrange(&vec![], 100, 100, 5, 2).is_empty());
    assert_eq!(minimum_extents(&vec![], 5, 2), (10, 10));
}

#[test]
fn fixed_children_keep_their_minimum() {
    let places = arrange(&vec![item(30, false), item(50, false)], 400, 100, 5, 2);
    assert_eq!(extents(&places), vec![30, 50]);
    assert_eq!(offsets(&places), vec![5, 37]);
}

#[test]
fn expanding_children_share_equally() {
    let places = arrange(&vec![item(0, true), item(0, true)], 400, 300, 5, 2);
    assert_eq!(extents(&places), vec![194, 194]);
    assert_eq!(offsets(&places), vec![5, 201]);
}

#[test]
fn the_share_is_rounded_toward_zero() {
    // 100 - 2 * 0 - 0 = 100 for three children: 33 each.
    let places = arrange(&vec![item(0, true), item(0, true), item(0, true)], 100, 0, 0, 0);
    assert_eq!(extents(&places), vec![33, 33, 33]);
    assert_eq!(offsets(&places), vec![0, 33, 66]);
}

#[test]
fn a_fixed_child_leaves_the_rest_to_the_others() {
    let places = arrange(&vec![item(100, false), item(0, true), item(10, true)], 300, 0, 0, 0);
    assert_eq!(extents(&places), vec![100, 100, 100]);
    assert_eq!(offsets(&places), vec![0, 100, 200]);
}

#[test]
fn a_child_above_the_share_keeps_its_minimum() {
    // The share of three is 100; the child of 160 keeps its minimum, and
    // the other two share 140.
    let places = arrange(&vec![item(10, true), item(160, true), item(20, true)], 300, 0, 0, 0);
    assert_eq!(extents(&places), vec![70, 160, 70]);
    assert_eq!(offsets(&places), vec![0, 70, 230]);
}

#[test]
fn children_leave_the_sharing_largest_first() {
    // 120 and 100 both exceed the first share of 75; after 120 has left, 100
    // still exceeds the share of 60, and the last two share 80.
    let places = arrange(
        &vec![item(100, true), item(0, true), item(120, true), item(30, true)],
        300,
        0,
        0,
        0,
    );
    assert_eq!(extents(&places), vec![100, 40, 120, 40]);
}

#[test]
fn among_equal_minimums_the_first_child_leaves_first() {
    // The share of two is 50: the first child of 60 leaves, and the second
    // has the 40 that are left to itself, which is less than its minimum.
    let places = arrange(&vec![item(60, true), item(60, true)], 100, 0, 0, 0);
    assert_eq!(extents(&places), vec![60, 60]);
    // With room for 130 neither exceeds the share of 65, and both receive it.
    let places = arrange(&vec![item(60, true), item(60, true)], 130, 0, 0, 0);
    assert_eq!(extents(&places), vec![65, 65]);
}

#[test]
fn no_child_is_pressed_below_its_minimum() {
    let places = arrange(&vec![item(40, true), item(50, false), item(60, true)], 20, 0, 5, 2);
    assert_eq!(extents(&places), vec![40, 50, 60]);
    assert_eq!(offsets(&places), vec![5, 47, 99]);
}

#[test]
fn without_room_the_share_is_negative_and_the_minimum_wins() {
    let places = arrange(&vec![item(0, true), item(0, true)], 0, 0, 10, 0);
    // -20 for two children: the minimum of 0 exceeds the share of -10, twice.
    assert_eq!(extents(&places), vec![0, 0]);
    assert_eq!(offsets(&places), vec![10, 10]);
}

#[test]
fn cross_extent_fills_the_parent_only_when_expanding() {
    let items = vec![
        StackItem { minimum: 10, expand: false, cross_minimum: 20, cross_expand: false },
        StackItem { minimum: 10, expand: false, cross_minimum: 20, cross_expand: true },
        StackItem { minimum: 10, expand: false, cross_minimum: 200, cross_expand: true },
    ];
    let places = arrange(&items, 100, 90, 5, 0);
    let across: Vec<i32> = places.iter().map(|place| place.cross_extent).collect();
    assert_eq!(across, vec![20, 80, 200]);
    assert!(places.iter().all(|place| place.cross_offset == 5));
}

#[test]
fn extents_are_clamped_into_the_scalar_range() {
    let places = arrange(&vec![item(0, true)], i32::MAX, 0, i32::MIN, 0);
    assert_eq!(extents(&places), vec![i32::MAX]);
    assert_eq!(offsets(&places), vec![i32::MIN]);
    let places = arrange(&vec![item(i32::MAX, false), item(i32::MAX, false)], 0, 0, 0, i32::MAX);
    assert_eq!(offsets(&places), vec![0, i32::MAX]);
}

#[test]
fn minimum_is_the_sum_along_and_the_peak_across() {
    let items = vec![
        StackItem { minimum: 10, expand: false, cross_minimum: 7, cross_expand: false },
        StackItem { minimum: 20, expand: true, cross_minimum: 30, cross_expand: false },
        StackItem { minimum: 5, expand: false, cross_minimum: 12, cross_expand: true },
    ];
    // 2 * 3 + 2 * 4 + 35 along, 30 + 2 * 3 across.
    assert_eq!(minimum_extents(&items, 3, 4), (49, 36));
}

#[test]
fn minimum_across_is_never_below_the_padding() {
    let items =
        vec![StackItem { minimum: 1, expand: false, cross_minimum: -50, cross_expand: false }];
    assert_eq!(minimum_extents(&items, 3, 4), (7, 6));
}

#[test]
fn minimum_grows_with_the_minimum_of_a_child() {
    let mut items = vec![
        StackItem { minimum: 10, expand: false, cross_minimum: 7, cross_expand: false },
        StackItem { minimum: 20, expand: true, cross_minimum: 30, cross_expand: false },
    ];
    let before = minimum_extents(&items, 1, 1);
    items[0].minimum = 11;
    items[0].cross_minimum = 31;
    let after = minimum_extents(&items, 1, 1);
    assert_eq!(before, (33, 32));
    assert_eq!(after, (34, 33));
}

#[test]
fn minimum_is_clamped_into_the_scalar_range() {
    let items = vec![item(i32::MAX, false), item(i32::MAX, false)];
    assert_eq!(minimum_extents(&items, 0, 0), (i32::MAX, 0));
    assert_eq!(minimum_extents(&vec![], i32::MIN, 0), (i32::MIN, i32::MIN));
}

#[test]
fn children_fit_a_parent_of_at_least_its_minimum_size() {
    let items = vec![item(10, true), item(25, false), item(0, true), item(40, true)];
    let (minimum, _) = minimum_extents(&items, 3, 2);
    assert_eq!(minimum, 87);
    for extent in [87, 88, 100, 101, 102, 250] {
        let places = arrange(&items, extent, 0, 3, 2);
        let last = places[3];
        assert!(last.offset + last.extent + 3 <= extent);
        for (before, after) in places.iter().zip(places.iter().skip(1)) {
            assert_eq!(before.offset + before.extent + 2, after.offset);
        }
    }
    // With one unit less the children reach into the padding.
    let places = arrange(&items, 86, 0, 3, 2);
    assert_eq!(places[3].offset + places[3].extent + 3, 87);
}
