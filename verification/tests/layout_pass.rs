use ganache::default_layout::{self, Settings};
use ganache::layout;
use ganache::{
    Anchor, Bounds, Context, Dimensions, DrawArgs, GrowDirection, Gui, InputEvent,
    LayoutChildrenArgs, MinimumSizeArgs, MinimumSizeCache, ProcessEventArgs, ProcessEventResult,
    Scalar, SlotId, SlotInfo, Theme, Widget, ANCHOR_WHOLE,
};

/// An event without coordinates of its own.
#[derive(Default)]
struct Tick {
    moved: (Scalar, Scalar),
}

impl InputEvent for Tick {
    fn is_dirty(&self) -> bool {
        false
    }

    fn offset(&self) -> (Scalar, Scalar) {
        self.moved
    }

    fn dirty(&self) -> bool {
        false
    }

    fn offset_coordinates(&mut self, x: Scalar, y: Scalar) {
        self.moved = (self.moved.0.wrapping_add(x), self.moved.1.wrapping_add(y));
    }
}

struct Host;

impl Context for Host {
    type ThemeResources = ();
    type StyleFieldValue = ();
    type DrawCommand = ();
    type DrawContext = ();
    type InputEvent = Tick;
}

enum Piece {
    /// A container that stacks its children.
    Panel(Settings),
    /// A leaf of a fixed minimum size.
    Leaf(i32, i32),
}

impl Widget<Host> for Piece {
    fn focusable(&self) -> bool {
        false
    }

    fn kind_id(&self) -> &'static str {
        "Piece"
    }

    fn takes_focus(&self) -> bool {
        false
    }

    fn minimum_size(&self, args: MinimumSizeArgs<'_, Host>) -> Dimensions {
        match self {
            Piece::Panel(settings) => default_layout::minimum_size(&args, settings),
            Piece::Leaf(width, height) => Dimensions::new(*width, *height),
        }
    }

    fn layout_children(&self, args: LayoutChildrenArgs<'_, Host>) {
        match self {
            Piece::Panel(settings) => default_layout::layout_children(args, settings),
            Piece::Leaf(..) => panic!("a leaf has no children"),
        }
    }

    fn process_event(&mut self, _args: ProcessEventArgs<'_, Host>) -> ProcessEventResult {
        ProcessEventResult::default()
    }

    fn draw(&self, _args: DrawArgs<'_, Host>) {}
}

fn tree(width: i32, height: i32) -> Gui<Host, Piece> {
    let mut gui = Gui::new(Bounds::zero());
    let root = gui.root_slot_id();
    gui.slots.set_size(root, Dimensions::new(width, height));
    gui
}

fn panel(axis: default_layout::Axis, padding: i32, child_spacing: i32) -> Piece {
    Piece::Panel(Settings { axis, padding, child_spacing })
}

fn whole() -> SlotInfo {
    SlotInfo { anchor_right: Anchor::one(), anchor_bottom: Anchor::one(), ..Default::default() }
}

fn layout(gui: &mut Gui<Host, Piece>) {
    assert!(gui.layout_if_needed(&Theme::new(())));
}

#[test]
fn the_root_keeps_the_size_that_the_host_gives_it() {
    let mut gui: Gui<Host, Piece> = Gui::new(Bounds::new(0, 0, 800, 600));
    let root = gui.root_slot_id();
    gui.slots.set_size(root, Dimensions::new(400, 300));
    layout(&mut gui);
    assert_eq!(gui.slots.bounds(root), Bounds::new(0, 0, 400, 300));
}

#[test]
fn children_without_a_container_lie_where_their_anchors_put_them() {
    let mut gui = tree(400, 300);
    let root = gui.root_slot_id();
    let full = gui.slots.add(root, whole());
    let right_half = gui.slots.add(
        full,
        SlotInfo {
            anchor_left: Anchor::new(ANCHOR_WHOLE / 2),
            anchor_right: Anchor::one(),
            anchor_bottom: Anchor::one(),
            margin_left: 10,
            margin_right: -10,
            margin_top: 10,
            margin_bottom: -10,
            ..Default::default()
        },
    );
    let corner = gui.slots.add(
        right_half,
        SlotInfo {
            anchor_left: Anchor::one(),
            anchor_right: Anchor::one(),
            anchor_top: Anchor::one(),
            anchor_bottom: Anchor::one(),
            grow_x: GrowDirection::Begin,
            grow_y: GrowDirection::Begin,
            minimum_size: Dimensions::new(40, 20),
            ..Default::default()
        },
    );
    let hidden = gui.slots.add(
        right_half,
        SlotInfo { hidden: true, anchor_right: Anchor::one(), ..Default::default() },
    );
    layout(&mut gui);
    assert_eq!(gui.slots.bounds(full), Bounds::new(0, 0, 400, 300));
    assert_eq!(gui.slots.bounds(right_half), Bounds::new(210, 10, 180, 280));
    assert_eq!(gui.slots.bounds(corner), Bounds::new(140, 260, 40, 20));
    // A hidden slot is laid out like any other.
    assert_eq!(gui.slots.bounds(hidden), Bounds::new(0, 0, 180, 0));
}

#[test]
fn a_container_stacks_its_visible_children() {
    let mut gui = tree(200, 100);
    let root = gui.root_slot_id();
    let (container, _) = gui.add_slot_with_widget(
        root,
        whole(),
        panel(default_layout::Axis::Vertical, 10, 5),
    );
    let (top, _) = gui.add_slot_with_widget(container, SlotInfo::default(), Piece::Leaf(30, 20));
    let (gone, _) = gui.add_slot_with_widget(
        container,
        SlotInfo { hidden: true, expand_y: true, ..Default::default() },
        Piece::Leaf(500, 500),
    );
    let (middle, _) = gui.add_slot_with_widget(
        container,
        SlotInfo { expand_x: true, expand_y: true, ..Default::default() },
        Piece::Leaf(0, 0),
    );
    let bottom = gui.slots.add(
        container,
        SlotInfo { minimum_size: Dimensions::new(50, 10), ..Default::default() },
    );
    layout(&mut gui);
    assert_eq!(gui.slots.bounds(container), Bounds::new(0, 0, 200, 100));
    // 100 - 2 * 10 - 2 * 5 = 70, of which 30 are taken.
    assert_eq!(gui.slots.bounds(top), Bounds::new(10, 10, 30, 20));
    assert_eq!(gui.slots.bounds(middle), Bounds::new(10, 35, 180, 40));
    assert_eq!(gui.slots.bounds(bottom), Bounds::new(10, 80, 50, 10));
    // The hidden child lies where its anchors put it.
    assert_eq!(gui.slots.bounds(gone), Bounds::new(0, 0, 500, 500));
}

#[test]
fn the_minimum_size_of_a_container_comes_from_its_visible_children() {
    let mut gui = tree(0, 0);
    let root = gui.root_slot_id();
    let (outer, _) = gui.add_slot_with_widget(
        root,
        SlotInfo::default(),
        panel(default_layout::Axis::Horizontal, 3, 4),
    );
    let (inner, _) = gui.add_slot_with_widget(
        outer,
        SlotInfo::default(),
        panel(default_layout::Axis::Vertical, 1, 2),
    );
    gui.add_slot_with_widget(inner, SlotInfo::default(), Piece::Leaf(10, 20));
    gui.add_slot_with_widget(inner, SlotInfo::default(), Piece::Leaf(30, 5));
    gui.add_slot_with_widget(
        inner,
        SlotInfo { hidden: true, ..Default::default() },
        Piece::Leaf(1000, 1000),
    );
    gui.add_slot_with_widget(outer, SlotInfo::default(), Piece::Leaf(7, 50));
    let (hidden, _) = gui.add_slot_with_widget(
        outer,
        SlotInfo { hidden: true, ..Default::default() },
        panel(default_layout::Axis::Horizontal, 100, 0),
    );
    gui.add_slot_with_widget(hidden, SlotInfo::default(), Piece::Leaf(2000, 2000));
    layout(&mut gui);
    // Inner: 30 + 2 * 1 wide, 20 + 5 + 2 + 2 * 1 high.
    assert_eq!(gui.slots.bounds(inner).size, Dimensions::new(32, 29));
    // Outer: 32 + 7 + 4 + 2 * 3 wide, 50 + 2 * 3 high.
    assert_eq!(gui.slots.bounds(outer), Bounds::new(0, 0, 49, 56));
    // A hidden container has its own minimum size all the same.
    assert_eq!(gui.slots.bounds(hidden).size, Dimensions::new(2200, 2200));
}

#[test]
fn a_container_without_visible_children_has_its_padding() {
    let mut gui = tree(0, 0);
    let root = gui.root_slot_id();
    let (empty, _) = gui.add_slot_with_widget(
        root,
        SlotInfo::default(),
        panel(default_layout::Axis::Horizontal, 3, 4),
    );
    let (hiding, _) = gui.add_slot_with_widget(
        root,
        SlotInfo::default(),
        panel(default_layout::Axis::Vertical, 2, 4),
    );
    let (child, _) = gui.add_slot_with_widget(
        hiding,
        SlotInfo { hidden: true, ..Default::default() },
        Piece::Leaf(9, 9),
    );
    layout(&mut gui);
    assert_eq!(gui.slots.bounds(empty).size, Dimensions::new(6, 6));
    assert_eq!(gui.slots.bounds(hiding).size, Dimensions::new(4, 4));
    assert_eq!(gui.slots.bounds(child), Bounds::new(0, 0, 9, 9));
}

#[test]
fn the_box_layout_is_at_hand_without_a_widget() {
    let mut gui = tree(100, 40);
    let root = gui.root_slot_id();
    let a = gui.slots.add(root, SlotInfo { expand_x: true, ..Default::default() });
    let b = gui.slots.add(root, SlotInfo { expand_y: true, ..Default::default() });
    let unseen = gui.slots.add(root, SlotInfo { hidden: true, ..Default::default() });
    let mut cache = MinimumSizeCache::new();
    assert_eq!(cache.get(a), None);
    cache.insert(a, Dimensions::new(1, 2));
    cache.insert(a, Dimensions::new(10, 5));
    cache.insert(b, Dimensions::new(20, 6));
    cache.insert(unseen, Dimensions::new(90, 90));
    assert_eq!(cache.get(a), Some(Dimensions::new(10, 5)));
    assert_eq!(cache.get(SlotId(77)), None);

    layout::default(&mut gui.slots, root, &cache, layout::Axis::Horizontal, 4, 6);
    // 100 - 2 * 4 - 6 = 86, of which 20 are taken.
    assert_eq!(gui.slots.bounds(a), Bounds::new(4, 4, 66, 5));
    assert_eq!(gui.slots.bounds(b), Bounds::new(76, 4, 20, 32));
    assert_eq!(gui.slots.bounds(unseen), Bounds::zero());

    layout::default(&mut gui.slots, root, &cache, layout::Axis::Vertical, 4, 6);
    // 40 - 2 * 4 - 6 = 26, of which 5 are taken.
    assert_eq!(gui.slots.bounds(a), Bounds::new(4, 4, 92, 5));
    assert_eq!(gui.slots.bounds(b), Bounds::new(4, 15, 20, 21));
}
