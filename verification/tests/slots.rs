use ganache::{
    visible_children, Bounds, Context, Dimensions, DrawArgs, Gui, InputEvent,
    LayoutChildrenArgs, MinimumSizeArgs, ProcessEventArgs, ProcessEventResult, Scalar, SlotId,
    SlotInfo, Theme, Widget, ANCHOR_WHOLE,
};

/// An event without coordinates of its own.
#[derive(Default)]
struct Tick {
    moved: (Scalar, Scalar),
}

impl InputEvent for Tick {
    fn is_dirty(&self) -> bool {
        false
    }

    fn offset(&self) -> (Scalar, Scalar) {
        self.moved
    }

    fn dirty(&self) -> bool {
        false
    }

    fn offset_coordinates(&mut self, x: Scalar, y: Scalar) {
        self.moved = (self.moved.0.wrapping_add(x), self.moved.1.wrapping_add(y));
    }
}

struct Host;

impl Context for Host {
    type ThemeResources = ();
    type StyleFieldValue = ();
    type DrawCommand = ();
    type DrawContext = ();
    type InputEvent = Tick;
}

struct Label(i32);

impl Widget<Host> for Label {
    fn focusable(&self) -> bool {
        false
    }

    fn kind_id(&self) -> &'static str {
        "Label"
    }

    fn takes_focus(&self) -> bool {
        false
    }

    fn minimum_size(&self, _args: MinimumSizeArgs<'_, Host>) -> Dimensions {
        Dimensions::new(self.0, self.0)
    }

    fn layout_children(&self, _args: LayoutChildrenArgs<'_, Host>) {}

    fn process_event(&mut self, _args: ProcessEventArgs<'_, Host>) -> ProcessEventResult {
        ProcessEventResult::default()
    }

    fn draw(&self, _args: DrawArgs<'_, Host>) {}
}

fn hidden() -> SlotInfo {
    SlotInfo { hidden: true, ..Default::default() }
}

#[test]
fn a_new_tree_holds_its_root() {
    let gui: Gui<Host, Label> = Gui::new(Bounds::new(7, 8, 640, 480));
    let root = gui.root_slot_id();
    assert_eq!(root, SlotId(0));
    assert_eq!(gui.slots.len(), 1);
    let slot = gui.slots.get(root);
    assert_eq!(slot.bounds, Bounds::zero());
    assert_eq!(slot.info.minimum_size, Dimensions::new(640, 480));
    assert_eq!(slot.info.anchor_left.get(), 0);
    assert_eq!(slot.info.anchor_top.get(), 0);
    assert_eq!(slot.info.anchor_right.get(), ANCHOR_WHOLE);
    assert_eq!(slot.info.anchor_bottom.get(), ANCHOR_WHOLE);
    assert!(!slot.info.hidden);
    assert!(slot.widget_id.is_none());
    assert!(slot.parent().is_none());
    assert!(slot.children().is_empty());
    assert!(gui.slots.dirty());
}

#[test]
fn default_metadata_is_plain() {
    let info = SlotInfo::default();
    assert!(!info.hidden && !info.expand_x && !info.expand_y);
    assert_eq!(info.minimum_size, Dimensions::zero());
    let zero = ganache::Anchor::zero();
    assert_eq!(
        (info.anchor_left, info.anchor_right, info.anchor_top, info.anchor_bottom),
        (zero, zero, zero, zero)
    );
    assert_eq!(
        (info.margin_left, info.margin_right, info.margin_top, info.margin_bottom),
        (0, 0, 0, 0)
    );
    assert_eq!(info.grow_x, ganache::GrowDirection::End);
    assert_eq!(info.grow_y, ganache::GrowDirection::End);
}

#[test]
fn slots_are_numbered_in_the_order_of_their_addition() {
    let mut gui: Gui<Host, Label> = Gui::new(Bounds::zero());
    let root = gui.root_slot_id();
    let a = gui.slots.add(root, SlotInfo::default());
    let b = gui.slots.add(root, SlotInfo::default());
    let a1 = gui.slots.add(a, SlotInfo::default());
    let c = gui.slots.add(root, SlotInfo::default());
    assert_eq!((a, b, a1, c), (SlotId(1), SlotId(2), SlotId(3), SlotId(4)));
    assert_eq!(gui.slots.len(), 5);
    assert_eq!(gui.slots.get(root).children(), &[a, b, c]);
    assert_eq!(gui.slots.get(a).children(), &[a1]);
    assert_eq!(gui.slots.get(a1).parent(), Some(a));
    assert_eq!(gui.slots.parent(c), Some(root));
    assert_eq!(gui.slots.children(root), &vec![a, b, c]);
    assert_eq!(gui.slots.get(a1).bounds, Bounds::zero());
    assert!(gui.slots.get(a1).widget_id.is_none());
}

#[test]
fn a_slot_with_a_widget_is_bound_to_it() {
    let mut gui: Gui<Host, Label> = Gui::new(Bounds::zero());
    let root = gui.root_slot_id();
    let loose = gui.add_widget(Label(1));
    let (slot, handle) = gui.add_slot_with_widget(root, SlotInfo::default(), Label(2));
    assert_eq!(loose.0, 0);
    assert_eq!(handle.widget_id().0, 1);
    assert_eq!(gui.slots.widget_id(slot), Some(handle.widget_id()));
    assert_eq!(gui.get_widget(handle).0, 2);
    let copy = handle;
    gui.get_widget_mut(handle).0 = 9;
    assert_eq!(gui.get_widget(copy.clone()).0, 9);
}

#[test]
fn every_change_marks_the_tree() {
    let mut gui: Gui<Host, Label> = Gui::new(Bounds::zero());
    let root = gui.root_slot_id();
    let theme = Theme::new(());
    assert!(gui.layout_if_needed(&theme));
    assert!(!gui.slots.dirty());

    gui.slots.add(root, SlotInfo::default());
    assert!(gui.slots.dirty());
    assert!(gui.layout_if_needed(&theme));

    gui.slots.set_size(root, Dimensions::new(1, 2));
    assert_eq!(gui.slots.bounds(root).size, Dimensions::new(1, 2));
    assert!(gui.layout_if_needed(&theme));

    gui.slots.get_mut(root).info.expand_x = true;
    assert!(gui.slots.info(root).expand_x);
    assert!(gui.layout_if_needed(&theme));

    gui.slots.get(root);
    assert!(!gui.layout_if_needed(&theme));

    gui.slots.set_info(root, SlotInfo { margin_top: 3, ..Default::default() });
    assert_eq!(gui.slots.info(root).margin_top, 3);
    assert!(gui.layout_if_needed(&theme));

    gui.slots.set_bounds(root, Bounds::new(1, 2, 3, 4));
    assert_eq!(gui.slots.get(root).bounds, Bounds::new(1, 2, 3, 4));
    assert!(gui.layout_if_needed(&theme));
    assert_eq!(gui.slots().len(), 2);
    gui.slots_mut();
    assert!(!gui.layout_if_needed(&theme));

    let (_, handle) = gui.add_slot_with_widget(root, SlotInfo::default(), Label(3));
    assert!(gui.layout_if_needed(&theme));
    gui.get_widget(handle);
    assert!(!gui.layout_if_needed(&theme));
    gui.get_widget_mut(handle);
    assert!(gui.layout_if_needed(&theme));
    assert!(!gui.layout_if_needed(&theme));
}

#[test]
fn visible_children_leave_out_the_hidden_ones() {
    let mut gui: Gui<Host, Label> = Gui::new(Bounds::zero());
    let root = gui.root_slot_id();
    let a = gui.slots.add(root, SlotInfo::default());
    let b = gui.slots.add(root, hidden());
    let c = gui.slots.add(root, SlotInfo::default());
    let d = gui.slots.add(root, hidden());
    assert_eq!(visible_children(&gui.slots, root), vec![a, c]);
    assert!(visible_children(&gui.slots, a).is_empty());
    gui.slots.get_mut(b).info.hidden = false;
    gui.slots.get_mut(a).info.hidden = true;
    assert_eq!(visible_children(&gui.slots, root), vec![b, c]);
    gui.slots.get_mut(d).info.hidden = false;
    assert_eq!(visible_children(&gui.slots, root), vec![b, c, d]);
}

#[test]
fn a_widget_raises_the_minimum_size_above_the_hint() {
    let mut gui: Gui<Host, Label> = Gui::new(Bounds::zero());
    let root = gui.root_slot_id();
    let hint = SlotInfo { minimum_size: Dimensions::new(10, 50), ..Default::default() };
    let (with_widget, _) = gui.add_slot_with_widget(root, hint, Label(30));
    let bare = gui.slots.add(
        root,
        SlotInfo { minimum_size: Dimensions::new(10, 50), ..Default::default() },
    );
    assert!(gui.layout_if_needed(&Theme::new(())));
    assert_eq!(gui.slots.bounds(with_widget), Bounds::new(0, 0, 30, 50));
    assert_eq!(gui.slots.bounds(bare), Bounds::new(0, 0, 10, 50));
}
