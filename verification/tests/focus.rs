use ganache::{
    Bounds, Context, CycleFocusDirection, Dimensions, DrawArgs, Gui, InputEvent,
    LayoutChildrenArgs, MinimumSizeArgs, ProcessEventArgs, ProcessEventResult, Scalar, SlotId,
    SlotInfo, Widget,
};

/// An event without coordinates of its own.
#[derive(Default)]
struct Tick {
    moved: (Scalar, Scalar),
}

impl InputEvent for Tick {
    fn is_dirty(&self) -> bool {
        false
    }

    fn offset(&self) -> (Scalar, Scalar) {
        self.moved
    }

    fn dirty(&self) -> bool {
        false
    }

    fn offset_coordinates(&mut self, x: Scalar, y: Scalar) {
        self.moved = (self.moved.0.wrapping_add(x), self.moved.1.wrapping_add(y));
    }
}

struct Host;

impl Context for Host {
    type ThemeResources = ();
    type StyleFieldValue = ();
    type DrawCommand = ();
    type DrawContext = ();
    type InputEvent = Tick;
}

/// A widget that takes the focus or does not.
struct Field(bool);

impl Widget<Host> for Field {
    fn focusable(&self) -> bool {
        self.0
    }

    fn kind_id(&self) -> &'static str {
        "Field"
    }

    fn takes_focus(&self) -> bool {
        self.0
    }

    fn minimum_size(&self, _args: MinimumSizeArgs<'_, Host>) -> Dimensions {
        Dimensions::zero()
    }

    fn layout_children(&self, _args: LayoutChildrenArgs<'_, Host>) {}

    fn process_event(&mut self, _args: ProcessEventArgs<'_, Host>) -> ProcessEventResult {
        ProcessEventResult::default()
    }

    fn draw(&self, _args: DrawArgs<'_, Host>) {}
}

fn tree() -> Gui<Host, Field> {
    Gui::new(Bounds::zero())
}

fn field(gui: &mut Gui<Host, Field>, parent: SlotId, takes: bool) -> SlotId {
    gui.add_slot_with_widget(parent, SlotInfo::default(), Field(takes)).0
}

fn next(gui: &mut Gui<Host, Field>) -> Option<SlotId> {
    gui.cycle_focus(CycleFocusDirection::Next);
    gui.focused_slot_id()
}

fn previous(gui: &mut Gui<Host, Field>) -> Option<SlotId> {
    gui.cycle_focus(CycleFocusDirection::Previous);
    gui.focused_slot_id()
}

#[test]
fn a_new_tree_has_no_focus_and_finds_none() {
    let mut gui = tree();
    assert_eq!(gui.focused_slot_id(), None);
    assert_eq!(next(&mut gui), None);
    assert_eq!(previous(&mut gui), None);
    let root = gui.root_slot_id();
    field(&mut gui, root, false);
    gui.slots.add(root, SlotInfo::default());
    assert_eq!(next(&mut gui), None);
    assert_eq!(previous(&mut gui), None);
}

#[test]
fn the_focus_is_set_and_cleared() {
    let mut gui = tree();
    let root = gui.root_slot_id();
    let a = field(&mut gui, root, true);
    gui.set_focus(Some(a));
    assert_eq!(gui.focused_slot_id(), Some(a));
    gui.set_focus(None);
    assert_eq!(gui.focused_slot_id(), None);
}

#[test]
fn next_goes_through_the_siblings_and_starts_again() {
    let mut gui = tree();
    let root = gui.root_slot_id();
    let a = field(&mut gui, root, true);
    let b = field(&mut gui, root, true);
    let c = field(&mut gui, root, true);
    assert_eq!(next(&mut gui), Some(a));
    assert_eq!(next(&mut gui), Some(b));
    assert_eq!(next(&mut gui), Some(c));
    // Nothing follows the last slot: the whole tree is searched from the
    // root, and its first slot that takes the focus is found.
    assert_eq!(next(&mut gui), Some(a));
}

#[test]
fn previous_goes_back_through_the_siblings_and_starts_at_the_end() {
    let mut gui = tree();
    let root = gui.root_slot_id();
    let a = field(&mut gui, root, true);
    let b = field(&mut gui, root, true);
    let c = field(&mut gui, root, true);
    assert_eq!(previous(&mut gui), Some(c));
    assert_eq!(previous(&mut gui), Some(b));
    assert_eq!(previous(&mut gui), Some(a));
    assert_eq!(previous(&mut gui), Some(c));
}

#[test]
fn slots_that_do_not_take_the_focus_are_passed_over() {
    let mut gui = tree();
    let root = gui.root_slot_id();
    let a = field(&mut gui, root, true);
    field(&mut gui, root, false);
    gui.slots.add(root, SlotInfo::default());
    let d = field(&mut gui, root, true);
    assert_eq!(next(&mut gui), Some(a));
    assert_eq!(next(&mut gui), Some(d));
    assert_eq!(previous(&mut gui), Some(a));
}

#[test]
fn hidden_slots_are_passed_over_with_all_below_them() {
    let mut gui = tree();
    let root = gui.root_slot_id();
    let a = field(&mut gui, root, true);
    let b = gui.add_slot_with_widget(
        root,
        SlotInfo { hidden: true, ..Default::default() },
        Field(true),
    ).0;
    let b1 = field(&mut gui, b, true);
    let c = field(&mut gui, root, true);
    assert_eq!(next(&mut gui), Some(a));
    assert_eq!(next(&mut gui), Some(c));
    assert_eq!(next(&mut gui), Some(a));
    assert_eq!(previous(&mut gui), Some(c));
    assert_eq!(previous(&mut gui), Some(a));

    gui.slots.get_mut(b).info.hidden = false;
    assert_eq!(next(&mut gui), Some(b));
    // The way goes up from the focused slot: what is below it is left out.
    assert_eq!(next(&mut gui), Some(c));
    gui.set_focus(Some(a));
    gui.slots.get_mut(b).widget_id = None;
    assert_eq!(next(&mut gui), Some(b1));
}

#[test]
fn the_way_goes_up_through_the_ancestors() {
    let mut gui = tree();
    let root = gui.root_slot_id();
    let left = field(&mut gui, root, false);
    let left_a = field(&mut gui, left, true);
    let left_b = field(&mut gui, left, true);
    let right = field(&mut gui, root, false);
    let right_a = field(&mut gui, right, true);
    let right_b = field(&mut gui, right, true);

    assert_eq!(next(&mut gui), Some(left_a));
    assert_eq!(next(&mut gui), Some(left_b));
    assert_eq!(next(&mut gui), Some(right_a));
    assert_eq!(next(&mut gui), Some(right_b));
    assert_eq!(next(&mut gui), Some(left_a));

    // Backward, the nearest sibling before is searched from its beginning.
    gui.set_focus(Some(right_b));
    assert_eq!(previous(&mut gui), Some(right_a));
    assert_eq!(previous(&mut gui), Some(left_a));
    // Nothing precedes: the last slot of the whole tree is found.
    assert_eq!(previous(&mut gui), Some(right_b));
}

#[test]
fn a_search_from_the_root_finds_the_first_or_the_last_slot() {
    let mut gui = tree();
    let root = gui.root_slot_id();
    let outer = field(&mut gui, root, true);
    let inner = field(&mut gui, outer, true);
    let innermost = field(&mut gui, inner, true);
    assert_eq!(next(&mut gui), Some(outer));
    gui.set_focus(None);
    assert_eq!(previous(&mut gui), Some(innermost));
}

#[test]
fn the_way_passes_over_what_lies_between() {
    let mut gui = tree();
    let root = gui.root_slot_id();
    let a = field(&mut gui, root, true);
    gui.slots.add(root, SlotInfo::default());
    let b = field(&mut gui, root, true);
    field(&mut gui, root, false);
    let c = field(&mut gui, root, true);
    gui.set_focus(Some(b));
    assert_eq!(next(&mut gui), Some(c));
    gui.set_focus(Some(b));
    assert_eq!(previous(&mut gui), Some(a));
}
