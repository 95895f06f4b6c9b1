use ganache::walk::{draw_order, inherited_context, keep_context};
use ganache::{
    Bounds, Context, Dimensions, DrawArgs, DrawStep, Gui, InputEvent, LayoutChildrenArgs,
    MinimumSizeArgs, ProcessEventArgs, ProcessEventResult, Scalar, SlotId, SlotInfo, Theme,
    Widget,
};

/// An event without coordinates of its own.
#[derive(Default)]
struct Tick {
    moved: (Scalar, Scalar),
}

impl InputEvent for Tick {
    fn is_dirty(&self) -> bool {
        false
    }

    fn offset(&self) -> (Scalar, Scalar) {
        self.moved
    }

    fn dirty(&self) -> bool {
        false
    }

    fn offset_coordinates(&mut self, x: Scalar, y: Scalar) {
        self.moved = (self.moved.0.wrapping_add(x), self.moved.1.wrapping_add(y));
    }
}

/// What a widget has drawn: its name, where, with which context, and
/// whether it held the focus.
#[derive(Debug, PartialEq)]
struct Drawn {
    name: &'static str,
    bounds: Bounds,
    context: u32,
    focused: bool,
}

struct Host;

impl Context for Host {
    type ThemeResources = ();
    type StyleFieldValue = ();
    type DrawCommand = Drawn;
    type DrawContext = u32;
    type InputEvent = Tick;
}

/// A widget that draws itself and adds to the context of what is below it.
struct Layer {
    name: &'static str,
    adds: u32,
}

impl Widget<Host> for Layer {
    fn focusable(&self) -> bool {
        true
    }

    fn kind_id(&self) -> &'static str {
        "Layer"
    }

    fn takes_focus(&self) -> bool {
        true
    }

    fn minimum_size(&self, _args: MinimumSizeArgs<'_, Host>) -> Dimensions {
        Dimensions::zero()
    }

    fn layout_children(&self, _args: LayoutChildrenArgs<'_, Host>) {}

    fn process_event(&mut self, _args: ProcessEventArgs<'_, Host>) -> ProcessEventResult {
        ProcessEventResult::default()
    }

    fn draw(&self, args: DrawArgs<'_, Host>) {
        args.commands.push(Drawn {
            name: self.name,
            bounds: args.bounds,
            context: *args.context,
            focused: args.focused,
        });
        *args.context += self.adds;
    }
}

fn layer(gui: &mut Gui<Host, Layer>, parent: SlotId, name: &'static str, adds: u32) -> SlotId {
    gui.add_slot_with_widget(parent, SlotInfo::default(), Layer { name, adds }).0
}

fn drawn(name: &'static str, bounds: Bounds, context: u32) -> Drawn {
    Drawn { name, bounds, context, focused: false }
}

#[test]
fn a_tree_without_widgets_draws_nothing() {
    let mut gui: Gui<Host, Layer> = Gui::new(Bounds::zero());
    let root = gui.root_slot_id();
    gui.slots.add(root, SlotInfo::default());
    assert!(gui.draw(&Theme::new(()), 0).is_empty());
    assert_eq!(draw_order(&gui.slots).len(), 2);
}

#[test]
fn parents_are_drawn_before_children_and_children_in_their_order() {
    let mut gui: Gui<Host, Layer> = Gui::new(Bounds::zero());
    let root = gui.root_slot_id();
    let a = layer(&mut gui, root, "a", 0);
    layer(&mut gui, a, "a1", 0);
    layer(&mut gui, a, "a2", 0);
    let b = layer(&mut gui, root, "b", 0);
    layer(&mut gui, b, "b1", 0);
    let commands = gui.draw(&Theme::new(()), 0);
    let names: Vec<&str> = commands.iter().map(|command| command.name).collect();
    assert_eq!(names, vec!["a", "a1", "a2", "b", "b1"]);
}

#[test]
fn bounds_are_in_the_space_of_the_root() {
    let mut gui: Gui<Host, Layer> = Gui::new(Bounds::zero());
    let root = gui.root_slot_id();
    let outer = layer(&mut gui, root, "outer", 0);
    let plain = gui.slots.add(outer, SlotInfo::default());
    let inner = layer(&mut gui, plain, "inner", 0);
    gui.slots.set_bounds(root, Bounds::new(1, 2, 500, 500));
    gui.slots.set_bounds(outer, Bounds::new(100, 50, 300, 200));
    gui.slots.set_bounds(plain, Bounds::new(-5, 5, 0, 0));
    gui.slots.set_bounds(inner, Bounds::new(10, 20, 30, 40));
    let commands = gui.draw(&Theme::new(()), 0);
    assert_eq!(
        commands,
        vec![
            drawn("outer", Bounds::new(101, 52, 300, 200), 0),
            drawn("inner", Bounds::new(106, 77, 30, 40), 0),
        ]
    );
    assert_eq!(
        draw_order(&gui.slots),
        vec![
            DrawStep { slot_id: root, bounds: Bounds::new(1, 2, 500, 500), depth: 0 },
            DrawStep { slot_id: outer, bounds: Bounds::new(101, 52, 300, 200), depth: 1 },
            DrawStep { slot_id: plain, bounds: Bounds::new(96, 57, 0, 0), depth: 2 },
            DrawStep { slot_id: inner, bounds: Bounds::new(106, 77, 30, 40), depth: 3 },
        ]
    );
}

#[test]
fn bounds_are_clamped_into_the_scalar_range() {
    let mut gui: Gui<Host, Layer> = Gui::new(Bounds::zero());
    let root = gui.root_slot_id();
    let a = layer(&mut gui, root, "a", 0);
    let a1 = layer(&mut gui, a, "a1", 0);
    let a2 = layer(&mut gui, a1, "a2", 0);
    gui.slots.set_bounds(root, Bounds::new(i32::MAX, i32::MIN, 0, 0));
    gui.slots.set_bounds(a, Bounds::new(i32::MAX, i32::MIN, 0, 0));
    gui.slots.set_bounds(a1, Bounds::new(i32::MIN, i32::MAX, 0, 0));
    gui.slots.set_bounds(a2, Bounds::new(-1, 1, 0, 0));
    let commands = gui.draw(&Theme::new(()), 0);
    assert_eq!(
        commands,
        vec![
            drawn("a", Bounds::new(i32::MAX, i32::MIN, 0, 0), 0),
            drawn("a1", Bounds::new(i32::MAX - 1, i32::MIN, 0, 0), 0),
            drawn("a2", Bounds::new(i32::MAX - 2, i32::MIN, 0, 0), 0),
        ]
    );
}

#[test]
fn a_hidden_slot_is_not_drawn_nor_anything_below_it() {
    let mut gui: Gui<Host, Layer> = Gui::new(Bounds::zero());
    let root = gui.root_slot_id();
    let a = layer(&mut gui, root, "a", 0);
    let a1 = layer(&mut gui, a, "a1", 0);
    layer(&mut gui, a1, "a11", 0);
    layer(&mut gui, a, "a2", 0);
    layer(&mut gui, root, "b", 0);
    let theme = Theme::new(());
    gui.slots.get_mut(a1).info.hidden = true;
    let names: Vec<&str> = gui.draw(&theme, 0).iter().map(|command| command.name).collect();
    assert_eq!(names, vec!["a", "a2", "b"]);
    assert_eq!(draw_order(&gui.slots).len(), 4);

    gui.slots.get_mut(a).info.hidden = true;
    let names: Vec<&str> = gui.draw(&theme, 0).iter().map(|command| command.name).collect();
    assert_eq!(names, vec!["b"]);

    gui.slots.get_mut(root).info.hidden = true;
    assert!(gui.draw(&theme, 0).is_empty());
    assert!(draw_order(&gui.slots).is_empty());
}

#[test]
fn each_branch_has_its_own_copy_of_the_context() {
    let mut gui: Gui<Host, Layer> = Gui::new(Bounds::zero());
    let root = gui.root_slot_id();
    let a = layer(&mut gui, root, "a", 1);
    let a1 = layer(&mut gui, a, "a1", 10);
    layer(&mut gui, a1, "a11", 100);
    let plain = gui.slots.add(a, SlotInfo::default());
    layer(&mut gui, plain, "a2", 1000);
    layer(&mut gui, root, "b", 5);
    let commands = gui.draw(&Theme::new(()), 7);
    let seen: Vec<(&str, u32)> =
        commands.iter().map(|command| (command.name, command.context)).collect();
    assert_eq!(seen, vec![("a", 7), ("a1", 8), ("a11", 18), ("a2", 8), ("b", 7)]);
}

#[test]
fn the_widget_of_the_focused_slot_is_told_so() {
    let mut gui: Gui<Host, Layer> = Gui::new(Bounds::zero());
    let root = gui.root_slot_id();
    layer(&mut gui, root, "a", 0);
    let b = layer(&mut gui, root, "b", 0);
    gui.set_focus(Some(b));
    let commands = gui.draw(&Theme::new(()), 0);
    let focused: Vec<bool> = commands.iter().map(|command| command.focused).collect();
    assert_eq!(focused, vec![false, true]);
}

#[test]
fn a_context_is_inherited_from_above_and_never_from_beside() {
    let mut contexts: Vec<u32> = Vec::new();
    assert_eq!(inherited_context(&contexts, 0, 7), 7);
    keep_context(&mut contexts, 0, 8);
    assert_eq!(contexts, vec![8]);
    assert_eq!(inherited_context(&contexts, 1, 7), 8);
    keep_context(&mut contexts, 1, 18);
    assert_eq!(inherited_context(&contexts, 2, 7), 18);
    keep_context(&mut contexts, 2, 118);
    assert_eq!(contexts, vec![8, 18, 118]);
    // The next slot at the first depth starts from what the slot above it
    // has left, and what the slots beside and below have left is dropped.
    assert_eq!(inherited_context(&contexts, 1, 7), 8);
    keep_context(&mut contexts, 1, 1008);
    assert_eq!(contexts, vec![8, 1008]);
    assert_eq!(inherited_context(&contexts, 0, 7), 7);
    keep_context(&mut contexts, 0, 12);
    assert_eq!(contexts, vec![12]);
}
