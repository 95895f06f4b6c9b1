use ganache::default_layout::{self, Axis, Settings};
use ganache::{
    Bounds, Context, Dimensions, DrawArgs, Gui, InputEvent, LayoutChildrenArgs, MinimumSizeArgs,
    ProcessEventArgs, ProcessEventResult, Scalar, SlotInfo, Theme, Widget,
};

/// An event without coordinates of its own.
#[derive(Default)]
struct Tick {
    moved: (Scalar, Scalar),
}

impl InputEvent for Tick {
    fn is_dirty(&self) -> bool {
        false
    }

    fn offset(&self) -> (Scalar, Scalar) {
        self.moved
    }

    fn dirty(&self) -> bool {
        false
    }

    fn offset_coordinates(&mut self, x: Scalar, y: Scalar) {
        self.moved = (self.moved.0.wrapping_add(x), self.moved.1.wrapping_add(y));
    }
}

struct Host;

impl Context for Host {
    type ThemeResources = ();
    type StyleFieldValue = ();
    type DrawCommand = Bounds;
    type DrawContext = ();
    type InputEvent = Tick;
}

enum Piece {
    Panel(Settings),
    Button,
}

impl Widget<Host> for Piece {
    fn focusable(&self) -> bool {
        matches!(self, Piece::Button)
    }

    fn kind_id(&self) -> &'static str {
        match self {
            Piece::Panel(_) => "Panel",
            Piece::Button => "Button",
        }
    }

    fn takes_focus(&self) -> bool {
        matches!(self, Piece::Button)
    }

    fn minimum_size(&self, args: MinimumSizeArgs<'_, Host>) -> Dimensions {
        match self {
            Piece::Panel(settings) => default_layout::minimum_size(&args, settings),
            Piece::Button => Dimensions::zero(),
        }
    }

    fn layout_children(&self, args: LayoutChildrenArgs<'_, Host>) {
        match self {
            Piece::Panel(settings) => default_layout::layout_children(args, settings),
            Piece::Button => panic!("a button has no children"),
        }
    }

    fn process_event(&mut self, _args: ProcessEventArgs<'_, Host>) -> ProcessEventResult {
        ProcessEventResult::default()
    }

    fn draw(&self, args: DrawArgs<'_, Host>) {
        if let Piece::Button = self {
            args.commands.push(args.bounds);
        }
    }
}

fn expanding() -> SlotInfo {
    SlotInfo { expand_x: true, expand_y: true, ..Default::default() }
}

#[test]
fn panel_shares_its_width_between_two_buttons() {
    let mut gui: Gui<Host, Piece> = Gui::new(Bounds::zero());
    let root = gui.root_slot_id();
    let (panel, _) = gui.add_slot_with_widget(
        root,
        SlotInfo { minimum_size: Dimensions::new(400, 300), ..Default::default() },
        Piece::Panel(Settings { axis: Axis::Horizontal, padding: 5, child_spacing: 2 }),
    );
    let (left, _) = gui.add_slot_with_widget(panel, expanding(), Piece::Button);
    let (right, _) = gui.add_slot_with_widget(panel, expanding(), Piece::Button);
    gui.slots.set_size(root, Dimensions::new(400, 300));
    let theme = Theme::new(());
    assert!(gui.layout_if_needed(&theme));

    assert_eq!(gui.slots.get(panel).bounds, Bounds::new(0, 0, 400, 300));
    // 400 - 2 * 5 - 2 = 388 are shared by two children.
    assert_eq!(gui.slots.get(left).bounds, Bounds::new(5, 5, 194, 290));
    assert_eq!(gui.slots.get(right).bounds, Bounds::new(201, 5, 194, 290));

    let commands = gui.draw(&theme, ());
    assert_eq!(commands, vec![Bounds::new(5, 5, 194, 290), Bounds::new(201, 5, 194, 290)]);
}

#[test]
fn second_layout_without_a_change_is_not_performed() {
    let mut gui: Gui<Host, Piece> = Gui::new(Bounds::zero());
    let root = gui.root_slot_id();
    gui.add_slot_with_widget(root, expanding(), Piece::Button);
    let theme = Theme::new(());
    assert!(gui.layout_if_needed(&theme));
    assert!(!gui.layout_if_needed(&theme));
    gui.slots.set_size(root, Dimensions::new(10, 10));
    assert!(gui.layout_if_needed(&theme));
    assert!(!gui.layout_if_needed(&theme));
    gui.slots.get_mut(root);
    assert!(gui.layout_if_needed(&theme));
}
