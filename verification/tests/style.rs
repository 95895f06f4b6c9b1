use ganache::{
    Bounds, Context, Dimensions, DrawArgs, FieldValue, Gui, InputEvent, LayoutChildrenArgs,
    MinimumSizeArgs, ProcessEventArgs, ProcessEventResult, Scalar, Signal, SlotInfo, SlotStyle,
    StringHashMap, Theme, Widget,
};

fn table(fields: &[(&str, i32)]) -> StringHashMap<i32> {
    let mut table = StringHashMap::new();
    for (name, value) in fields {
        table.insert(name.to_string(), *value);
    }
    table
}

#[test]
fn a_new_theme_holds_its_resources() {
    let theme: Theme<&str, i32> = Theme::new("fonts");
    assert_eq!(theme.resources, "fonts");
    assert_eq!(*theme.resources(), "fonts");
}

#[test]
fn a_style_table_is_found_under_its_kind() {
    let mut theme: Theme<(), i32> = Theme::new(());
    theme.set_widget_style("Button", table(&[("padding", 4)]));
    theme.set_widget_style("Label", table(&[("padding", 1), ("size", 12)]));
    assert_eq!(theme.get_widget_style("Button").get("padding"), Some(&4));
    assert_eq!(theme.get_widget_style("Button").get("size"), None);
    assert_eq!(theme.get_widget_style("Label").get("size"), Some(&12));
    theme.set_widget_style("Button", table(&[("size", 9)]));
    assert_eq!(theme.get_widget_style("Button").get("padding"), None);
    assert_eq!(theme.get_widget_style("Button").get("size"), Some(&9));
}

#[test]
fn an_override_comes_before_the_table_of_the_kind() {
    let mut theme: Theme<(), i32> = Theme::new(());
    theme.set_widget_style("Button", table(&[("padding", 4), ("size", 12)]));
    let overrides = table(&[("padding", 7), ("border", 1)]);

    let plain = SlotStyle::new("Button", &theme, None);
    assert_eq!(plain.get_field_opt("padding"), Some(&4));
    assert_eq!(*plain.get_field("size"), 12);
    assert_eq!(plain.get_field_opt("border"), None);

    let overridden = SlotStyle::new("Button", &theme, Some(&overrides));
    assert_eq!(*overridden.get_field("padding"), 7);
    assert_eq!(*overridden.get_field("size"), 12);
    assert_eq!(*overridden.get_field("border"), 1);
    assert_eq!(overridden.get_field_opt("margin"), None);

    // An overridden field is found without a table for the kind.
    let unknown = SlotStyle::new("Slider", &theme, Some(&overrides));
    assert_eq!(unknown.get_field_opt("padding"), Some(&7));
}

#[test]
fn a_signal_has_a_name_and_fields() {
    let bare = Signal::new("clicked");
    assert_eq!(bare.name(), "clicked");
    assert_eq!(bare.field_opt::<bool>("anything"), None);

    let mut fields = StringHashMap::new();
    fields.insert("value".to_string(), FieldValue::Int(-3));
    fields.insert("checked".to_string(), FieldValue::Bool(true));
    fields.insert("text".to_string(), FieldValue::Text("abc".to_string()));
    let signal = Signal::with_fields("changed", fields);
    assert_eq!(signal.name(), "changed");
    assert_eq!(*signal.field::<i64>("value"), -3);
    assert!(*signal.field::<bool>("checked"));
    assert_eq!(signal.field::<String>("text"), "abc");
    // A field is read as the type that it holds and as no other.
    assert_eq!(signal.field_opt::<bool>("value"), None);
    assert_eq!(signal.field_opt::<i64>("text"), None);
    assert_eq!(signal.field_opt::<String>("checked"), None);
    assert_eq!(signal.field_opt::<i64>("missing"), None);
    assert_eq!(signal.field_opt::<i64>("value"), Some(&-3));
}

#[test]
fn a_widget_answers_nothing_by_default() {
    let result = ProcessEventResult::default();
    assert!(!result.request_focus);
    assert!(result.signals.is_empty());
}

/// An event without coordinates of its own.
#[derive(Default)]
struct Tick {
    moved: (Scalar, Scalar),
}

impl InputEvent for Tick {
    fn is_dirty(&self) -> bool {
        false
    }

    fn offset(&self) -> (Scalar, Scalar) {
        self.moved
    }

    fn dirty(&self) -> bool {
        false
    }

    fn offset_coordinates(&mut self, x: Scalar, y: Scalar) {
        self.moved = (self.moved.0.wrapping_add(x), self.moved.1.wrapping_add(y));
    }
}

struct Host;

impl Context for Host {
    type ThemeResources = i32;
    type StyleFieldValue = i32;
    type DrawCommand = (i32, i32);
    type DrawContext = ();
    type InputEvent = Tick;
}

/// A widget as wide as its style says and as high as the resources say.
struct Styled;

impl Widget<Host> for Styled {
    fn focusable(&self) -> bool {
        false
    }

    fn kind_id(&self) -> &'static str {
        "Styled"
    }

    fn takes_focus(&self) -> bool {
        false
    }

    fn minimum_size(&self, args: MinimumSizeArgs<'_, Host>) -> Dimensions {
        Dimensions::new(*args.style.get_field("width"), *args.resources)
    }

    fn layout_children(&self, _args: LayoutChildrenArgs<'_, Host>) {}

    fn process_event(&mut self, args: ProcessEventArgs<'_, Host>) -> ProcessEventResult {
        let mut fields = StringHashMap::new();
        fields.insert("width".to_string(), FieldValue::Int(*args.style.get_field("width") as i64));
        fields.insert("resources".to_string(), FieldValue::Int(*args.resources as i64));
        ProcessEventResult {
            request_focus: false,
            signals: vec![Signal::with_fields("styled", fields)],
        }
    }

    fn draw(&self, args: DrawArgs<'_, Host>) {
        args.commands.push((*args.style.get_field("width"), *args.resources));
    }
}

#[test]
fn a_widget_is_handed_the_style_of_its_slot() {
    let mut gui: Gui<Host, Styled> = Gui::new(Bounds::zero());
    let root = gui.root_slot_id();
    let (plain, _) = gui.add_slot_with_widget(root, SlotInfo::default(), Styled);
    let (wide, _) = gui.add_slot_with_widget(root, SlotInfo::default(), Styled);
    gui.override_slot_style(wide, "height", 1);
    gui.override_slot_style(wide, "width", 80);
    gui.override_slot_style(wide, "width", 90);
    let mut theme = Theme::new(33);
    theme.set_widget_style("Styled", table(&[("width", 20)]));

    assert!(gui.layout_if_needed(&theme));
    assert_eq!(gui.slots.bounds(plain).size, Dimensions::new(20, 33));
    assert_eq!(gui.slots.bounds(wide).size, Dimensions::new(90, 33));

    assert_eq!(gui.draw(&theme, ()), vec![(20, 33), (90, 33)]);

    let signals = gui.process_event(&theme, &mut Tick::default());
    assert_eq!(signals.len(), 2);
    assert_eq!(signals[0].0, wide);
    assert_eq!(*signals[0].1.field::<i64>("width"), 90);
    assert_eq!(*signals[1].1.field::<i64>("width"), 20);
    assert_eq!(*signals[1].1.field::<i64>("resources"), 33);
}
