//! A retained-mode layout and widget-tree engine.
//!
//! The tree is an arena of rectangular slots ([`Slots`]), each of which may
//! carry a widget. A frame runs in three steps:
//! [`Gui::layout_if_needed`] sizes and places every slot,
//! [`Gui::process_event`] routes input through the tree, and [`Gui::draw`]
//! collects the draw commands of the visible widgets. Rendering, windowing and
//! input capture belong to the host.
//!
//! All lengths are integers ([`Scalar`]), and anchors are fractions in parts
//! of [`ANCHOR_WHOLE`]. Extents are computed exactly and then clamped into the
//! scalar range, so that no operation of the engine can overflow.
//!
//! - [`slots`]: the arena, the tree that its links form, and what stays of a
//!   tree when it changes;
//! - [`placement`]: where anchors and margins put a child within its parent;
//! - [`stacking`], [`default_layout`], [`layout`]: the box layout, on plain
//!   values and on the slots of a container;
//! - [`focus`]: where the focus goes next;
//! - [`walk`]: the order in which the slots are drawn;
//! - [`widget`]: what a host and its widgets implement;
//! - [`gui`]: the tree with its widgets, and the three steps of a frame;
//! - [`theme`], [`signal`], [`sizes`], [`geometry`], [`anchor`], [`scalar`]:
//!   the values that pass between them.

pub mod anchor;
pub mod default_layout;
pub mod focus;
pub mod geometry;
pub mod gui;
pub mod layout;
pub mod placement;
pub mod scalar;
pub mod signal;
pub mod sizes;
pub mod slots;
pub mod stacking;
pub mod theme;
pub mod walk;
pub mod widget;

pub use crate::anchor::{Anchor, ANCHOR_WHOLE};
pub use crate::geometry::{Bounds, Dimensions};
pub use crate::gui::{CycleFocusDirection, Gui, WidgetHandle};
pub use crate::scalar::Scalar;
pub use crate::signal::{FieldType, FieldValue, ProcessEventResult, Signal};
pub use crate::sizes::MinimumSizeCache;
pub use crate::slots::{
    visible_children, GrowDirection, Slot, SlotId, SlotInfo, Slots, WidgetId,
};
pub use crate::theme::{SlotStyle, Theme};
pub use crate::walk::DrawStep;
pub use crate::widget::{
    Context, DrawArgs, InputEvent, LayoutChildrenArgs, MinimumSizeArgs, ProcessEventArgs, Widget,
};
pub use vstd::hash_map::StringHashMap;
