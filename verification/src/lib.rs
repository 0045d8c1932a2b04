//! An immediate-mode terminal UI core: areas, rendering contexts, the resolution of layout
//! constraints and the layout decisions of the built-in widgets.
mod area;
mod context;

pub mod layout;
pub mod widgets;

pub use area::Area;
pub use context::Context;
pub use widgets::scroll::{scroll_layout, scroll_layout_fits, ScrollDirection, ScrollSlot};
pub use widgets::stack::{horizontal_areas, vertical_areas, Constraint};
pub use widgets::spinner::SimpleSpinnerData;
pub use widgets::text::line_text;
