/// Constraint-based stacking of items along one axis.
pub mod stack;
/// Scrollable list layout.
pub mod scroll;
/// Animated spinner frames.
pub mod spinner;
/// Single-line text.
pub mod text;
