//! Sorting for things you already draw.
//!
//! This crate does not own your list, your kanban, or your grid. You keep
//! drawing them however you do and register the rectangles each frame;
//! in return you get lift, a ghost, the gap where a drop would land, and
//! the drop itself, driven by mouse or keyboard.
//!
//! - [`geom`] holds the plain values everything is measured in: screen
//!   rectangles and mouse events.
//! - [`interact`] is the ground floor: a drag state machine over mouse
//!   events and a per-frame map from screen cells back to what was drawn
//!   on them. It knows nothing about sorting.
//! - [`sort`] is one tenant of that floor: containers, insertion slots
//!   measured from the rectangles you actually drew, and a keyboard carry
//!   that does what a mouse drag does without a mouse.

pub mod geom;
pub mod interact;
pub mod sort;

pub use geom::{MouseButton, MouseEvent, MouseEventKind, Rect};
pub use interact::{Did, Drag, Hits};
pub use sort::{slot, Act, Sortable};
