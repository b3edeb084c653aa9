# ratatui_dnd

Drag and drop for terminal interfaces drawn with ratatui, as a verified
library: you register the rectangles you drew each frame, feed mouse
events or keyboard steps through, and get back lift, a ghost, the gap
where a drop would land, and the drop itself resolved to a container and
a slot.

- `src/geom.rs` — rectangles and mouse events as plain values; the three
  rectangle operations taken from ratatui (`Rect::new`, `bottom`,
  `contains`) are called through small trusted wrappers.
- `src/interact.rs` — the drag state machine (`Drag`) and the per-frame
  hit map (`Hits`), with their transition functions as spec functions and
  the laws of a drag proved over them.
- `src/sort.rs` — measured insertion slots (`slot`), containers and the
  keyboard carry (`Sortable`), with the slot rule as a spec function and
  its laws (range, monotonicity, above/below) proved.
- `app/lib.rs` — conversions from crossterm mouse events and ratatui
  rectangles, and a serialisable copy of `Act`.
