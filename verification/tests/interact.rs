use ratatui_dnd::geom::{MouseButton, MouseEvent, MouseEventKind, Rect};
use ratatui_dnd::interact::{Did, Drag, Hits};

fn ev(kind: MouseEventKind, x: u16, y: u16) -> MouseEvent {
    MouseEvent { kind, column: x, row: y }
}

fn down(x: u16, y: u16) -> MouseEvent {
    ev(MouseEventKind::Down(MouseButton::Left), x, y)
}

fn drag(x: u16, y: u16) -> MouseEvent {
    ev(MouseEventKind::Drag(MouseButton::Left), x, y)
}

fn up(x: u16, y: u16) -> MouseEvent {
    ev(MouseEventKind::Up(MouseButton::Left), x, y)
}

#[test]
fn press_and_release_is_a_click() {
    let mut d: Drag<u8> = Drag::new();
    assert_eq!(
        d.on_mouse(down(5, 5), Some((7, Rect::new(4, 4, 10, 3)))),
        Did::Nothing
    );
    assert_eq!(d.on_mouse(up(5, 5), None), Did::Click(7));
    assert!(d.moving().is_none());
}

#[test]
fn moving_off_the_press_cell_lifts_then_drops() {
    let mut d: Drag<u8> = Drag::new();
    d.on_mouse(down(5, 5), Some((7, Rect::new(4, 4, 10, 3))));
    // Wobble on the press cell is still a click in the making.
    assert_eq!(d.on_mouse(drag(5, 5), None), Did::Nothing);
    assert_eq!(d.on_mouse(drag(6, 5), None), Did::Lift(7));
    assert_eq!(d.moving(), Some(&7));
    assert_eq!(d.on_mouse(drag(9, 8), None), Did::Move);
    assert_eq!(d.cursor(), Some((9, 8)));
    assert_eq!(d.on_mouse(up(9, 8), None), Did::Drop { key: 7, x: 9, y: 8 });
    assert!(d.moving().is_none());
}

#[test]
fn pressing_on_nothing_drags_nothing() {
    let mut d: Drag<u8> = Drag::new();
    d.on_mouse(down(5, 5), None);
    assert_eq!(d.on_mouse(drag(9, 9), None), Did::Nothing);
    assert_eq!(d.on_mouse(up(9, 9), None), Did::Nothing);
}

#[test]
fn cancel_lets_go_without_a_drop() {
    let mut d: Drag<u8> = Drag::new();
    d.on_mouse(down(5, 5), Some((7, Rect::new(4, 4, 10, 3))));
    d.on_mouse(drag(9, 9), None);
    d.cancel();
    assert!(d.moving().is_none());
    assert_eq!(d.on_mouse(up(9, 9), None), Did::Nothing);
}

#[test]
fn the_ghost_hangs_from_the_grab_point_and_stays_inside() {
    let mut d: Drag<u8> = Drag::new();
    // Grabbed two cells in from the left edge of a 10x3 thing.
    d.on_mouse(down(6, 5), Some((7, Rect::new(4, 4, 10, 3))));
    d.on_mouse(drag(20, 10), None);
    let frame = Rect::new(0, 0, 80, 24);
    assert_eq!(d.ghost(frame), Some(Rect::new(18, 9, 10, 3)));
    // Dragged past the corner, the ghost stops at the edge.
    d.on_mouse(drag(79, 23), None);
    assert_eq!(d.ghost(frame), Some(Rect::new(70, 21, 10, 3)));
    d.on_mouse(drag(0, 0), None);
    assert_eq!(d.ghost(frame), Some(Rect::new(0, 0, 10, 3)));
}

#[test]
fn hits_prefer_what_was_drawn_last() {
    let mut h: Hits<u8> = Hits::new();
    h.put(Rect::new(0, 0, 10, 10), 1);
    h.put(Rect::new(5, 5, 10, 10), 2);
    assert_eq!(h.at(7, 7).map(|(k, _)| k), Some(2));
    assert_eq!(h.at(2, 2).map(|(k, _)| k), Some(1));
    assert_eq!(h.at(30, 30), None);
}

// Beyond the original's own tests.

#[test]
fn a_press_resets_a_stuck_drag() {
    let mut d: Drag<u8> = Drag::new();
    d.on_mouse(down(5, 5), Some((7, Rect::new(4, 4, 10, 3))));
    d.on_mouse(drag(9, 9), None);
    // The release was lost; the next press starts over.
    assert_eq!(d.on_mouse(down(1, 1), Some((3, Rect::new(0, 0, 4, 4)))), Did::Nothing);
    assert!(d.moving().is_none());
    assert_eq!(d.on_mouse(up(1, 1), None), Did::Click(3));
}

#[test]
fn the_hit_is_read_only_on_the_press() {
    let mut d: Drag<u8> = Drag::new();
    d.on_mouse(down(5, 5), Some((7, Rect::new(4, 4, 10, 3))));
    assert_eq!(
        d.on_mouse(drag(6, 5), Some((9, Rect::new(0, 0, 50, 50)))),
        Did::Lift(7)
    );
    assert_eq!(d.on_mouse(up(6, 5), Some((9, Rect::new(0, 0, 50, 50)))), Did::Drop { key: 7, x: 6, y: 5 });
}

#[test]
fn other_buttons_and_motion_mean_nothing() {
    let mut d: Drag<u8> = Drag::new();
    d.on_mouse(down(5, 5), Some((7, Rect::new(4, 4, 10, 3))));
    assert_eq!(d.on_mouse(ev(MouseEventKind::Moved, 8, 8), None), Did::Nothing);
    assert_eq!(d.on_mouse(ev(MouseEventKind::Down(MouseButton::Right), 8, 8), None), Did::Nothing);
    assert_eq!(d.on_mouse(ev(MouseEventKind::ScrollDown, 8, 8), None), Did::Nothing);
    // Still armed: a release is a click.
    assert_eq!(d.on_mouse(up(5, 5), None), Did::Click(7));
}

#[test]
fn nothing_held_has_no_cursor_and_no_ghost() {
    let d: Drag<u8> = Drag::default();
    assert_eq!(d.cursor(), None);
    assert_eq!(d.ghost(Rect::new(0, 0, 80, 24)), None);
}

#[test]
fn a_ghost_larger_than_its_frame_is_cut_to_fit() {
    let mut d: Drag<u8> = Drag::new();
    d.on_mouse(down(2, 2), Some((1, Rect::new(0, 0, 30, 10))));
    d.on_mouse(drag(3, 3), None);
    // The grab point is (2, 2) inside the thing; the frame is smaller.
    assert_eq!(d.ghost(Rect::new(5, 5, 20, 4)), Some(Rect::new(5, 5, 20, 4)));
}

#[test]
fn the_ghost_keeps_the_grab_offset_when_the_press_is_left_of_the_thing() {
    // A press recorded left of the rectangle grabs it at its corner.
    let mut d: Drag<u8> = Drag::new();
    d.on_mouse(down(1, 1), Some((1, Rect::new(4, 4, 5, 2))));
    d.on_mouse(drag(10, 10), None);
    assert_eq!(d.ghost(Rect::new(0, 0, 80, 24)), Some(Rect::new(10, 10, 5, 2)));
}

#[test]
fn hits_clear_and_edges() {
    let mut h: Hits<u8> = Hits::default();
    h.put(Rect::new(3, 3, 2, 2), 5);
    // The right and bottom edges are outside.
    assert_eq!(h.at(4, 4), Some((5, Rect::new(3, 3, 2, 2))));
    assert_eq!(h.at(5, 4), None);
    assert_eq!(h.at(4, 5), None);
    h.clear();
    assert_eq!(h.at(3, 3), None);
}

#[test]
fn rect_new_keeps_the_rectangle_on_the_plane() {
    assert_eq!(Rect::new(65530, 10, 20, 5), Rect { x: 65530, y: 10, width: 5, height: 5 });
    assert_eq!(Rect::new(1, 65535, 3, 9), Rect { x: 1, y: 65535, width: 3, height: 0 });
    assert_eq!(Rect::new(2, 3, 4, 5), Rect { x: 2, y: 3, width: 4, height: 5 });
}

#[test]
fn rect_bottom_and_contains() {
    let r = Rect::new(2, 3, 4, 5);
    assert_eq!(r.bottom(), 8);
    assert!(r.contains(2, 3));
    assert!(r.contains(5, 7));
    assert!(!r.contains(6, 7));
    assert!(!r.contains(5, 8));
    assert!(!r.contains(1, 3));
    let odd = Rect { x: 0, y: 65530, width: 1, height: 10 };
    assert_eq!(odd.bottom(), 65535);
}
