use ratatui_dnd::geom::{MouseButton, MouseEvent, MouseEventKind, Rect};
use ratatui_dnd::sort::{slot, Act, Sortable};

fn stack(top: u16, heights: &[u16]) -> Vec<Rect> {
    let mut y = top;
    heights
        .iter()
        .map(|h| {
            let r = Rect::new(2, y, 20, *h);
            y += h + 1;
            r
        })
        .collect()
}

#[test]
fn a_vertical_list_reads_by_vertical_midlines() {
    let rows = stack(1, &[3, 3, 3]);
    assert_eq!(slot(&rows, 10, 0), 0);
    assert_eq!(slot(&rows, 10, 1), 0);
    assert_eq!(slot(&rows, 10, 3), 1); // past the first midline
    assert_eq!(slot(&rows, 10, 4), 1); // in the gap between rows
    assert_eq!(slot(&rows, 10, 7), 2);
    assert_eq!(slot(&rows, 10, 50), 3);
}

#[test]
fn heights_are_measured_not_assumed() {
    // A tall row takes more travel to pass than a short one.
    let rows = stack(0, &[7, 1]);
    assert_eq!(slot(&rows, 10, 2), 0);
    assert_eq!(slot(&rows, 10, 3), 1);
    assert_eq!(slot(&rows, 10, 8), 2);
}

#[test]
fn a_horizontal_strip_reads_by_horizontal_midlines() {
    let row = vec![
        Rect::new(0, 2, 10, 3),
        Rect::new(12, 2, 10, 3),
        Rect::new(24, 2, 10, 3),
    ];
    assert_eq!(slot(&row, 3, 3), 0);
    assert_eq!(slot(&row, 6, 3), 1);
    assert_eq!(slot(&row, 30, 3), 3);
    // Above and below the strip fall before and after everything.
    assert_eq!(slot(&row, 30, 0), 0);
    assert_eq!(slot(&row, 3, 20), 3);
}

#[test]
fn a_grid_reads_row_by_row() {
    // Two rows of two, row-major.
    let grid = vec![
        Rect::new(0, 0, 10, 3),
        Rect::new(12, 0, 10, 3),
        Rect::new(0, 4, 10, 3),
        Rect::new(12, 4, 10, 3),
    ];
    assert_eq!(slot(&grid, 2, 1), 0);
    assert_eq!(slot(&grid, 13, 1), 1);
    assert_eq!(slot(&grid, 20, 1), 2);
    assert_eq!(slot(&grid, 2, 5), 2);
    assert_eq!(slot(&grid, 20, 5), 4);
    assert_eq!(slot(&grid, 20, 30), 4);
}

fn sortable() -> Sortable<&'static str, u8> {
    let mut s = Sortable::new();
    s.container(
        "left",
        Rect::new(0, 0, 24, 20),
        &[(1, Rect::new(2, 1, 20, 3)), (2, Rect::new(2, 5, 20, 3))],
    );
    s.container(
        "right",
        Rect::new(26, 0, 24, 20),
        &[(3, Rect::new(28, 1, 20, 3))],
    );
    s
}

fn mouse(kind: MouseEventKind, x: u16, y: u16) -> MouseEvent {
    MouseEvent { kind, column: x, row: y }
}

#[test]
fn a_mouse_drag_resolves_to_a_container_and_slot() {
    let mut s = sortable();
    s.on_mouse(mouse(MouseEventKind::Down(MouseButton::Left), 5, 2));
    s.on_mouse(mouse(MouseEventKind::Drag(MouseButton::Left), 30, 7));
    assert_eq!(s.held(), Some(&1));
    assert_eq!(s.over(), Some(("right", 1)));
    assert_eq!(
        s.on_mouse(mouse(MouseEventKind::Up(MouseButton::Left), 30, 7)),
        Act::Drop {
            key: 1,
            container: "right",
            slot: 1
        }
    );
}

#[test]
fn a_drop_off_every_container_lands_on_the_nearest() {
    let mut s = sortable();
    s.on_mouse(mouse(MouseEventKind::Down(MouseButton::Left), 5, 2));
    s.on_mouse(mouse(MouseEventKind::Drag(MouseButton::Left), 60, 2));
    assert_eq!(
        s.on_mouse(mouse(MouseEventKind::Up(MouseButton::Left), 60, 2)),
        Act::Drop {
            key: 1,
            container: "right",
            slot: 1
        }
    );
}

#[test]
fn the_keyboard_carries_between_containers() {
    let mut s = sortable();
    s.lift(2);
    assert_eq!(s.held(), Some(&2));
    assert_eq!(s.over(), Some(("left", 1)));
    s.shift(-1);
    assert_eq!(s.over(), Some(("left", 0)));
    s.shift(-1); // already at the top: stays
    assert_eq!(s.over(), Some(("left", 0)));
    s.shift_container(1);
    assert_eq!(s.over(), Some(("right", 0)));
    assert_eq!(s.put(), Some((2, "right", 0)));
    assert!(s.held().is_none());
}

#[test]
fn a_mouse_press_ends_a_carry() {
    let mut s = sortable();
    s.lift(2);
    s.on_mouse(mouse(MouseEventKind::Down(MouseButton::Left), 40, 18));
    assert!(s.held().is_none());
}

// Beyond the original's own tests.

#[test]
fn a_press_and_release_on_an_item_is_a_click() {
    let mut s = sortable();
    assert_eq!(s.on_mouse(mouse(MouseEventKind::Down(MouseButton::Left), 30, 2)), Act::Nothing);
    assert_eq!(s.on_mouse(mouse(MouseEventKind::Up(MouseButton::Left), 30, 2)), Act::Click(3));
    assert!(s.held().is_none());
}

#[test]
fn a_lift_reports_the_key_and_moves_report_move() {
    let mut s = sortable();
    s.on_mouse(mouse(MouseEventKind::Down(MouseButton::Left), 5, 6));
    assert_eq!(s.on_mouse(mouse(MouseEventKind::Drag(MouseButton::Left), 6, 6)), Act::Lift(2));
    assert_eq!(s.on_mouse(mouse(MouseEventKind::Drag(MouseButton::Left), 7, 1)), Act::Move);
    assert_eq!(s.over(), Some(("left", 0)));
    assert_eq!(s.carried(), None);
    assert_eq!(s.ghost(Rect::new(0, 0, 80, 24)), Some(Rect::new(4, 0, 20, 3)));
}

#[test]
fn a_drop_with_no_containers_is_nothing() {
    let mut s: Sortable<u8, u8> = Sortable::default();
    assert_eq!(s.over(), None);
    assert_eq!(s.on_mouse(mouse(MouseEventKind::Down(MouseButton::Left), 1, 1)), Act::Nothing);
    assert_eq!(s.on_mouse(mouse(MouseEventKind::Up(MouseButton::Left), 1, 1)), Act::Nothing);
    s.lift(1);
    assert!(s.held().is_none());
    assert_eq!(s.put(), None);
}

#[test]
fn a_tie_goes_to_the_container_registered_first() {
    let mut s: Sortable<u8, u8> = Sortable::new();
    s.container(1, Rect::new(0, 0, 10, 10), &[(7, Rect::new(0, 0, 10, 2))]);
    s.container(2, Rect::new(21, 0, 10, 10), &[]);
    // Column 15 is six cells from the first (its last column is 9) and
    // six from the second.
    s.on_mouse(mouse(MouseEventKind::Down(MouseButton::Left), 1, 1));
    s.on_mouse(mouse(MouseEventKind::Drag(MouseButton::Left), 15, 5));
    assert_eq!(s.over(), Some((1, 1)));
    assert_eq!(
        s.on_mouse(mouse(MouseEventKind::Up(MouseButton::Left), 15, 5)),
        Act::Drop { key: 7, container: 1, slot: 1 }
    );
}

#[test]
fn a_known_container_is_refreshed_in_place() {
    let mut s = sortable();
    s.container("left", Rect::new(0, 0, 24, 20), &[(2, Rect::new(2, 1, 20, 3))]);
    s.lift(2);
    assert_eq!(s.over(), Some(("left", 0)));
    s.shift_container(1);
    assert_eq!(s.over(), Some(("right", 0)));
    s.shift_container(5);
    assert_eq!(s.over(), Some(("right", 0)));
    s.shift_container(-9);
    assert_eq!(s.over(), Some(("left", 0)));
}

#[test]
fn shifting_stops_at_both_ends() {
    let mut s = sortable();
    s.lift(1);
    s.shift(5);
    assert_eq!(s.over(), Some(("left", 2)));
    s.shift(-9);
    assert_eq!(s.over(), Some(("left", 0)));
    s.shift(1);
    assert_eq!(s.over(), Some(("left", 1)));
}

#[test]
fn moving_to_a_shorter_container_moves_to_its_end() {
    let mut s = sortable();
    s.lift(1);
    s.shift(2);
    s.shift_container(1);
    assert_eq!(s.over(), Some(("right", 1)));
}

#[test]
fn the_keyboard_waits_while_the_mouse_holds() {
    let mut s = sortable();
    s.on_mouse(mouse(MouseEventKind::Down(MouseButton::Left), 5, 2));
    s.on_mouse(mouse(MouseEventKind::Drag(MouseButton::Left), 30, 7));
    s.lift(3);
    assert_eq!(s.carried(), None);
    assert_eq!(s.held(), Some(&1));
    s.cancel();
    assert!(s.held().is_none());
    assert_eq!(s.over(), None);
}

#[test]
fn lifting_an_unknown_key_changes_nothing() {
    let mut s = sortable();
    s.lift(2);
    s.lift(9);
    assert_eq!(s.carried(), Some(&2));
    assert_eq!(s.over(), Some(("left", 1)));
}

#[test]
fn a_single_row_reads_by_its_vertical_midline() {
    // One row of one item, five rows tall: the midline is row 4.
    let rows = vec![Rect::new(0, 2, 10, 5)];
    assert_eq!(slot(&rows, 0, 3), 0);
    assert_eq!(slot(&rows, 0, 4), 1);
    assert_eq!(slot(&rows, 0, 7), 1);
    assert_eq!(slot(&[], 5, 5), 0);
}

#[test]
fn the_gap_never_moves_back_as_the_cursor_moves_down_or_right() {
    let layouts = vec![
        stack(1, &[3, 3, 3]),
        vec![
            Rect::new(0, 0, 10, 3),
            Rect::new(12, 0, 10, 3),
            Rect::new(0, 4, 10, 3),
            Rect::new(12, 4, 10, 3),
        ],
        vec![Rect::new(0, 2, 10, 5), Rect::new(12, 1, 10, 9), Rect::new(0, 12, 30, 2)],
    ];
    for items in &layouts {
        for x in 0..40u16 {
            let mut last = 0;
            for y in 0..30u16 {
                let s = slot(items, x, y);
                assert!(s >= last);
                assert!(s <= items.len());
                last = s;
            }
        }
        for y in 0..30u16 {
            let mut last = 0;
            for x in 0..40u16 {
                let s = slot(items, x, y);
                assert!(s >= last);
                last = s;
            }
        }
    }
}
