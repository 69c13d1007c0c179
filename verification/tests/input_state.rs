//! Tests of the tracked input state: window focus, mouse buttons and the
//! pressed-button cursor.

use growth::state::{
    Button, ButtonMap, ButtonPosition, Mouse, Point2, Window, WindowId,
};

#[test]
fn window_starts_unfocused() {
    let w = Window::new();
    assert_eq!(w.id, None);
}

#[test]
fn window_id_returns_focused_handle() {
    let w = Window { id: Some(WindowId { value: 11 }) };
    assert_eq!(w.id().value, 11);
}

#[test]
fn button_position_queries() {
    let up = ButtonPosition::Up;
    let down = ButtonPosition::Down(Point2 { x: 3, y: -4 });
    assert!(up.is_up() && !up.is_down());
    assert!(down.is_down() && !down.is_up());
    assert_eq!(up.if_down(), None);
    assert_eq!(down.if_down(), Some(Point2 { x: 3, y: -4 }));
}

#[test]
fn button_position_relative_to_shifts_press_point() {
    let down = ButtonPosition::Down(Point2 { x: 10, y: 20 });
    let rel = down.relative_to(Point2 { x: 3, y: 4 });
    assert_eq!(rel, ButtonPosition::Down(Point2 { x: 7, y: 16 }));
    assert_eq!(ButtonPosition::Up.relative_to(Point2 { x: 3, y: 4 }), ButtonPosition::Up);
}

#[test]
fn button_map_press_and_release() {
    let mut m = ButtonMap::new();
    assert!(m.left().is_up() && m.right().is_up() && m.middle().is_up());
    m.press(Button::Left, Point2 { x: 1, y: 2 });
    assert!(m.left().is_down());
    assert_eq!(m.left().if_down(), Some(Point2 { x: 1, y: 2 }));
    m.press(Button::Right, Point2 { x: -5, y: 0 });
    assert!(m.right().is_down());
    m.release(Button::Left);
    assert!(m.left().is_up());
    assert!(m.right().is_down());
}

#[test]
fn button_map_relative_to_applies_everywhere() {
    let mut m = ButtonMap::new();
    m.press(Button::Left, Point2 { x: 100, y: 100 });
    m.press(Button::Other(2), Point2 { x: 10, y: 0 });
    let rel = m.relative_to(Point2 { x: 50, y: 60 });
    assert_eq!(rel.left().if_down(), Some(Point2 { x: 50, y: 40 }));
    assert!(rel.right().is_up());
}

#[test]
fn pressed_cursor_walks_buttons_in_slot_order() {
    let mut m = ButtonMap::new();
    m.press(Button::Left, Point2 { x: 1, y: 1 });
    m.press(Button::Other(2), Point2 { x: 2, y: 2 });
    m.press(Button::Middle, Point2 { x: 3, y: 3 });
    let mut it = m.pressed();
    // Other(2) sits in slot 2, Left in slot 6, Middle in slot 8.
    assert_eq!(it.next(), Some((Button::Other(2), Point2 { x: 2, y: 2 })));
    assert_eq!(it.next(), Some((Button::Left, Point2 { x: 1, y: 1 })));
    assert_eq!(it.next(), Some((Button::Middle, Point2 { x: 3, y: 3 })));
    assert_eq!(it.next(), None);
}

#[test]
fn mouse_starts_at_origin_with_buttons_up() {
    let m = Mouse::new();
    assert_eq!(m.window, None);
    assert_eq!(m.position(), Point2 { x: 0, y: 0 });
    assert!(m.buttons.left().is_up());
}
