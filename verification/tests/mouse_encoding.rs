use kitty_test_harness::mouse::{
    encode_mouse_drag, encode_mouse_move, encode_mouse_press, encode_mouse_release,
    encode_mouse_scroll, MouseButton, ScrollDirection,
};

#[test]
fn test_encode_mouse_press() {
    // Position (0, 0) should encode as (1, 1)
    assert_eq!(encode_mouse_press(MouseButton::Left, 0, 0), "\x1b[<0;1;1M");
    // Position (9, 4) should encode as (10, 5)
    assert_eq!(encode_mouse_press(MouseButton::Left, 9, 4), "\x1b[<0;10;5M");
    // Right button
    assert_eq!(encode_mouse_press(MouseButton::Right, 5, 5), "\x1b[<2;6;6M");
}

#[test]
fn test_encode_mouse_release() {
    assert_eq!(encode_mouse_release(MouseButton::Left, 0, 0), "\x1b[<0;1;1m");
}

#[test]
fn test_encode_mouse_release_per_button() {
    assert_eq!(encode_mouse_release(MouseButton::Left, 2, 3), "\x1b[<0;3;4m");
    assert_eq!(encode_mouse_release(MouseButton::Middle, 2, 3), "\x1b[<1;3;4m");
    assert_eq!(encode_mouse_release(MouseButton::Right, 2, 3), "\x1b[<2;3;4m");
}

#[test]
fn test_encode_mouse_drag() {
    // Drag has motion flag (32) added
    assert_eq!(encode_mouse_drag(MouseButton::Left, 0, 0), "\x1b[<32;1;1M");
}

#[test]
fn test_encode_mouse_move() {
    // Move uses code 35 (32 + 3)
    assert_eq!(encode_mouse_move(0, 0), "\x1b[<35;1;1M");
}

#[test]
fn encode_mouse_press_middle_button() {
    assert_eq!(encode_mouse_press(MouseButton::Middle, 0, 0), "\x1b[<1;1;1M");
}

#[test]
fn encode_mouse_drag_per_button() {
    assert_eq!(encode_mouse_drag(MouseButton::Middle, 1, 2), "\x1b[<33;2;3M");
    assert_eq!(encode_mouse_drag(MouseButton::Right, 1, 2), "\x1b[<34;2;3M");
}

#[test]
fn encode_mouse_scroll_wheel_codes() {
    // the xterm wheel codes 64..=67 for up, down, left, right
    assert_eq!(encode_mouse_scroll(ScrollDirection::Up, 0, 0), "\x1b[<64;1;1M");
    assert_eq!(encode_mouse_scroll(ScrollDirection::Down, 0, 0), "\x1b[<65;1;1M");
    assert_eq!(encode_mouse_scroll(ScrollDirection::Left, 0, 0), "\x1b[<66;1;1M");
    assert_eq!(encode_mouse_scroll(ScrollDirection::Right, 3, 7), "\x1b[<67;4;8M");
}

#[test]
fn encode_mouse_large_coordinates() {
    assert_eq!(encode_mouse_press(MouseButton::Left, 999, 499), "\x1b[<0;1000;500M");
}
