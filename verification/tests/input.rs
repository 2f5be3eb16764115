use deskthing::input::{Input, MouseButton};
use glam::vec2;

#[test]
fn default_input_has_nothing_held() {
    let input = Input::none();

    assert!(!input.is_down(MouseButton::Left));
    assert!(!input.is_down(MouseButton::Right));
    assert!(!input.is_down(MouseButton::Middle));
}

#[test]
fn with_held_sets_only_that_button() {
    let input = Input::at(vec2(3., 4.)).with_held(MouseButton::Right);

    assert_eq!(vec2(3., 4.), input.mouse_pos);
    assert!(input.is_down(MouseButton::Right));
    assert!(!input.is_down(MouseButton::Left));
}

#[test]
fn none_puts_the_cursor_at_the_origin() {
    assert_eq!(vec2(0., 0.), Input::none().mouse_pos);
}

#[test]
fn holding_two_buttons_keeps_both() {
    let input = Input::none()
        .with_held(MouseButton::Left)
        .with_held(MouseButton::Middle);

    assert!(input.is_down(MouseButton::Left));
    assert!(input.is_down(MouseButton::Middle));
    assert!(!input.is_down(MouseButton::Right));
}
