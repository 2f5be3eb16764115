//! A snapshot of user input, handed to a simulation for one update.
use vstd::prelude::*;

verus! {

/// The 2D vector type of `glam`. Only carried through here: its coordinates
/// are floating point and nothing in this crate reads them.
#[verifier::external_type_specification]
#[verifier::external_body]
pub struct ExVec2(glam::Vec2);

/// The origin, `glam::Vec2::ZERO`. Nothing is stated of it: the vector is
/// opaque to this crate.
#[verifier::external_body]
fn origin() -> glam::Vec2 {
    glam::Vec2::ZERO
}

/// A mouse button.
#[derive(Clone, Copy, Debug, PartialEq, Eq, Hash, Structural)]
pub enum MouseButton {
    Left,
    Right,
    Middle,
}

/// A snapshot of user input for one update.
///
/// Simulations are handed one of these rather than polling the host, so a test
/// can drive them by constructing the exact input it wants.
#[derive(Clone, Copy, Debug, Default, PartialEq)]
pub struct Input {
    /// Cursor position in the simulation's own coordinate space.
    pub mouse_pos: glam::Vec2,
    pub left_down: bool,
    pub right_down: bool,
    pub middle_down: bool,
}

impl Input {
    /// Whether `button` is held in this snapshot.
    pub open spec fn held(self, button: MouseButton) -> bool {
        match button {
            MouseButton::Left => self.left_down,
            MouseButton::Right => self.right_down,
            MouseButton::Middle => self.middle_down,
        }
    }

    /// No buttons held, cursor at the origin.
    pub fn none() -> (i: Self)
        ensures
            !i.left_down,
            !i.right_down,
            !i.middle_down,
    {
        Self { mouse_pos: origin(), left_down: false, right_down: false, middle_down: false }
    }

    /// No buttons held, cursor at `mouse_pos`.
    pub fn at(mouse_pos: glam::Vec2) -> (i: Self)
        ensures
            i.mouse_pos == mouse_pos,
            !i.left_down,
            !i.right_down,
            !i.middle_down,
    {
        Self { mouse_pos, left_down: false, right_down: false, middle_down: false }
    }

    /// The same input with `button` held down.
    pub fn with_held(self, button: MouseButton) -> (i: Self)
        ensures
            i.mouse_pos == self.mouse_pos,
            forall|b: MouseButton| #[trigger] i.held(b) == (b == button || self.held(b)),
    {
        match button {
            MouseButton::Left => Self { left_down: true, ..self },
            MouseButton::Right => Self { right_down: true, ..self },
            MouseButton::Middle => Self { middle_down: true, ..self },
        }
    }

    /// Whether `button` is held down.
    pub fn is_down(&self, button: MouseButton) -> (b: bool)
        ensures
            b == self.held(button),
    {
        match button {
            MouseButton::Left => self.left_down,
            MouseButton::Right => self.right_down,
            MouseButton::Middle => self.middle_down,
        }
    }
}

} // verus!
