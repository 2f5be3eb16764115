//! Opaque handles a simulation holds to host-owned resources, and the
//! effects it can ask a renderer for by name.
use vstd::prelude::*;

verus! {

/// An opaque handle to a host-owned texture. A simulation can hold one across
/// frames but can never look inside it.
#[derive(Clone, Copy, Debug, PartialEq, Eq, Hash, Structural)]
pub struct TextureId(pub usize);

/// An opaque handle to a host-owned offscreen layer.
#[derive(Clone, Copy, Debug, PartialEq, Eq, Hash, Structural)]
pub struct LayerId(pub usize);

/// An opaque handle to a host-owned sound. Callers can hold one and play it
/// back, but can never look inside it.
#[derive(Clone, Copy, Debug, PartialEq, Eq, Hash, Structural)]
pub struct SoundId(pub usize);

/// A visual treatment a simulation can ask for by name.
///
/// Simulations request an effect; they never supply shader source. A backend
/// that does not implement one falls back to drawing unfiltered, so asking
/// for an effect is always safe.
#[derive(Clone, Copy, Debug, Default, PartialEq, Eq, Hash, Structural)]
pub enum Effect {
    /// Draw exactly as composed.
    #[default]
    Plain,
    /// Treat the layer's coverage as a density field and shade it as a liquid
    /// surface. Expects the layer to have been drawn with wide, low-alpha
    /// marks.
    Liquid,
}

} // verus!
