//! The species of particle life.
use vstd::prelude::*;

use crate::rng::{random_below, Rng};

verus! {

/// The species of a particle-life creature. How one species pulls on another
/// is what makes the system interesting; the forces themselves are floating
/// point and live with the simulation.
#[derive(Clone, Copy, Debug, PartialEq, Eq, Structural)]
pub enum CreatureType {
    Red,
    Green,
    Blue,
}

impl CreatureType {
    /// The species numbered `n`: 0 is red, 1 green, anything else blue.
    pub open spec fn numbered(n: int) -> CreatureType {
        if n == 0 {
            CreatureType::Red
        } else if n == 1 {
            CreatureType::Green
        } else {
            CreatureType::Blue
        }
    }

    /// The species numbered `n`: 0 is red, 1 green, anything else blue.
    pub fn from_number(n: u32) -> (t: Self)
        ensures
            t == Self::numbered(n as int),
    {
        match n {
            0 => CreatureType::Red,
            1 => CreatureType::Green,
            _ => CreatureType::Blue,
        }
    }

    /// A species drawn uniformly at random: a number from `0..3` is drawn from
    /// `rng` and mapped by [`Self::from_number`].
    pub fn random(rng: &mut Rng) -> (t: Self)
        ensures
            exists|n: int| 0 <= n < 3 && t == Self::numbered(n),
    {
        Self::from_number(random_below(rng, 3))
    }
}

} // verus!
