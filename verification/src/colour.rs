//! Particle colours: a closed set of six tags indexing the interaction
//! matrix.

use vstd::prelude::*;
use crate::rng::random_in;

verus! {

/// Number of distinct particle colours.
pub const NUM_COLOURS: usize = 6;

#[derive(Clone, Copy, Debug, PartialEq, Eq, Structural)]
pub enum ParticleColour {
    Red,
    Green,
    Blue,
    Orange,
    Pink,
    Aqua,
}

impl ParticleColour {
    /// The matrix index of each colour.
    pub open spec fn index_spec(self) -> int {
        match self {
            ParticleColour::Red => 0,
            ParticleColour::Green => 1,
            ParticleColour::Blue => 2,
            ParticleColour::Orange => 3,
            ParticleColour::Pink => 4,
            ParticleColour::Aqua => 5,
        }
    }

    pub fn index(&self) -> (i: usize)
        ensures
            i == self.index_spec(),
            i < NUM_COLOURS,
    {
        match self {
            ParticleColour::Red => 0,
            ParticleColour::Green => 1,
            ParticleColour::Blue => 2,
            ParticleColour::Orange => 3,
            ParticleColour::Pink => 4,
            ParticleColour::Aqua => 5,
        }
    }

    pub fn from_index(index: usize) -> (c: ParticleColour)
        requires
            index < NUM_COLOURS,
        ensures
            c.index_spec() == index,
    {
        match index {
            0 => ParticleColour::Red,
            1 => ParticleColour::Green,
            2 => ParticleColour::Blue,
            3 => ParticleColour::Orange,
            4 => ParticleColour::Pink,
            _ => ParticleColour::Aqua,
        }
    }

    /// A uniformly random colour among the first `particle_variety` colours.
    pub fn random(particle_variety: usize) -> (c: ParticleColour)
        requires
            1 <= particle_variety <= NUM_COLOURS,
        ensures
            c.index_spec() < particle_variety,
    {
        let draw = random_in(1, particle_variety as i64);
        ParticleColour::from_index((draw - 1) as usize)
    }
}

} // verus!
