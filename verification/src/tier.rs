//! The three tiers of the arena allocator and their size alignment.

use vstd::prelude::*;
use crate::layout::{align_up, checked_align_up};

verus! {

/// A fixed zone of the region served by one bump allocator.
#[derive(Clone, Copy, PartialEq, Eq, Structural, Debug)]
pub enum Tier {
    /// Mesh data and render targets: largest share, widest alignment.
    Render,
    /// Scene data and gameplay systems: medium share.
    Scene,
    /// Actors, particles and effects: smallest share, tightest alignment.
    Entity,
}

impl Tier {
    /// The multiple to which the tier rounds every request.
    pub open spec fn alignment_of(self) -> int {
        match self {
            Tier::Render => 128,
            Tier::Scene => 64,
            Tier::Entity => 8,
        }
    }

    /// The size that a request of `size` bytes takes up in this tier.
    pub open spec fn aligned_size(self, size: int) -> int {
        align_up(size, self.alignment_of())
    }

    /// The tier that a numeric identifier stands for on a tiered call:
    /// an identifier that names no tier stands for the most disposable one.
    pub open spec fn resolved(value: u8) -> Tier {
        match Tier::of_number(value) {
            Some(tier) => tier,
            None => Tier::Entity,
        }
    }

    /// The multiple to which the tier rounds every request: 128 bytes for
    /// `Render`, 64 for `Scene`, 8 for `Entity`.
    pub fn alignment(self) -> (align: usize)
        ensures
            align == self.alignment_of(),
    {
        match self {
            Tier::Render => 128,
            Tier::Scene => 64,
            Tier::Entity => 8,
        }
    }

    /// Rounds a request up to the tier's alignment, or reports that the
    /// rounded size does not fit the machine's range.
    pub fn align_size(self, size: usize) -> (aligned: Option<usize>)
        ensures
            aligned == (if self.aligned_size(size as int) <= usize::MAX {
                Some(self.aligned_size(size as int) as usize)
            } else {
                None
            }),
    {
        checked_align_up(size, self.alignment())
    }

    /// Resolves a numeric tier identifier, falling back to `Entity` where it
    /// names no tier.
    pub fn from_u8_or_entity(value: u8) -> (tier: Tier)
        ensures
            tier == Tier::resolved(value),
    {
        match Tier::from_u8(value) {
            Some(tier) => tier,
            None => Tier::Entity,
        }
    }

    /// The tier that a numeric identifier names, if it names one.
    pub open spec fn of_number(value: u8) -> Option<Tier> {
        if value == 0 {
            Some(Tier::Render)
        } else if value == 1 {
            Some(Tier::Scene)
        } else if value == 2 {
            Some(Tier::Entity)
        } else {
            None
        }
    }

    /// Decodes a numeric tier identifier: 0, 1 and 2 name the tiers, nothing else does.
    pub fn from_u8(value: u8) -> (tier: Option<Tier>)
        ensures
            tier == Tier::of_number(value),
    {
        match value {
            0 => Some(Tier::Render),
            1 => Some(Tier::Scene),
            2 => Some(Tier::Entity),
            _ => None,
        }
    }
}

} // verus!
