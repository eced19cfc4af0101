//! Particle effect kinds and their sprite-sheet metadata.

use vstd::prelude::*;

verus! {

/// One-shot particle effect.
#[derive(Clone, Copy, Debug, PartialEq, Eq, Structural)]
pub enum ParticleKind {
    Dust,
    ExplosionLarge,
    HealEffect,
}

impl ParticleKind {
    /// Number of animation frames.
    pub fn frame_count(self) -> (r: u32)
        ensures
            r == match self {
                ParticleKind::Dust => 8u32,
                ParticleKind::ExplosionLarge => 10u32,
                ParticleKind::HealEffect => 11u32,
            },
    {
        match self {
            ParticleKind::Dust => 8,
            ParticleKind::ExplosionLarge => 10,
            ParticleKind::HealEffect => 11,
        }
    }

    /// Side length of one square frame, in pixels.
    pub fn frame_size(self) -> (r: u32)
        ensures
            r == match self {
                ParticleKind::Dust => 64u32,
                ParticleKind::ExplosionLarge => 192u32,
                ParticleKind::HealEffect => 192u32,
            },
    {
        match self {
            ParticleKind::Dust => 64,
            ParticleKind::ExplosionLarge => 192,
            ParticleKind::HealEffect => 192,
        }
    }

    /// Sprite sheet filename.
    pub fn asset_filename(self) -> (r: &'static str)
        ensures
            r@ == match self {
                ParticleKind::Dust => "Dust_01.png"@,
                ParticleKind::ExplosionLarge => "Explosion_02.png"@,
                ParticleKind::HealEffect => "Heal_Effect.png"@,
            },
    {
        match self {
            ParticleKind::Dust => "Dust_01.png",
            ParticleKind::ExplosionLarge => "Explosion_02.png",
            ParticleKind::HealEffect => "Heal_Effect.png",
        }
    }
}

} // verus!
