//! Pasture sheep: states and their animation table.

use vstd::prelude::*;

verus! {

/// Side of one sheep animation frame, in pixels.
pub const SHEEP_FRAME_SIZE: u32 = 128;
/// Frames of the idle animation.
pub const SHEEP_IDLE_FRAMES: u32 = 6;
/// Frames of the move animation.
pub const SHEEP_MOVE_FRAMES: u32 = 4;
/// Frames of the grazing animation.
pub const SHEEP_GRASS_FRAMES: u32 = 12;

/// What a sheep is doing.
#[derive(Clone, Copy, Debug, PartialEq, Eq, Structural)]
pub enum SheepState {
    Idle,
    Grazing,
    Fleeing,
}

impl SheepState {
    /// Frame count of the animation played in this state.
    pub fn anim_frame_count(self) -> (r: u32)
        ensures
            r == match self {
                SheepState::Idle => SHEEP_IDLE_FRAMES,
                SheepState::Grazing => SHEEP_GRASS_FRAMES,
                SheepState::Fleeing => SHEEP_MOVE_FRAMES,
            },
    {
        match self {
            SheepState::Idle => SHEEP_IDLE_FRAMES,
            SheepState::Grazing => SHEEP_GRASS_FRAMES,
            SheepState::Fleeing => SHEEP_MOVE_FRAMES,
        }
    }

    /// Sprite sheet of the state: 0 idle, 1 moving, 2 grazing.
    pub fn sprite_index(self) -> (r: usize)
        ensures
            r == match self {
                SheepState::Idle => 0usize,
                SheepState::Fleeing => 1usize,
                SheepState::Grazing => 2usize,
            },
    {
        match self {
            SheepState::Idle => 0,
            SheepState::Fleeing => 1,
            SheepState::Grazing => 2,
        }
    }
}

} // verus!
