//! Board configuration and the three named presets.

use vstd::prelude::*;

use crate::hex::MAX_RADIUS;

verus! {

/// Identifier of a named settings preset, used only by external score
/// keeping to tell presets from custom configurations.
#[non_exhaustive]
#[derive(Clone, Copy, PartialEq, Eq, Structural, Hash, Debug)]
pub enum BoardSettingsModeKey {
    Classic,
    Advanced,
    NoGravity,
}

/// Configuration a board is created from.
#[derive(Clone, Copy, Debug)]
pub struct BoardSettings {
    /// How many marbles to the edge from the center (radius 0 is one cell).
    pub radius: usize,
    /// How many outside layers of marbles to start with.
    pub border_width: usize,
    /// Whether gravity is on (it points outward from the center).
    pub gravity: bool,
    /// How many marbles need to sit next to each other to clear.
    pub clear_blob_size: usize,
    /// Multiplier on the marble spawn rate, in thousandths.
    pub spawn_multiplier_permille: u32,
    /// How many colors of marbles try to spawn.
    pub marble_color_count: usize,
    /// The preset this configuration is, or `None` for a custom mode.
    pub mode_key: Option<BoardSettingsModeKey>,
}

impl BoardSettings {
    /// What a board requires of its settings: a radius that keeps the
    /// coordinate arithmetic inside `i32`, a border that fits the board, a
    /// nonzero spawn rate, at least one color, and a clearing threshold of
    /// at least two — with a threshold of one a freshly spawned marble
    /// could never avoid being clearable, and spawning could not terminate.
    pub open spec fn wf(self) -> bool {
        &&& self.border_width <= self.radius
        &&& self.radius <= MAX_RADIUS
        &&& 1 <= self.spawn_multiplier_permille
        &&& 2 <= self.clear_blob_size
        &&& 1 <= self.marble_color_count
    }

    pub fn classic() -> (s: BoardSettings)
        ensures
            s.wf(),
            s.radius == 5,
            s.border_width == 2,
            s.spawn_multiplier_permille == 1000,
            s.gravity == true,
            s.clear_blob_size == 4,
            s.marble_color_count == 6,
            s.mode_key == Some(BoardSettingsModeKey::Classic),
    {
        BoardSettings {
            radius: 5,
            border_width: 2,
            spawn_multiplier_permille: 1000,
            gravity: true,
            clear_blob_size: 4,
            marble_color_count: 6,
            mode_key: Some(BoardSettingsModeKey::Classic),
        }
    }

    pub fn advanced() -> (s: BoardSettings)
        ensures
            s.wf(),
            s.radius == 6,
            s.border_width == 3,
            s.spawn_multiplier_permille == 1200,
            s.gravity == true,
            s.clear_blob_size == 4,
            s.marble_color_count == 7,
            s.mode_key == Some(BoardSettingsModeKey::Advanced),
    {
        BoardSettings {
            radius: 6,
            border_width: 3,
            spawn_multiplier_permille: 1200,
            gravity: true,
            clear_blob_size: 4,
            marble_color_count: 7,
            mode_key: Some(BoardSettingsModeKey::Advanced),
        }
    }

    pub fn no_gravity() -> (s: BoardSettings)
        ensures
            s.wf(),
            s.radius == 3,
            s.border_width == 2,
            s.spawn_multiplier_permille == 800,
            s.gravity == false,
            s.clear_blob_size == 4,
            s.marble_color_count == 4,
            s.mode_key == Some(BoardSettingsModeKey::NoGravity),
    {
        BoardSettings {
            radius: 3,
            border_width: 2,
            spawn_multiplier_permille: 800,
            gravity: false,
            clear_blob_size: 4,
            marble_color_count: 4,
            mode_key: Some(BoardSettingsModeKey::NoGravity),
        }
    }
}

} // verus!
