//! Domain constants shared by the world model, the message layer and the
//! tick loop. Distances and speeds are fixed-point values (see `fx`).

use vstd::prelude::*;

verus! {

/// Identity of the red team.
pub const TEAM_RED_ID: u64 = 0;

/// Identity of the blue team.
pub const TEAM_BLUE_ID: u64 = 1;

/// Seconds per tick, fixed-point: one hundredth of a second.
pub const DELTA_TIME: i64 = 10;

/// Tick period in milliseconds, for the pacing sleep.
pub const SERVER_SLEEP_DURATION: u64 = 10;

/// Player speed in world units per second, fixed-point: 1.5.
pub const PLAYER_SPEED: i64 = 1500;

/// Display-width cap on player names.
pub const NAME_WIDTH: usize = 20;

/// Byte cap on stored player and team names (UTF-8 length).
pub const NAME_MAX_BYTES: usize = 128;

/// Largest magnitude a movement-axis input may take (fixed-point 1.0).
pub const INPUT_AXIS_LIMIT: i64 = 1000;

/// Largest magnitude a per-tick turn input may take (a thousand full turns).
pub const INPUT_ROT_LIMIT: i64 = 6_284_000;

/// World coordinates are clamped to this magnitude.
pub const POS_LIMIT: i64 = 100_000_000;

/// Largest tick duration the physics accepts (one minute, fixed-point).
pub const DT_LIMIT: i64 = 60_000;

} // verus!
