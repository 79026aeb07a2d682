//! Core of an authoritative multiplayer game server: a length-prefixed frame
//! codec over a byte stream, a binary message layer, the team/player world
//! model with its invariants, and the per-tick decision logic that a thin
//! network shell drives.

pub mod channel;
pub mod codec;
pub mod constants;
pub mod fx;
pub mod gamestate;
pub mod level;
pub mod messages;
pub mod names;
pub mod player;
pub mod tick;
pub mod wire;
