//! The core of a room-based drawing and caption relay game: the session of one
//! room, the rotation of submissions between rounds, the leaderboard, and the
//! table that maps room identifiers to rooms.

pub mod laws;
pub mod model;
pub mod ranking;
pub mod registry;
pub mod state;
pub mod utils;
