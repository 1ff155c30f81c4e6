//! Teams of players: colors, membership, join requests, and the request
//! protocol that keeps players and teams consistent.
pub mod color;
pub mod id_or_alias;
pub mod joined_status;
pub mod members;
pub mod team;
pub mod model;
pub mod protocol;
pub mod roster;
