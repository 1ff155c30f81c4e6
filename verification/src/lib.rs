//! Verified core of the Kodiak game server: team bookkeeping, join/leave
//! regulation, the lifecycle of client connections, arena topology and
//! navigation, placement of clients, collection of idle realms, chat
//! inboxes, boards, metric bundles, sessions and claims, per-address
//! connection accounting and the heartbeat schedule.
use vstd::prelude::*;

pub mod auth;
pub mod client_status;
pub mod clock;
pub mod heartbeat;
pub mod ids;
pub mod ip_usage;
pub mod log_filter;
pub mod options;
pub mod public_ip;
pub mod team;
pub mod text;
pub mod regulator;
pub mod server_picker;
pub mod seq_util;
pub mod service;
pub mod session;
pub mod socket_session;
pub mod translation;

verus! {

} // verus!
