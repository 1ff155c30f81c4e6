//! Services of a game server: arena topology, player regulation, boards,
//! invitations, chat inboxes and metrics.
pub mod boards;
pub mod bots;
pub mod chat;
pub mod dispatch;
pub mod invitation;
pub mod liveboard;
pub mod placement;
pub mod players;
pub mod realms;
pub mod metric;
pub mod topology;
