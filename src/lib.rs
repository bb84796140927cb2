//! Real-time coordination core of a multiplayer retro-game platform:
//! presence of users, fan-out of notifications, rooms, invites and the
//! voice relay that forwards audio between the members of a room.
pub mod auth;
pub mod error;
pub mod event;
pub mod github;
pub mod invite;
pub mod keyed;
pub mod lobby;
pub mod notify;
pub mod room;
pub mod session;
pub mod social;
pub mod voice;
