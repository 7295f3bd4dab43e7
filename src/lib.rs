//! A verified session manager for a multiplayer dice game: per-table game
//! sessions, a registry keyed by room and table, winner ranking and the
//! one-time settlement of a finished game.
pub mod text;
pub mod session;
pub mod settlement;
pub mod registry;
pub mod command;
pub mod gateway;
pub mod table;
pub mod auth;
