//! Verified core of a multiplayer Minesweeper server.
pub mod games;
pub mod grid;
pub mod json;
pub mod laws;
pub mod minesweeper;
pub mod requests;
pub mod responses;
pub mod service;
pub mod session;
pub mod text;
