//! Board model of a sliding-tile puzzle: tile placement, grid and world
//! coordinates, legal moves, the solved check, and the turn-taking phases of
//! a game played on it.

pub mod board;
pub mod world;
pub mod game;
