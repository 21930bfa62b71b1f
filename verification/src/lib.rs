//! Rules engine for a territorial-conquest board game.
//!
//! The engine owns the authoritative game state, validates and applies player
//! actions, resolves dice-based combat, estimates conquest probabilities with
//! a memoized fixed-point recursion, and enumerates the legal moves for each
//! turn phase.

pub mod actions;
pub mod board;
pub mod card;
pub mod connect;
pub mod continent;
pub mod game;
pub mod game_config;
pub mod names;
pub mod player;
pub mod probability;
pub mod rng;
pub mod territory;
pub mod turn_phase;
