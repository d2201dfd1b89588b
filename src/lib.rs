//! Simulation and adversarial search for a multi-agent grid survival game.
//!
//! `game` holds the board model with its exact move / undo pair, `legal`
//! the cheap per-agent move filter, `eval` the static evaluator, `search`
//! the time-bounded alpha-beta search with its root driver, and `setup` the
//! construction of a board from cell coordinates.
pub mod game;
pub mod legal;
pub mod eval;
pub mod search;
pub mod setup;
