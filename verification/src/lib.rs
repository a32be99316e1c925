//! A verified engine for the chopsticks hand game: rule engines over a
//! rotating and over a fixed roster, a bijective numbering of positions and
//! actions, and simulation-based decision strategies.

pub mod chopsticks;
pub mod chopsticks_state;
pub mod controller;
pub mod digits;
pub mod game;
pub mod hands;
pub mod pure_monte_carlo;
pub mod random;
pub mod state;
pub mod status;
