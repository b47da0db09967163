//! Temporal rhythm and timing coordination across a fleet of rooms.
//!
//! `TideClock` keeps global time, `Phase` measures offsets between rooms,
//! `TidePool` groups phase-locked rooms, `TidePredictor` forecasts room
//! states, `LightCycle` manages day/night resources and `SlackTide` marks
//! quiet maintenance windows.

pub mod arith;
pub mod clock;
pub mod light;
pub mod phase;
pub mod pool;
pub mod predictor;
pub mod slack;
pub mod ternary;

pub use arith::{gcd, lcm};
pub use clock::TideClock;
pub use light::LightCycle;
pub use phase::Phase;
pub use pool::TidePool;
pub use predictor::TidePredictor;
pub use slack::SlackTide;
pub use ternary::Ternary;
