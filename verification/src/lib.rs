//! A verified snake-game engine.
//!
//! The `world` module holds the tick-driven grid simulation: a snake moving
//! on a toroidal board, eating food, colliding with itself, and exposing its
//! state as a packed RGBA pixel buffer. The `snake` module holds a separate,
//! run-length-encoded snake representation with its own movement rules.

pub mod snake;
pub mod world;
