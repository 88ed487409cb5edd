//! Gameplay core of a "merge the falling balls" arcade game.
//!
//! Balls of discrete levels fall, collide, and two touching balls of equal
//! level merge into one ball of the next level. This crate holds the entity
//! lifecycle and the merge state machine in exact integer arithmetic; physics,
//! input and rendering are collaborators that feed it plain values.

pub mod aim;
pub mod animate;
pub mod ball;
pub mod collision;
pub mod config;
pub mod interp;
pub mod level;
pub mod motion;
pub mod spawn;
pub mod store;
pub mod theorems;
pub mod tick;
pub mod timer;
