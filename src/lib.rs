//! An animated-entity lifecycle engine: tweens over transform channels,
//! plans that run them in sequence or in parallel, and a world that advances
//! every entity each tick and reclaims transient ones once their plan is done.

pub mod tween;
pub mod plan;
mod random;
pub mod templates;
pub mod world;
