//! Constrained random assignment of recipients to the members of a group
//! (a gift exchange): every member gets exactly one other member, never
//! itself and never anyone on its own exclusion list.

pub mod engine;
pub mod registry;
pub mod round;

pub use engine::SantaMatcher;
pub use registry::{Santa, SantaError};
