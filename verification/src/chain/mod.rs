//! The chain calculator's decisions: which recipe makes an item, which
//! machine crafts it, and the order in which steps are built.
pub mod error;

pub use error::ChainError;
pub mod goal;

pub use goal::{ChainGoal, MachineFallback, MachinePolicy};
pub mod select;
pub mod solve;
pub mod order;
