//! Production-chain planning and block layout for Factorio: which recipes and
//! machines a chain uses, in what order its steps are built, and where each
//! entity of a generated block stands.
use vstd::prelude::*;

pub mod availability;
pub mod chain;
pub mod layout;
pub mod names;
pub mod prototype;
pub mod recipe;
pub mod registry;
pub mod tech;
pub mod templates;
pub mod text;

verus! {

} // verus!
