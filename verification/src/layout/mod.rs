//! Block layout: how a step's machines, inserters and belts are arranged in
//! columnar cells, and the checks a finished block is held to.
pub mod cycles;
pub mod cell;
pub mod config;
pub mod delivery;
pub mod error;
pub mod geometry;
pub mod grid;
pub mod lane;
pub mod lanes;
pub mod orient;
pub mod place;
pub mod power;
pub mod rows;
pub mod sizing;
pub mod tile;
pub mod validate;

pub use cell::{CellPlan, CellTopology, Side};
pub use error::LayoutError;
pub use lane::{drop_lane, GridPos, LaneSide};
pub use lanes::BeltAssignment;
