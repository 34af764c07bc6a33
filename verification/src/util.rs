//! Building blocks shared by the inventory.

pub mod cumulative_weights;
pub mod positions;
