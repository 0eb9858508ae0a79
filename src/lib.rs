//! Weighted random selection over a cumulative-weight index.

pub mod floor;
mod sampling;
pub mod distribution;

pub use floor::closest_key_below;
pub use distribution::{Distribution, DistributionError};
