//! Route resolution and balance aggregation for tokens held across chains
//! linked by inter-chain transfer channels.

pub mod address;
pub mod aggregate;
pub mod denom;
pub mod graph;
pub mod route;
pub mod text;
pub mod totals;
pub mod types;
