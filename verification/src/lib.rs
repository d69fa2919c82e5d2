//! Verified combinatorial core of a robust-statistics library: total-order
//! ranking and selection of observations, order statistics, the seeded
//! sub-stream scheme behind the randomized high-breakdown searches, and the
//! design checks and coverage rules those estimators share.

pub mod order;
pub mod seeds;
pub mod design;
pub mod search;
pub mod csv;
pub mod pairs;
pub mod total_order;
