//! A particle-life simulation engine on a toroidal plane, in fixed-point
//! arithmetic: 2D vectors with wrap-around distances, a uniform spatial
//! grid for neighbourhood queries, a species affinity matrix, and the
//! per-tick agent update (neighbour selection, pairwise forces,
//! integration, gravity wells, boundary wrap), orchestrated over a frozen
//! per-tick snapshot so that results are independent of update order.
//!
//! One world unit is `fp::SCALE` (1000); every quantity is an `i64`
//! holding its real value times that scale.

pub mod affinity;
pub mod ag;
pub mod cellmap;
pub mod engine;
pub mod fp;
pub mod latex;
pub mod utils;
pub mod vec2;
