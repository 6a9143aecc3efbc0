//! A planar gravitational simulator over fixed-point numbers.
//!
//! Every quantity (length, speed, mass, time) is an integer count of
//! `fixed::UNIT`-ths, so each result is exact and reproducible: sums do not
//! depend on their order, and every rounding is part of the contract. The
//! crate offers
//!
//! - a body store, in which bodies stand in the order of their identities
//!   (`store`),
//! - a tick that moves the bodies and merges those that collide on the way,
//!   with the guarantee that it keeps the total mass and leaves no two bodies
//!   overlapping by more than the rounding of their positions (`collision`,
//!   `separation`, `momentum`),
//! - three force engines: direct summation (`direct`), a uniform grid
//!   (`grid`) and a Barnes-Hut quadtree with an adjustable acceptance
//!   threshold (`barnes_hut`), with the proof that the tree of threshold 0 and
//!   the grid of at most two rows and columns agree with direct summation.
//!
//! Values are bounded (`fixed::POS_MAX` and so on). An operation whose result
//! would leave its range returns `fixed::OutOfRange` and changes nothing.

pub mod fixed;
pub mod vector;
pub mod body;
pub mod store;
pub mod pairs;
pub mod collision;
pub mod separation;
pub mod momentum;
pub mod direct;
pub mod geometry;
pub mod cluster;
pub mod grid;
pub mod barnes_hut;
pub mod cohesion;
pub mod laws;
