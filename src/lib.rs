//! A foraging ant colony: ants wander a bounded arena, eat food, carry it
//! home and leave fading trail markers. Positions and headings are fixed
//! point (see `geometry::UNIT`), times are in milliseconds, and every step of
//! the simulation is verified against its contract.

pub mod colony;
pub mod geometry;
pub mod random;
pub mod timer;
