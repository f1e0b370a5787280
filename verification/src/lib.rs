//! **boltzmann** is a library for simulating elastic collisions between
//! hard circles in a bounded 2-D domain.
//!
//! All geometry is carried out on fixed-point integer coordinates, so
//! every algorithm in the crate is verified: the broad-phase collision
//! structures (a recursive quadtree and a uniform spatial hash), the
//! canonical deduplication of the pairs they report, and the simulator
//! that integrates particles around them.

pub mod attribute;
pub mod collision;
pub mod num;
pub mod particle;
pub mod quadtree;
pub mod simulator;
pub mod spatial_hash;
pub mod vector;
