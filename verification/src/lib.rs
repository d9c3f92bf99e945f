//! A verified 3D bin-packing planner for a warehouse backend: the packing
//! heuristic, the catalogue records it reads, and the account and
//! registration rules of the service.

pub mod geometry;
pub mod sorting;
pub mod area;
pub mod text;
pub mod catalog;
pub mod placement;
pub mod container;
pub mod packer;
pub mod search;
pub mod plan;
pub mod intake;
pub mod account;
pub mod credentials;


use vstd::prelude::*;

verus! {

} // verus!
