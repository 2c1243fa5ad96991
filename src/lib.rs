//! Combinatorial core of a hyperbolic voxel world: the cells of the order-4
//! dodecahedral honeycomb, their lazy materialization around an observer, and
//! the rules that fill newly revealed cells with terrain.

pub mod dodeca;
pub mod graph;
pub mod sim;
pub mod world;
