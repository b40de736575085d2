//! Barnes-Hut building blocks on an integer lattice.
//!
//! Positions are points of a `u32 x u32` lattice and masses are whole
//! numbers of mass quanta, so every aggregate the tree keeps is exact and
//! the result of combining trees does not depend on the order of the work:
//! however the bodies are dealt out to threads and processes, every
//! participant ends a step with the same tree, node for node.
//!
//! * [`geometry`]: lattice points, bounding boxes, the square domain of a
//!   step and the grid of cells it is divided into.
//! * [`tree`]: the spatial tree, with insertion and merging; [`node`] and
//!   [`grid`] hold its nodes and the blocks of cells they cover.
//! * [`force`]: the walk that decides which point masses act on a body.
//! * [`codec`]: trees as words and bytes; [`packing`] packs the words.
//! * [`pipeline`]: building the tree of a shard, folding the trees of
//!   threads and processes into one.
//! * [`exchange`] and [`partition`]: where each process's bytes lie in the
//!   gathered buffer, and which bodies each process holds.
//! * [`timing`]: averages of stage durations.
//!
//! The library does no arithmetic on floating-point numbers. A caller that
//! keeps its bodies in floating point rounds them to the lattice before a
//! step and evaluates the force law on the point masses that the walk
//! hands out.

pub mod body;
pub mod codec;
pub mod exchange;
pub mod force;
pub mod geometry;
pub mod grid;
pub mod node;
pub mod packing;
pub mod partition;
pub mod pipeline;
pub mod timing;
pub mod tree;
