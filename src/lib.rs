//! ForceAtlas2 force-directed graph layout.
//!
//! A [`layout::Layout`] holds node positions, velocity accumulators, masses
//! and weighted edges. Each [`layout::Layout::iteration`] accumulates
//! attraction along the edges, repulsion between all node pairs and gravity
//! toward the origin, then moves every node by its accumulated force with
//! per-node swinging damping. The kernels are written over the scalar
//! capability set [`coord::Coord`] and run sequentially, over parallel work
//! chunks, or with the inner node loop grouped in vector lanes.

pub mod coord;
pub mod edge_list;
pub mod forces;
pub mod iteration;
pub mod layout;
pub mod repulsion;
pub mod schedule;
