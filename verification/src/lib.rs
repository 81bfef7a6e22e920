//! Minimum-cost flow by the network-simplex method, with a balanced-quota
//! assignment layer that maps weighted points onto a small set of centers.
//!
//! The solver works on an indexed multigraph whose arcs are stored in
//! complementary forward/residual pairs.  It repeatedly recomputes dual
//! potentials over a spanning tree, selects a non-tree arc of most negative
//! reduced cost, and pushes flow around the cycle that arc closes, until no
//! such arc remains.
#![verifier::loop_isolation(false)]

pub mod assignment;
pub mod simplex;
pub mod tree;
pub mod union_find;
