//! Integer core of a 2D Fast-Multipole N-body simulator: Morton keys,
//! Morton-ordered quadtree topology, interaction lists, spatial lookup,
//! snapshot framing and the small scheduling decisions around them.

pub mod morton;
pub mod tree;
pub mod balance;
pub mod order;
pub mod moments;
pub mod lists;
pub mod layout;
pub mod spatial;
pub mod snapshot;
pub mod sampling;
pub mod control;
