//! Post-order depth-first traversal of a binary tree in O(1) auxiliary
//! memory: no recursion and no stack, using temporary navigation threads
//! that are installed and removed as the walk proceeds (the Morris
//! technique specialized to post-order).
//!
//! Trees live in an arena of nodes addressed by stable indices, with an
//! explicit per-node thread slot kept separate from the real child links,
//! so a slot never doubles as both an owned child and a back-reference.

pub mod tree;
pub mod traverse;
