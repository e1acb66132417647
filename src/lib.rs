//! Expression-graph core of a derivative-based byte regex engine: a
//! hash-consed store of packed expression nodes, byte-set algebra and the
//! next-byte reachability lattice.
pub mod byteset;
pub mod nextbyte;
pub mod expr;
pub mod hashcons;
pub mod exprset;
pub mod graphmap;
