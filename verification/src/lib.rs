//! A verified interpreter for Malbolge, the self-modifying esoteric
//! language whose machine words are ten-trit ternary values.
//!
//! The crate has two layers: `value` holds the ternary word type with its
//! wraparound increment, trit rotation and the "crazy" operation, and `vm`
//! holds the program loader and the fetch-decode-execute engine.  All
//! observable behaviour is pinned down by specifications over mathematical
//! integers and sequences.

pub mod value;
pub mod vm;
