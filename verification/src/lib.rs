//! A verified binary-delta codec: it computes a compact delta between two
//! byte strings and reconstructs the new version from the old version plus
//! that delta, with length and content-hash integrity checks at each stage.

pub mod bytes;
pub mod diff;
pub mod format;
pub mod hash;
pub mod laws;
pub mod patch;
pub mod sparse;
