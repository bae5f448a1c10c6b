//! A mergeable sketch that flags byte strings which were probably inserted
//! at least twice, built from 2-bit saturating counters packed in 32-bit words.

pub mod counter;
pub mod sketch;
pub mod codec;
pub mod laws;

pub use codec::{combine_sketches, SketchError};
pub use sketch::DuplicatesSketch;
