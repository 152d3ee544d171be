//! A small verified kernel: a linear state sequencer, a registry of shapes
//! with exact fixed-point area accounting, a canonical JSON codec for a plain
//! point record, a fixed color listing, and a tagged error type.

pub mod color;
pub mod error;
pub mod point;
pub mod shape;
pub mod state;
