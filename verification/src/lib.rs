//! A verified interpreter for a minimal eight-command esoteric language.
//!
//! The pipeline has three stages: the lexer maps source bytes to commands,
//! the structurer turns the flat command sequence into a tree of loop blocks
//! (rejecting unmatched brackets), and the executor walks the tree against a
//! fixed-size wrap-around tape, consuming input bytes and emitting output
//! bytes.

pub mod executor;
pub mod lexer;
pub mod structurer;
