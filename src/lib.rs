//! Reservoir sampling over a stream of text lines (Knuth's Algorithm R).
//!
//! A [`Picker`] keeps at most `capacity` lines in memory however long the
//! stream is; every line of a stream of `n` lines ends up in the sample with
//! probability `capacity / n`. The only source of variation is a
//! [`DrawSource`], which callers can replace with a deterministic one.

mod picker;
mod source;

pub use picker::{sample, Picker};
pub use source::{DrawSource, FixedSource, RandomSource};
