//! Tandem repeat detection in DNA sequences: a greedy prefilter proposes
//! candidate arrays, a banded local alignment refines their boundaries, and
//! a sequential scan keeps a left-first, non-overlapping set of repeats.

pub mod alignment;
pub mod composition;
pub mod finder;
pub mod resolver;
