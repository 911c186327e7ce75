//! Copy-on-write slices of a string: when a list of byte ranges forms one
//! contiguous region, the result borrows from the source string; otherwise it
//! is an owned concatenation of every range, in the order given.
pub mod ranges;
pub mod strloin;

pub use crate::ranges::{collapse_ranges, Ranges};
pub use crate::strloin::Strloin;
pub use std::borrow::Cow;
