//! Extracting a designated portion of a text file's content, addressed
//! by a compact location string: a file path with an optional selector
//! naming a numeric line range or an anchor region delimited by paired
//! marker comment lines.
//!
//! [`IncludeLocation::parse`] turns a location string into a path and an
//! [`IncludeRange`]; [`process_file`] applies that range to
//! already-loaded file text and returns the selected substring, trimmed
//! of leading and trailing whitespace. Reading the file itself, and
//! resolving its path against a build root, are the caller's concern.

pub mod location;
pub mod slicer;
pub mod text;

pub use location::{IncludeLocation, IncludeRange, LocView, ParseError, RangeBound, RangeView};
pub use slicer::{AnchorStyle, SliceError, process_file};
