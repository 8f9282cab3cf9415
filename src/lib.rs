//! Maps byte offsets into a text to 1-based (line, column) pairs.
pub mod clusters;
pub mod lines;
pub mod lookup;

pub use lookup::LineColLookup;
