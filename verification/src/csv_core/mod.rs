//! Align/shrink core with literal `"..."` handling: dialects, splitting,
//! whitespace align and shrink, record parsing and virtual-align pads.
pub mod dialect;
pub mod split;
pub mod document;
pub mod laws;

pub use dialect::Dialect;
pub use split::{display_width, split_line};
pub use document::{
    align_document, column_widths, pads_for_range, parse_trimmed_records, shrink_document,
    virtual_pads, has_warnings, VirtualPad,
};
