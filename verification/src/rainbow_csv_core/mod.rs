//! Align/shrink core: span-tracked quote-aware splitting, single-pass
//! document analysis, whitespace align and shrink, and virtual-align pads.
pub mod dialect;
pub mod split;
pub mod analysis;

pub use dialect::Dialect;
pub use split::{split_line, split_line_spans, SpannedField};
pub use analysis::{analyze_document, display_width, utf16_len, DocAnalysis, FieldInfo};
pub mod rewrite;
pub use rewrite::{align_document, shrink_document};
pub mod pads;
pub use pads::{pads_for_range, virtual_pads, VirtualPad};
pub mod reparse;
pub mod lines;
pub mod laws;
