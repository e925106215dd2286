//! CSV/TSV column alignment: dialects, quote-aware field splitting, document
//! analysis, whitespace align/shrink and virtual-align pads, with the
//! language-server and editor-extension decisions built on them.
pub mod text;
pub mod rainbow_csv_core;
pub mod csv_core;
pub mod lsp;
pub mod extension;
