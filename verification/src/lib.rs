//! A two-phase Markdown engine: a block segmenter that partitions a document's
//! lines into typed blocks, and an inline extractor that gives each line of a
//! non-code block its structural role and its sequence of inline segments.
//!
//! The model owns its text: every block, line and segment holds copies of the
//! characters it was made from, and nothing in it points back into the
//! document.

pub mod blocks;
pub mod document;
pub mod emphasis;
pub mod inline;
pub mod line;
pub mod model;
pub mod patterns;
pub mod text;
pub mod words;

pub use blocks::{
    split_markdown_into_blocks, split_text_into_blocks, BlockFlags, UnformattedMarkdownBlock,
};
pub use document::{
    format_line, format_text_line, parse_document, FormattedLine, FormattedMarkdownBlock,
};
pub use emphasis::{split_into_sections, split_with_mask};
pub use line::{classify, LineOptions};
pub use model::{ImageData, LinkData, MarkdownModifers, TextData, TextImage};
