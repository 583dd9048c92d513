//! Line-ending-aware loading and saving of text documents.
//!
//! Raw bytes are classified by line-ending style and trailing-newline state,
//! decoded, normalized to line-feed-only text and held in a rope; saving
//! re-joins the rope's lines with the recorded style.

pub mod line_ending;
pub mod text;
pub mod buffer;
pub mod encoding;
pub mod document;
