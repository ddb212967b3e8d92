//! A converter from a small dialect of Markdown to HTML.
//!
//! A document is cut into lines and chunks (`lines`), each chunk becomes a
//! block (`block`), the text of each block is formatted as inline text
//! (`inline`), and the blocks are rendered as HTML fragments, one after the
//! other (`render`). Every step is a total function of its input: what
//! cannot be read as markup is text.

pub mod block;
pub mod inline;
pub mod lines;
pub mod render;
pub mod text;

pub use block::{parse_block, tokenize, Block};
pub use inline::parse_inline_formatting;
pub use render::{convert, render_blocks_to_html};
