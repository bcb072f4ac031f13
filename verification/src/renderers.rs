//! Renderers for the block elements that are buffered until they end.

pub mod blockquote;
pub mod code_block;
pub mod list;
pub mod table;

pub use blockquote::BlockquoteRenderer;
pub use code_block::CodeBlockRenderer;
pub use list::ListRenderer;
pub use table::TableRenderer;
