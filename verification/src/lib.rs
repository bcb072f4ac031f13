//! Markdown rendered as styled text for a terminal.
//!
//! A document arrives as a flat sequence of structural events: regions
//! entered and left, text, line breaks. [`MarkdownRenderer`] takes the
//! events in one pass and writes headings with their decoration, lists
//! with bullets or numbers, tables with box-drawing borders, block quotes
//! behind a bar and code blocks indented, with inline styles as escape
//! sequences where colours are on.

pub mod blocks;
pub mod context;
pub mod element_renderer;
pub mod events;
pub mod formatters;
pub mod nesting;
pub mod renderer;
pub mod renderers;
pub mod text;

pub use context::{FormattingState, RenderContext};
pub use element_renderer::ElementRenderer;
pub use events::{BlockKind, StructuralEvent};
pub use renderer::MarkdownRenderer;
pub use renderers::{BlockquoteRenderer, CodeBlockRenderer, ListRenderer, TableRenderer};
