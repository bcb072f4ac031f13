//! The interface that the renderers of block elements share.

use crate::context::RenderContext;
use vstd::prelude::*;

verus! {

/// A renderer for one kind of block element. It lives from the element's
/// start to its end, takes the text and breaks in between, and hands out
/// what it made of them at the end.
pub trait ElementRenderer {
    /// The element begins.
    fn start(&mut self, context: &mut RenderContext);

    /// Text inside the element.
    fn handle_text(&mut self, text: &str, context: &mut RenderContext);

    /// A soft line break inside the element.
    fn handle_soft_break(&mut self, context: &mut RenderContext);

    /// A hard line break inside the element.
    fn handle_hard_break(&mut self, context: &mut RenderContext);

    /// The element ends: the rendered text, if the renderer makes any.
    fn end(&mut self, context: &mut RenderContext) -> Option<String>;
}

} // verus!
