//! The structural events that a rendering consumes, and the parser that
//! supplies them for markdown text.

use pulldown_cmark::{Options, Parser, Tag};
use vstd::prelude::*;
use vstd::string::*;

verus! {

/// The kind of a region that is entered and left.
#[derive(Debug, Clone, Copy, PartialEq, Eq)]
pub enum BlockKind {
    Paragraph,
    /// A heading with its level, 1 for the highest.
    Heading(u32),
    BlockQuote,
    CodeBlock,
    /// A list; for an ordered list, with the number of its first item.
    List(Option<u64>),
    ListItem,
    FootnoteDefinition,
    Table,
    TableHeaderRow,
    TableRow,
    TableCell,
    Emphasis,
    Strong,
    Strikethrough,
    Link,
    Image,
}

/// One element of the flat sequence that describes a document.
#[derive(Debug, PartialEq, Eq)]
pub enum StructuralEvent {
    Enter(BlockKind),
    Exit(BlockKind),
    Text(String),
    InlineCode(String),
    RawMarkup,
    FootnoteReference,
    SoftBreak,
    HardBreak,
    Rule,
    TaskMarker(bool),
}

/// A [`StructuralEvent`] with its texts as sequences of characters.
pub enum EventView {
    Enter(BlockKind),
    Exit(BlockKind),
    Text(Seq<char>),
    InlineCode(Seq<char>),
    RawMarkup,
    FootnoteReference,
    SoftBreak,
    HardBreak,
    Rule,
    TaskMarker(bool),
}

impl View for StructuralEvent {
    type V = EventView;

    open spec fn view(&self) -> EventView {
        match self {
            StructuralEvent::Enter(kind) => EventView::Enter(*kind),
            StructuralEvent::Exit(kind) => EventView::Exit(*kind),
            StructuralEvent::Text(text) => EventView::Text(text@),
            StructuralEvent::InlineCode(code) => EventView::InlineCode(code@),
            StructuralEvent::RawMarkup => EventView::RawMarkup,
            StructuralEvent::FootnoteReference => EventView::FootnoteReference,
            StructuralEvent::SoftBreak => EventView::SoftBreak,
            StructuralEvent::HardBreak => EventView::HardBreak,
            StructuralEvent::Rule => EventView::Rule,
            StructuralEvent::TaskMarker(checked) => EventView::TaskMarker(*checked),
        }
    }
}

impl Clone for StructuralEvent {
    fn clone(&self) -> (copy: Self)
        ensures
            copy@ == self@,
    {
        match self {
            StructuralEvent::Enter(kind) => StructuralEvent::Enter(*kind),
            StructuralEvent::Exit(kind) => StructuralEvent::Exit(*kind),
            StructuralEvent::Text(text) => StructuralEvent::Text(text.clone()),
            StructuralEvent::InlineCode(code) => StructuralEvent::InlineCode(code.clone()),
            StructuralEvent::RawMarkup => StructuralEvent::RawMarkup,
            StructuralEvent::FootnoteReference => StructuralEvent::FootnoteReference,
            StructuralEvent::SoftBreak => StructuralEvent::SoftBreak,
            StructuralEvent::HardBreak => StructuralEvent::HardBreak,
            StructuralEvent::Rule => StructuralEvent::Rule,
            StructuralEvent::TaskMarker(checked) => StructuralEvent::TaskMarker(*checked),
        }
    }
}

/// The views of a sequence of events.
pub open spec fn event_views(events: Seq<StructuralEvent>) -> Seq<EventView> {
    Seq::new(events.len(), |i: int| events[i]@)
}

/// An event of the parser: opaque here.
#[verifier::external_type_specification]
#[verifier::external_body]
pub struct ExParserEvent<'a>(pulldown_cmark::Event<'a>);

/// A tag of the parser: opaque here.
#[verifier::external_type_specification]
#[verifier::external_body]
pub struct ExParserTag<'a>(Tag<'a>);

/// A parser event taken apart, its tag still as the parser made it.
enum ParsedEvent<'a> {
    Start(Tag<'a>),
    End(Tag<'a>),
    Text(String),
    Code(String),
    Html,
    FootnoteReference,
    SoftBreak,
    HardBreak,
    Rule,
    TaskListMarker(bool),
}

/// Tells the variants of `pulldown_cmark::Event` apart: each becomes the
/// variant of the same name, a tag is handed on, text and code are copied
/// into strings of their own, and the text of raw HTML and the label of a
/// footnote reference are dropped.
#[verifier::external_body]
fn take_apart<'a>(event: pulldown_cmark::Event<'a>) -> ParsedEvent<'a> {
    match event {
        pulldown_cmark::Event::Start(tag) => ParsedEvent::Start(tag),
        pulldown_cmark::Event::End(tag) => ParsedEvent::End(tag),
        pulldown_cmark::Event::Text(text) => ParsedEvent::Text(text.into_string()),
        pulldown_cmark::Event::Code(code) => ParsedEvent::Code(code.into_string()),
        pulldown_cmark::Event::Html(_) => ParsedEvent::Html,
        pulldown_cmark::Event::FootnoteReference(_) => ParsedEvent::FootnoteReference,
        pulldown_cmark::Event::SoftBreak => ParsedEvent::SoftBreak,
        pulldown_cmark::Event::HardBreak => ParsedEvent::HardBreak,
        pulldown_cmark::Event::Rule => ParsedEvent::Rule,
        pulldown_cmark::Event::TaskListMarker(checked) => ParsedEvent::TaskListMarker(checked),
    }
}

/// Tells the variants of `pulldown_cmark::Tag` apart: each becomes the kind
/// that stands for it. A heading keeps its level, as the number from 1 to 6
/// that `HeadingLevel` assigns to it, and a list the number of its first
/// item; what else a tag carries is dropped.
#[verifier::external_body]
fn kind_of(tag: Tag<'_>) -> BlockKind {
    match tag {
        Tag::Paragraph => BlockKind::Paragraph,
        Tag::Heading(level, ..) => BlockKind::Heading(level as u32),
        Tag::BlockQuote => BlockKind::BlockQuote,
        Tag::CodeBlock(..) => BlockKind::CodeBlock,
        Tag::List(first) => BlockKind::List(first),
        Tag::Item => BlockKind::ListItem,
        Tag::FootnoteDefinition(..) => BlockKind::FootnoteDefinition,
        Tag::Table(..) => BlockKind::Table,
        Tag::TableHead => BlockKind::TableHeaderRow, Tag::TableRow => BlockKind::TableRow,
        Tag::TableCell => BlockKind::TableCell,
        Tag::Emphasis => BlockKind::Emphasis, Tag::Strong => BlockKind::Strong,
        Tag::Strikethrough => BlockKind::Strikethrough,
        Tag::Link(..) => BlockKind::Link, Tag::Image(..) => BlockKind::Image,
    }
}

/// The event that stands for an event of the parser.
fn model_event<'a>(event: pulldown_cmark::Event<'a>) -> StructuralEvent {
    event_of(take_apart(event))
}

/// The event that stands for a parser event taken apart: the beginning of
/// a tag is a region entered and its end a region left, of the kind that
/// the tag has; text, code and a task marker keep what they carry; every
/// other event is the event of its name. The parser's own events and tags
/// are opaque here, so nothing is said of what is found in them: this is
/// what is made of what was found.
fn event_of<'a>(parsed: ParsedEvent<'a>) -> (modelled: StructuralEvent)
    ensures
        match parsed {
            ParsedEvent::Start(_) => modelled is Enter,
            ParsedEvent::End(_) => modelled is Exit,
            ParsedEvent::Text(text) => modelled@ == EventView::Text(text@),
            ParsedEvent::Code(code) => modelled@ == EventView::InlineCode(code@),
            ParsedEvent::Html => modelled@ == EventView::RawMarkup,
            ParsedEvent::FootnoteReference => modelled@ == EventView::FootnoteReference,
            ParsedEvent::SoftBreak => modelled@ == EventView::SoftBreak,
            ParsedEvent::HardBreak => modelled@ == EventView::HardBreak,
            ParsedEvent::Rule => modelled@ == EventView::Rule,
            ParsedEvent::TaskListMarker(checked) => modelled@ == EventView::TaskMarker(checked),
        },
{
    match parsed {
        ParsedEvent::Start(tag) => StructuralEvent::Enter(kind_of(tag)),
        ParsedEvent::End(tag) => StructuralEvent::Exit(kind_of(tag)),
        ParsedEvent::Text(text) => StructuralEvent::Text(text),
        ParsedEvent::Code(code) => StructuralEvent::InlineCode(code),
        ParsedEvent::Html => StructuralEvent::RawMarkup,
        ParsedEvent::FootnoteReference => StructuralEvent::FootnoteReference,
        ParsedEvent::SoftBreak => StructuralEvent::SoftBreak,
        ParsedEvent::HardBreak => StructuralEvent::HardBreak,
        ParsedEvent::Rule => StructuralEvent::Rule,
        ParsedEvent::TaskListMarker(checked) => StructuralEvent::TaskMarker(checked),
    }
}

/// The events of a markdown text: what the parser of `pulldown_cmark`, with
/// all its options switched on, yields for the text, each event with the
/// kind or the text that it carries.
pub uninterp spec fn markdown_events(text: Seq<char>) -> Seq<EventView>;

/// `Parser::new_ext` of `pulldown_cmark` with `Options::all()`, run to its
/// end. The parser reads nothing but the text, so the events are a function
/// of the text: the contract gives them that function's name and says no
/// more of them.
#[verifier::external_body]
pub(crate) fn parse_markdown(markdown: &str) -> (events: Vec<StructuralEvent>)
    ensures
        event_views(events@) == markdown_events(markdown@),
{
    Parser::new_ext(markdown, Options::all()).map(|event| model_event(event)).collect()
}

} // verus!
