//! The markdown event stream the extractor walks: pulldown-cmark's
//! parse, carried as plain values. The events and elements the extractor
//! reads have variants of their own; any other is carried as
//! pulldown-cmark's `Debug` rendering of it.

use vstd::prelude::*;
use pulldown_cmark::{CodeBlockKind, Event, HeadingLevel, Options, Parser, Tag, TagEnd};

verus! {

#[verifier::external_type_specification]
#[verifier::external_body]
pub struct ExEvent<'a>(Event<'a>);

#[verifier::external_type_specification]
#[verifier::external_body]
pub struct ExTag<'a>(Tag<'a>);

#[verifier::external_type_specification]
#[verifier::external_body]
pub struct ExTagEnd(TagEnd);

#[verifier::external_type_specification]
#[verifier::external_body]
pub struct ExHeadingLevel(HeadingLevel);

/// The opening of an element. The kinds the extractor reads are
/// variants of their own; any other is carried as pulldown-cmark's
/// `Debug` rendering of its tag.
#[derive(Debug, Clone, PartialEq, Eq)]
pub enum MdTag {
    /// A heading, with its level (1 to 6).
    Heading(u8),
    BlockQuote,
    /// A code block, with its info string when it is fenced.
    CodeBlock(Option<String>),
    Strong,
    /// A link, with its destination.
    Link(String),
    Other(String),
}

/// The closing of an element, in the same way.
#[derive(Debug, Clone, PartialEq, Eq)]
pub enum MdTagEnd {
    Heading,
    BlockQuote,
    /// Closes a code block of either kind, fenced or indented.
    CodeBlock,
    Strong,
    Other(String),
}

/// One markdown event, in the same way.
#[derive(Debug, Clone, PartialEq, Eq)]
pub enum MdEvent {
    Start(MdTag),
    End(MdTagEnd),
    Text(String),
    /// An inline code span's content.
    Code(String),
    /// Block HTML.
    Html(String),
    /// Inline HTML.
    InlineHtml(String),
    SoftBreak,
    HardBreak,
    Other(String),
}

/// An event with the byte range of source it spans. A container's
/// `Start` and `End` both carry the container's full range.
#[derive(Debug, Clone, PartialEq, Eq)]
pub struct Spanned {
    pub event: MdEvent,
    pub start: usize,
    pub end: usize,
}

/// pulldown-cmark's event stream for a document (no extensions enabled),
/// with byte offsets: a function of the source text alone.
pub uninterp spec fn markdown_events(source: Seq<char>) -> Seq<Spanned>;

/// Parses `source` with `pulldown_cmark::Parser::new_ext(source,
/// Options::empty()).into_offset_iter()` and converts each event. What
/// the events are is named `markdown_events`; nothing more is claimed of
/// them here.
#[verifier::external_body]
pub(crate) fn parse_markdown(source: &str) -> (r: Vec<Spanned>)
    ensures
        r@ == markdown_events(source@),
{
    Parser::new_ext(source, Options::empty())
        .into_offset_iter()
        .map(|(e, range)| Spanned { event: event_of(e), start: range.start, end: range.end })
        .collect()
}

/// Converts one `pulldown_cmark::Event`.
#[verifier::external_body]
fn event_of(e: Event) -> MdEvent {
    match e {
        Event::Start(tag) => MdEvent::Start(tag_of(tag)),
        Event::End(tag) => MdEvent::End(tag_end_of(tag)),
        Event::Text(t) => MdEvent::Text(t.into_string()),
        Event::Code(t) => MdEvent::Code(t.into_string()),
        Event::Html(t) => MdEvent::Html(t.into_string()),
        Event::InlineHtml(t) => MdEvent::InlineHtml(t.into_string()),
        Event::SoftBreak => MdEvent::SoftBreak,
        Event::HardBreak => MdEvent::HardBreak,
        other => MdEvent::Other(format!("{other:?}")),
    }
}

/// Converts one `pulldown_cmark::Tag`.
#[verifier::external_body]
fn tag_of(tag: Tag) -> MdTag {
    match tag {
        Tag::Heading { level, .. } => MdTag::Heading(level_of(level)),
        Tag::BlockQuote(_) => MdTag::BlockQuote,
        Tag::CodeBlock(CodeBlockKind::Fenced(info)) => MdTag::CodeBlock(Some(info.into_string())),
        Tag::CodeBlock(CodeBlockKind::Indented) => MdTag::CodeBlock(None),
        Tag::Strong => MdTag::Strong,
        Tag::Link { dest_url, .. } => MdTag::Link(dest_url.into_string()),
        other => MdTag::Other(format!("{other:?}")),
    }
}

/// Converts one `pulldown_cmark::TagEnd`.
#[verifier::external_body]
fn tag_end_of(tag: TagEnd) -> MdTagEnd {
    match tag {
        TagEnd::Heading(_) => MdTagEnd::Heading,
        TagEnd::BlockQuote(_) => MdTagEnd::BlockQuote,
        TagEnd::CodeBlock => MdTagEnd::CodeBlock,
        TagEnd::Strong => MdTagEnd::Strong,
        other => MdTagEnd::Other(format!("{other:?}")),
    }
}

/// Converts a `pulldown_cmark::HeadingLevel` to its number.
#[verifier::external_body]
fn level_of(level: HeadingLevel) -> u8 {
    match level {
        HeadingLevel::H1 => 1,
        HeadingLevel::H2 => 2,
        HeadingLevel::H3 => 3,
        HeadingLevel::H4 => 4,
        HeadingLevel::H5 => 5,
        HeadingLevel::H6 => 6,
    }
}

} // verus!
