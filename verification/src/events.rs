//! The Markdown event stream that `pulldown_cmark` produces, as plain values.
//!
//! `pulldown_cmark` parses CommonMark (with tables and strikethrough) into a
//! sequence of start/end/text events. The library reads only a few kinds of
//! event; every other kind is seen as `Other`.
use vstd::prelude::*;

use pulldown_cmark::{Alignment, CodeBlockKind, Event, Options, Parser, Tag, TagEnd};

use crate::model::TableAlignment;
use crate::text::string_from_chars;

verus! {

/// The end of a tagged element, as far as the library tells ends apart.
#[derive(Debug, Clone, Copy, PartialEq, Eq, Structural)]
pub enum MdTagEnd {
    Paragraph,
    Heading(u8),
    BlockQuote,
    CodeBlock,
    List(bool),
    Item,
    Table,
    TableHead,
    TableRow,
    TableCell,
    Emphasis,
    Strong,
    Image,
    Other,
}

/// The start of a tagged element, with the data the library reads from it.
#[derive(Debug, Clone, PartialEq)]
pub enum MdTag {
    Paragraph,
    /// A heading of the given level (1 to 6).
    Heading(u8),
    BlockQuote,
    /// A code block: its info string when fenced, `None` when indented.
    CodeBlock(Option<String>),
    /// A list: the number of its first item when ordered.
    List(Option<u64>),
    Item,
    Table(Vec<TableAlignment>),
    TableHead,
    TableRow,
    TableCell,
    Emphasis,
    Strong,
    Image { dest_url: String, title: String },
    Other,
}

/// One Markdown event.
#[derive(Debug, Clone, PartialEq)]
pub enum MdEvent {
    Start(MdTag),
    End(MdTagEnd),
    Text(String),
    Code(String),
    SoftBreak,
    HardBreak,
    Other,
}

pub enum TagView {
    Paragraph,
    Heading(u8),
    BlockQuote,
    CodeBlock(Option<Seq<char>>),
    List(Option<u64>),
    Item,
    Table(Seq<TableAlignment>),
    TableHead,
    TableRow,
    TableCell,
    Emphasis,
    Strong,
    Image { dest_url: Seq<char>, title: Seq<char> },
    Other,
}

pub enum EventView {
    Start(TagView),
    End(MdTagEnd),
    Text(Seq<char>),
    Code(Seq<char>),
    SoftBreak,
    HardBreak,
    Other,
}

impl View for MdTag {
    type V = TagView;

    open spec fn view(&self) -> TagView {
        match self {
            MdTag::Paragraph => TagView::Paragraph,
            MdTag::Heading(l) => TagView::Heading(*l),
            MdTag::BlockQuote => TagView::BlockQuote,
            MdTag::CodeBlock(info) => TagView::CodeBlock(
                match info {
                    Some(s) => Some(s@),
                    None => None,
                },
            ),
            MdTag::List(start) => TagView::List(*start),
            MdTag::Item => TagView::Item,
            MdTag::Table(a) => TagView::Table(a@),
            MdTag::TableHead => TagView::TableHead,
            MdTag::TableRow => TagView::TableRow,
            MdTag::TableCell => TagView::TableCell,
            MdTag::Emphasis => TagView::Emphasis,
            MdTag::Strong => TagView::Strong,
            MdTag::Image { dest_url, title } => TagView::Image {
                dest_url: dest_url@,
                title: title@,
            },
            MdTag::Other => TagView::Other,
        }
    }
}

impl View for MdEvent {
    type V = EventView;

    open spec fn view(&self) -> EventView {
        match self {
            MdEvent::Start(t) => EventView::Start(t@),
            MdEvent::End(e) => EventView::End(*e),
            MdEvent::Text(s) => EventView::Text(s@),
            MdEvent::Code(s) => EventView::Code(s@),
            MdEvent::SoftBreak => EventView::SoftBreak,
            MdEvent::HardBreak => EventView::HardBreak,
            MdEvent::Other => EventView::Other,
        }
    }
}

pub open spec fn events_view(v: Seq<MdEvent>) -> Seq<EventView> {
    v.map_values(|e: MdEvent| e@)
}

/// The events that `pulldown_cmark` produces for `source` with tables and
/// strikethrough enabled, each seen as a plain value.
pub uninterp spec fn markdown_events(source: Seq<char>) -> Seq<EventView>;

/// The events that a parsed stream holds.
pub uninterp spec fn stream_events(stream: EventStream) -> Seq<EventView>;

/// Which variant an event is.
pub enum EventKind {
    Start,
    End,
    Text,
    Code,
    SoftBreak,
    HardBreak,
    Other,
}

pub open spec fn event_kind(e: EventView) -> EventKind {
    match e {
        EventView::Start(_) => EventKind::Start,
        EventView::End(_) => EventKind::End,
        EventView::Text(_) => EventKind::Text,
        EventView::Code(_) => EventKind::Code,
        EventView::SoftBreak => EventKind::SoftBreak,
        EventView::HardBreak => EventKind::HardBreak,
        EventView::Other => EventKind::Other,
    }
}

/// Which tag a start event opens, without its data.
pub enum TagKind {
    Paragraph,
    Heading,
    BlockQuote,
    CodeBlock,
    List,
    Item,
    Table,
    TableHead,
    TableRow,
    TableCell,
    Emphasis,
    Strong,
    Image,
    Other,
}

pub open spec fn tag_kind(t: TagView) -> TagKind {
    match t {
        TagView::Paragraph => TagKind::Paragraph,
        TagView::Heading(_) => TagKind::Heading,
        TagView::BlockQuote => TagKind::BlockQuote,
        TagView::CodeBlock(_) => TagKind::CodeBlock,
        TagView::List(_) => TagKind::List,
        TagView::Item => TagKind::Item,
        TagView::Table(_) => TagKind::Table,
        TagView::TableHead => TagKind::TableHead,
        TagView::TableRow => TagKind::TableRow,
        TagView::TableCell => TagKind::TableCell,
        TagView::Emphasis => TagKind::Emphasis,
        TagView::Strong => TagKind::Strong,
        TagView::Image { .. } => TagKind::Image,
        TagView::Other => TagKind::Other,
    }
}

/// The events of one Markdown text, as `pulldown_cmark` produced them.
#[verifier::external_body]
pub struct EventStream<'a> {
    events: Vec<Event<'a>>,
}

impl<'a> EventStream<'a> {
    /// Runs `pulldown_cmark::Parser::new_ext` over `source` with tables and
    /// strikethrough enabled and keeps the events. Claimed: the stream holds
    /// `markdown_events(source)`, the parser's result for that text.
    #[verifier::external_body]
    fn parse(source: &'a str) -> (s: EventStream<'a>)
        ensures
            stream_events(s) == markdown_events(source@),
    {
        let options = Options::ENABLE_STRIKETHROUGH | Options::ENABLE_TABLES;
        EventStream { events: Parser::new_ext(source, options).collect() }
    }

    /// Number of events. Claimed: the length of the held event sequence.
    #[verifier::external_body]
    fn len(&self) -> (n: usize)
        ensures
            n == stream_events(*self).len(),
    {
        self.events.len()
    }

    /// Which variant event `i` is. Claimed: one `pulldown_cmark::Event`
    /// variant per kind; variants the library does not read are `Other`.
    #[verifier::external_body]
    fn kind(&self, i: usize) -> (k: EventKind)
        requires
            i < stream_events(*self).len(),
        ensures
            k == event_kind(stream_events(*self)[i as int]),
    {
        match &self.events[i] {
            Event::Start(_) => EventKind::Start,
            Event::End(_) => EventKind::End,
            Event::Text(_) => EventKind::Text,
            Event::Code(_) => EventKind::Code,
            Event::SoftBreak => EventKind::SoftBreak,
            Event::HardBreak => EventKind::HardBreak,
            _ => EventKind::Other,
        }
    }

    /// Which tag start event `i` opens. Claimed: one `pulldown_cmark::Tag`
    /// variant per kind; tags the library does not read are `Other`.
    #[verifier::external_body]
    fn start_tag(&self, i: usize) -> (k: TagKind)
        requires
            i < stream_events(*self).len(),
            stream_events(*self)[i as int] is Start,
        ensures
            k == tag_kind(stream_events(*self)[i as int]->Start_0),
    {
        let Event::Start(tag) = &self.events[i] else { return TagKind::Other };
        match tag {
            Tag::Paragraph => TagKind::Paragraph, Tag::Heading { .. } => TagKind::Heading,
            Tag::BlockQuote => TagKind::BlockQuote, Tag::CodeBlock(_) => TagKind::CodeBlock,
            Tag::List(_) => TagKind::List, Tag::Item => TagKind::Item,
            Tag::Table(_) => TagKind::Table, Tag::TableHead => TagKind::TableHead,
            Tag::TableRow => TagKind::TableRow, Tag::TableCell => TagKind::TableCell,
            Tag::Emphasis => TagKind::Emphasis, Tag::Strong => TagKind::Strong,
            Tag::Image { .. } => TagKind::Image, _ => TagKind::Other,
        }
    }

    /// The tag that end event `i` closes. Claimed: one `pulldown_cmark::TagEnd`
    /// variant per value, the heading level as its number; ends the library
    /// does not read are `Other`.
    #[verifier::external_body]
    fn end_tag(&self, i: usize) -> (e: MdTagEnd)
        requires
            i < stream_events(*self).len(),
            stream_events(*self)[i as int] is End,
        ensures
            stream_events(*self)[i as int] == EventView::End(e),
    {
        let Event::End(end) = &self.events[i] else { return MdTagEnd::Other };
        match end {
            TagEnd::Paragraph => MdTagEnd::Paragraph, TagEnd::Heading(l) => MdTagEnd::Heading(*l as u8),
            TagEnd::BlockQuote => MdTagEnd::BlockQuote, TagEnd::CodeBlock => MdTagEnd::CodeBlock,
            TagEnd::List(ordered) => MdTagEnd::List(*ordered), TagEnd::Item => MdTagEnd::Item,
            TagEnd::Table => MdTagEnd::Table, TagEnd::TableHead => MdTagEnd::TableHead,
            TagEnd::TableRow => MdTagEnd::TableRow, TagEnd::TableCell => MdTagEnd::TableCell,
            TagEnd::Emphasis => MdTagEnd::Emphasis, TagEnd::Strong => MdTagEnd::Strong,
            TagEnd::Image => MdTagEnd::Image, _ => MdTagEnd::Other,
        }
    }

    /// The text of text or inline-code event `i`. Claimed: the event's string.
    #[verifier::external_body]
    fn text(&self, i: usize) -> (t: String)
        requires
            i < stream_events(*self).len(),
            stream_events(*self)[i as int] is Text || stream_events(*self)[i as int] is Code,
        ensures
            stream_events(*self)[i as int] == EventView::Text(t@) || stream_events(
                *self,
            )[i as int] == EventView::Code(t@),
    {
        match &self.events[i] {
            Event::Text(t) | Event::Code(t) => t.to_string(),
            _ => String::new(),
        }
    }

    /// The level of heading start event `i`. Claimed: `HeadingLevel` as its number.
    #[verifier::external_body]
    fn heading_level(&self, i: usize) -> (l: u8)
        requires
            i < stream_events(*self).len(),
            stream_events(*self)[i as int] matches EventView::Start(TagView::Heading(_)),
        ensures
            stream_events(*self)[i as int] == EventView::Start(TagView::Heading(l)),
    {
        match &self.events[i] {
            Event::Start(Tag::Heading { level, .. }) => *level as u8,
            _ => 0,
        }
    }

    /// The first number of list start event `i`. Claimed: `Tag::List`'s field.
    #[verifier::external_body]
    fn list_start(&self, i: usize) -> (n: Option<u64>)
        requires
            i < stream_events(*self).len(),
            stream_events(*self)[i as int] matches EventView::Start(TagView::List(_)),
        ensures
            stream_events(*self)[i as int] == EventView::Start(TagView::List(n)),
    {
        match &self.events[i] {
            Event::Start(Tag::List(start)) => *start,
            _ => None,
        }
    }

    /// The info string of code block start event `i`. Claimed: the string of a
    /// fenced block, `None` for an indented one.
    #[verifier::external_body]
    fn code_info(&self, i: usize) -> (info: Option<String>)
        requires
            i < stream_events(*self).len(),
            stream_events(*self)[i as int] matches EventView::Start(TagView::CodeBlock(_)),
        ensures
            stream_events(*self)[i as int] == EventView::Start(
                TagView::CodeBlock(
                    match info {
                        Some(s) => Some(s@),
                        None => None,
                    },
                ),
            ),
    {
        match &self.events[i] {
            Event::Start(Tag::CodeBlock(CodeBlockKind::Fenced(info))) => Some(info.to_string()),
            _ => None,
        }
    }

    /// The number of columns of table start event `i`. Claimed: the length of
    /// `Tag::Table`'s alignment list.
    #[verifier::external_body]
    fn table_columns(&self, i: usize) -> (n: usize)
        requires
            i < stream_events(*self).len(),
            stream_events(*self)[i as int] matches EventView::Start(TagView::Table(_)),
        ensures
            n == stream_events(*self)[i as int]->Start_0->Table_0.len(),
    {
        match &self.events[i] {
            Event::Start(Tag::Table(alignments)) => alignments.len(),
            _ => 0,
        }
    }

    /// The alignment of column `j` of table start event `i`. Claimed: one
    /// `Alignment` variant per `TableAlignment` variant, `None` as `Default`.
    #[verifier::external_body]
    fn table_alignment(&self, i: usize, j: usize) -> (a: TableAlignment)
        requires
            i < stream_events(*self).len(),
            stream_events(*self)[i as int] matches EventView::Start(TagView::Table(al)) && j
                < al.len(),
        ensures
            a == stream_events(*self)[i as int]->Start_0->Table_0[j as int],
    {
        match &self.events[i] {
            Event::Start(Tag::Table(alignments)) => match alignments[j] {
                Alignment::None => TableAlignment::Default,
                Alignment::Left => TableAlignment::Left,
                Alignment::Center => TableAlignment::Center,
                Alignment::Right => TableAlignment::Right,
            },
            _ => TableAlignment::Default,
        }
    }

    /// The destination of image start event `i`. Claimed: `Tag::Image`'s `dest_url`.
    #[verifier::external_body]
    fn image_dest(&self, i: usize) -> (d: String)
        requires
            i < stream_events(*self).len(),
            stream_events(*self)[i as int] matches EventView::Start(TagView::Image { .. }),
        ensures
            d@ == stream_events(*self)[i as int]->Start_0->dest_url,
    {
        match &self.events[i] {
            Event::Start(Tag::Image { dest_url, .. }) => dest_url.to_string(),
            _ => String::new(),
        }
    }

    /// The title of image start event `i`. Claimed: `Tag::Image`'s `title`.
    #[verifier::external_body]
    fn image_title(&self, i: usize) -> (t: String)
        requires
            i < stream_events(*self).len(),
            stream_events(*self)[i as int] matches EventView::Start(TagView::Image { .. }),
        ensures
            t@ == stream_events(*self)[i as int]->Start_0->title,
    {
        match &self.events[i] {
            Event::Start(Tag::Image { title, .. }) => title.to_string(),
            _ => String::new(),
        }
    }
}

/// The event at `i` of the stream, as a plain value.
fn event_at(stream: &EventStream, i: usize) -> (e: MdEvent)
    requires
        i < stream_events(*stream).len(),
    ensures
        e@ == stream_events(*stream)[i as int],
{
    match stream.kind(i) {
        EventKind::Start => MdEvent::Start(tag_at(stream, i)),
        EventKind::End => MdEvent::End(stream.end_tag(i)),
        EventKind::Text => MdEvent::Text(stream.text(i)),
        EventKind::Code => MdEvent::Code(stream.text(i)),
        EventKind::SoftBreak => MdEvent::SoftBreak,
        EventKind::HardBreak => MdEvent::HardBreak,
        EventKind::Other => MdEvent::Other,
    }
}

/// The tag that start event `i` opens, with its data.
fn tag_at(stream: &EventStream, i: usize) -> (t: MdTag)
    requires
        i < stream_events(*stream).len(),
        stream_events(*stream)[i as int] is Start,
    ensures
        EventView::Start(t@) == stream_events(*stream)[i as int],
{
    match stream.start_tag(i) {
        TagKind::Paragraph => MdTag::Paragraph,
        TagKind::Heading => MdTag::Heading(stream.heading_level(i)),
        TagKind::BlockQuote => MdTag::BlockQuote,
        TagKind::CodeBlock => MdTag::CodeBlock(stream.code_info(i)),
        TagKind::List => MdTag::List(stream.list_start(i)),
        TagKind::Item => MdTag::Item,
        TagKind::Table => {
            let n = stream.table_columns(i);
            let mut alignments: Vec<TableAlignment> = Vec::new();
            let mut j: usize = 0;
            while j < n
                invariant
                    i < stream_events(*stream).len(),
                    stream_events(*stream)[i as int] matches EventView::Start(TagView::Table(al))
                        && n == al.len() && alignments@ == al.take(j as int),
                    j <= n,
                decreases n - j,
            {
                alignments.push(stream.table_alignment(i, j));
                j = j + 1;
                proof {
                    let al = stream_events(*stream)[i as int]->Start_0->Table_0;
                    assert(alignments@ =~= al.take(j as int));
                }
            }
            proof {
                let al = stream_events(*stream)[i as int]->Start_0->Table_0;
                assert(alignments@ =~= al);
            }
            MdTag::Table(alignments)
        },
        TagKind::TableHead => MdTag::TableHead,
        TagKind::TableRow => MdTag::TableRow,
        TagKind::TableCell => MdTag::TableCell,
        TagKind::Emphasis => MdTag::Emphasis,
        TagKind::Strong => MdTag::Strong,
        TagKind::Image => MdTag::Image { dest_url: stream.image_dest(i), title: stream.image_title(i) },
        TagKind::Other => MdTag::Other,
    }
}

/// The events of a stream, in order, as plain values.
fn stream_event_list(stream: &EventStream) -> (res: Vec<MdEvent>)
    ensures
        events_view(res@) == stream_events(*stream),
{
    let n = stream.len();
    let mut res: Vec<MdEvent> = Vec::new();
    let mut i: usize = 0;
    while i < n
        invariant
            n == stream_events(*stream).len(),
            i <= n,
            events_view(res@) == stream_events(*stream).take(i as int),
        decreases n - i,
    {
        let e = event_at(stream, i);
        let ghost before = res@;
        res.push(e);
        assert(events_view(res@) =~= events_view(before).push(e@));
        i = i + 1;
        assert(events_view(res@) =~= stream_events(*stream).take(i as int));
    }
    assert(stream_events(*stream).take(n as int) =~= stream_events(*stream));
    res
}

/// The Markdown events of `source`, as `pulldown_cmark` produces them with
/// tables and strikethrough enabled.
pub fn markdown_event_list(source: &str) -> (res: Vec<MdEvent>)
    ensures
        events_view(res@) == markdown_events(source@),
{
    let stream = EventStream::parse(source);
    stream_event_list(&stream)
}

} // verus!
