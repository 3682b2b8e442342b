//! The slide model that Markdown parsing produces and the package writer reads.
//!
//! Every exec type has a view in the `...View` types, over `Seq<char>` text, in
//! which the contracts of the parser are written.
use vstd::prelude::*;

use std::path::PathBuf;

verus! {

/// Text runs inside a paragraph, heading, list item, quote or table cell.
#[derive(Debug, Clone, PartialEq)]
pub enum Inline {
    Text(String),
    Bold(String),
    Italic(String),
    Code(String),
    Math(String),
}

pub enum InlineView {
    Text(Seq<char>),
    Bold(Seq<char>),
    Italic(Seq<char>),
    Code(Seq<char>),
    Math(Seq<char>),
}

impl View for Inline {
    type V = InlineView;

    open spec fn view(&self) -> InlineView {
        match self {
            Inline::Text(s) => InlineView::Text(s@),
            Inline::Bold(s) => InlineView::Bold(s@),
            Inline::Italic(s) => InlineView::Italic(s@),
            Inline::Code(s) => InlineView::Code(s@),
            Inline::Math(s) => InlineView::Math(s@),
        }
    }
}

pub open spec fn inlines_view(v: Seq<Inline>) -> Seq<InlineView> {
    v.map_values(|i: Inline| i@)
}

#[derive(Debug, Clone, Copy, PartialEq, Eq)]
pub enum TableAlignment {
    Default,
    Left,
    Center,
    Right,
}

#[derive(Debug, PartialEq)]
pub struct ListBlock {
    pub ordered: bool,
    pub items: Vec<ListItem>,
}

#[derive(Debug, PartialEq)]
pub struct ListItem {
    pub inlines: Vec<Inline>,
    pub children: Vec<ListBlock>,
}

pub struct ListBlockView {
    pub ordered: bool,
    pub items: Seq<ListItemView>,
}

pub struct ListItemView {
    pub inlines: Seq<InlineView>,
    pub children: Seq<ListBlockView>,
}

pub open spec fn list_view(l: ListBlock) -> ListBlockView
    decreases l,
{
    ListBlockView { ordered: l.ordered, items: items_view(l.items@) }
}

pub open spec fn items_view(items: Seq<ListItem>) -> Seq<ListItemView>
    decreases items,
{
    if items.len() == 0 {
        seq![]
    } else {
        items_view(items.drop_last()).push(item_view(items.last()))
    }
}

pub open spec fn item_view(it: ListItem) -> ListItemView
    decreases it,
{
    ListItemView { inlines: inlines_view(it.inlines@), children: lists_view(it.children@) }
}

pub open spec fn lists_view(lists: Seq<ListBlock>) -> Seq<ListBlockView>
    decreases lists,
{
    if lists.len() == 0 {
        seq![]
    } else {
        lists_view(lists.drop_last()).push(list_view(lists.last()))
    }
}

#[derive(Debug, Clone, PartialEq)]
pub struct TableRow {
    pub cells: Vec<Vec<Inline>>,
    pub is_header: bool,
}

pub struct TableRowView {
    pub cells: Seq<Seq<InlineView>>,
    pub is_header: bool,
}

pub open spec fn cells_view(cells: Seq<Vec<Inline>>) -> Seq<Seq<InlineView>> {
    cells.map_values(|c: Vec<Inline>| inlines_view(c@))
}

pub open spec fn row_view(r: TableRow) -> TableRowView {
    TableRowView { cells: cells_view(r.cells@), is_header: r.is_header }
}

pub open spec fn rows_view(rows: Seq<TableRow>) -> Seq<TableRowView> {
    rows.map_values(|r: TableRow| row_view(r))
}

/// A block of slide content, in reading order.
#[derive(Debug, PartialEq)]
pub enum Block {
    Paragraph(Vec<Inline>),
    Heading { level: u8, inlines: Vec<Inline> },
    List(ListBlock),
    CodeBlock { language: Option<String>, code: String },
    Mermaid { source: String },
    MathBlock(String),
    Table { alignments: Vec<TableAlignment>, rows: Vec<TableRow> },
    Columns(ColumnsBlock),
    Quote(Vec<Inline>),
    Image { path: PathBuf, alt: String },
}

#[derive(Debug, PartialEq)]
pub struct ColumnsBlock {
    pub columns: Vec<ColumnBlock>,
}

#[derive(Debug, PartialEq)]
pub struct ColumnBlock {
    pub blocks: Vec<Block>,
}

/// The view of a block. An image is seen by the path of its file and its
/// alternative text.
pub enum BlockView {
    Paragraph(Seq<InlineView>),
    Heading { level: u8, inlines: Seq<InlineView> },
    List(ListBlockView),
    CodeBlock { language: Option<Seq<char>>, code: Seq<char> },
    Mermaid { source: Seq<char> },
    MathBlock(Seq<char>),
    Table { alignments: Seq<TableAlignment>, rows: Seq<TableRowView> },
    Columns(Seq<Seq<BlockView>>),
    Quote(Seq<InlineView>),
    Image { path: PathBuf, alt: Seq<char> },
}

pub open spec fn opt_text_view(o: Option<String>) -> Option<Seq<char>> {
    match o {
        Some(s) => Some(s@),
        None => None,
    }
}

pub open spec fn block_view(b: Block) -> BlockView
    decreases b,
{
    match b {
        Block::Paragraph(v) => BlockView::Paragraph(inlines_view(v@)),
        Block::Heading { level, inlines } => BlockView::Heading {
            level,
            inlines: inlines_view(inlines@),
        },
        Block::List(l) => BlockView::List(list_view(l)),
        Block::CodeBlock { language, code } => BlockView::CodeBlock {
            language: opt_text_view(language),
            code: code@,
        },
        Block::Mermaid { source } => BlockView::Mermaid { source: source@ },
        Block::MathBlock(s) => BlockView::MathBlock(s@),
        Block::Table { alignments, rows } => BlockView::Table {
            alignments: alignments@,
            rows: rows_view(rows@),
        },
        Block::Columns(c) => BlockView::Columns(columns_view(c.columns@)),
        Block::Quote(v) => BlockView::Quote(inlines_view(v@)),
        Block::Image { path, alt } => BlockView::Image { path, alt: alt@ },
    }
}

pub open spec fn blocks_view(bs: Seq<Block>) -> Seq<BlockView>
    decreases bs,
{
    if bs.len() == 0 {
        seq![]
    } else {
        blocks_view(bs.drop_last()).push(block_view(bs.last()))
    }
}

pub open spec fn columns_view(cs: Seq<ColumnBlock>) -> Seq<Seq<BlockView>>
    decreases cs,
{
    if cs.len() == 0 {
        seq![]
    } else {
        columns_view(cs.drop_last()).push(blocks_view(cs.last().blocks@))
    }
}

/// One slide: its optional title and its content blocks.
#[derive(Debug, PartialEq)]
pub struct Slide {
    pub title: Option<Vec<Inline>>,
    pub blocks: Vec<Block>,
}

pub struct SlideView {
    pub title: Option<Seq<InlineView>>,
    pub blocks: Seq<BlockView>,
}

pub open spec fn opt_inlines_view(t: Option<Vec<Inline>>) -> Option<Seq<InlineView>> {
    match t {
        Some(v) => Some(inlines_view(v@)),
        None => None,
    }
}

pub open spec fn slide_view(s: Slide) -> SlideView {
    SlideView { title: opt_inlines_view(s.title), blocks: blocks_view(s.blocks@) }
}

pub open spec fn slides_view(s: Seq<Slide>) -> Seq<SlideView> {
    s.map_values(|x: Slide| slide_view(x))
}

/// A parsed slide deck.
#[derive(Debug, PartialEq)]
pub struct Presentation {
    pub slides: Vec<Slide>,
}

/// The text of an inline run, whatever its style.
pub open spec fn inline_text(i: InlineView) -> Seq<char> {
    match i {
        InlineView::Text(s) => s,
        InlineView::Bold(s) => s,
        InlineView::Italic(s) => s,
        InlineView::Code(s) => s,
        InlineView::Math(s) => s,
    }
}

/// The texts of the runs, concatenated.
pub open spec fn plain_text_of(v: Seq<InlineView>) -> Seq<char>
    decreases v.len(),
{
    if v.len() == 0 {
        seq![]
    } else {
        plain_text_of(v.drop_last()) + inline_text(v.last())
    }
}

/// The plain text of two runs of inlines, one after the other, is the plain
/// text of the first followed by that of the second.
pub proof fn law_plain_text_of_concat(a: Seq<InlineView>, b: Seq<InlineView>)
    ensures
        plain_text_of(a + b) == plain_text_of(a) + plain_text_of(b),
    decreases b.len(),
{
    if b.len() == 0 {
        assert(a + b =~= a);
    } else {
        law_plain_text_of_concat(a, b.drop_last());
        assert((a + b).drop_last() =~= a + b.drop_last());
    }
}

pub proof fn lemma_blocks_view_push(bs: Seq<Block>, b: Block)
    ensures
        blocks_view(bs.push(b)) == blocks_view(bs).push(block_view(b)),
{
    assert(bs.push(b).drop_last() =~= bs);
}

pub proof fn lemma_items_view_push(items: Seq<ListItem>, it: ListItem)
    ensures
        items_view(items.push(it)) == items_view(items).push(item_view(it)),
{
    assert(items.push(it).drop_last() =~= items);
}

pub proof fn lemma_lists_view_push(lists: Seq<ListBlock>, l: ListBlock)
    ensures
        lists_view(lists.push(l)) == lists_view(lists).push(list_view(l)),
{
    assert(lists.push(l).drop_last() =~= lists);
}

pub proof fn lemma_columns_view_len(cs: Seq<ColumnBlock>)
    ensures
        columns_view(cs).len() == cs.len(),
    decreases cs.len(),
{
    if cs.len() > 0 {
        lemma_columns_view_len(cs.drop_last());
    }
}

pub proof fn lemma_columns_view_push(cs: Seq<ColumnBlock>, c: ColumnBlock)
    ensures
        columns_view(cs.push(c)) == columns_view(cs).push(blocks_view(c.blocks@)),
{
    assert(cs.push(c).drop_last() =~= cs);
}

impl Inline {
    /// The text of the runs, concatenated, without styling.
    pub fn plain_text(inlines: &[Inline]) -> (text: String)
        ensures
            text@ == plain_text_of(inlines_view(inlines@)),
    {
        let mut text = String::new();
        let mut i: usize = 0;
        while i < inlines.len()
            invariant
                i <= inlines@.len(),
                text@ == plain_text_of(inlines_view(inlines@).take(i as int)),
            decreases inlines.len() - i,
        {
            let value = match &inlines[i] {
                Inline::Text(value) => value,
                Inline::Bold(value) => value,
                Inline::Italic(value) => value,
                Inline::Code(value) => value,
                Inline::Math(value) => value,
            };
            text.append(value.as_str());
            assert(inlines_view(inlines@).take(i + 1).drop_last() =~= inlines_view(inlines@).take(
                i as int,
            ));
            i = i + 1;
        }
        assert(inlines_view(inlines@).take(i as int) =~= inlines_view(inlines@));
        text
    }
}

} // verus!
