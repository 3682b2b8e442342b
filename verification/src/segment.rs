//! Slide blocks from the Markdown events of one segment of a slide.
//!
//! The spec functions here read an event sequence from a position and say what
//! the reader collects and where it stops. Positions only move forward: where
//! a nested reader hands back its stopping point `q`, reading continues at
//! `after(q, p, ev.len() as int)`, which is `q` because nested readers start past `p`.
use vstd::prelude::*;
use vstd::string::*;

use std::path::{Path, PathBuf};

use crate::error::{Error, ErrorView};
use crate::events::{events_view, EventView, MdEvent, MdTag, MdTagEnd, TagView};
use crate::inline_math::{push_text_math, push_text_with_inline_math};
use crate::model::{
    block_view, blocks_view, cells_view, inline_text, inlines_view, item_view, items_view,
    lemma_blocks_view_push, lemma_items_view_push, lemma_lists_view_push, opt_inlines_view, list_view, lists_view, row_view, rows_view,
    Block, BlockView, Inline, InlineView, ListBlock, ListBlockView, ListItem, ListItemView,
    TableAlignment, TableRow, TableRowView,
};
use crate::paths::{join_path, joined_path};
use crate::style::MathRenderer;
use crate::text::{chars_eq_ignore_ascii_case, chars_of, eq_ignore_ascii_case, is_blank, trim};

verus! {

/// The position where reading continues once a reader that started past `p`
/// stopped at `q`, in a sequence of `n` events.
pub open spec fn after(q: int, p: int, n: int) -> int {
    if p < q <= n {
        q
    } else {
        p + 1
    }
}

/// The position just past the first end of `until` at or after `p`, or the end.
pub open spec fn skipped_to(ev: Seq<EventView>, p: int, until: MdTagEnd) -> int
    decreases ev.len() - p,
{
    if p < 0 || p >= ev.len() {
        p
    } else if ev[p] == EventView::End(until) {
        p + 1
    } else {
        skipped_to(ev, p + 1, until)
    }
}

/// The runs, the images (destination and title) and the stopping point of an
/// inline reader that
/// stops after the end of `until`: strong and emphasis toggle the style of
/// text that follows, text is split for inline math, code is kept, a line
/// break is a newline run and an image is noted and skipped to its end.
pub open spec fn inlines_from(
    ev: Seq<EventView>,
    p: int,
    until: MdTagEnd,
    r: MathRenderer,
    acc: Seq<InlineView>,
    images: Seq<(Seq<char>, Seq<char>)>,
    bold: bool,
    italic: bool,
) -> Result<(Seq<InlineView>, Seq<(Seq<char>, Seq<char>)>, int), ErrorView>
    decreases ev.len() - p,
{
    if p < 0 || p >= ev.len() {
        Ok((acc, images, p))
    } else {
        match ev[p] {
            EventView::End(e) => {
                if e == until {
                    Ok((acc, images, p + 1))
                } else if e == MdTagEnd::Strong {
                    inlines_from(ev, p + 1, until, r, acc, images, false, italic)
                } else if e == MdTagEnd::Emphasis {
                    inlines_from(ev, p + 1, until, r, acc, images, bold, false)
                } else {
                    inlines_from(ev, p + 1, until, r, acc, images, bold, italic)
                }
            },
            EventView::Start(TagView::Strong) => inlines_from(
                ev,
                p + 1,
                until,
                r,
                acc,
                images,
                true,
                italic,
            ),
            EventView::Start(TagView::Emphasis) => inlines_from(
                ev,
                p + 1,
                until,
                r,
                acc,
                images,
                bold,
                true,
            ),
            EventView::Start(TagView::Image { dest_url, title }) => inlines_from(
                ev,
                after(skipped_to(ev, p + 1, MdTagEnd::Image), p, ev.len() as int),
                until,
                r,
                acc,
                images.push((dest_url, title)),
                bold,
                italic,
            ),
            EventView::Text(t) => match push_text_math(acc, t, bold, italic, r) {
                Ok(a) => inlines_from(ev, p + 1, until, r, a, images, bold, italic),
                Err(e) => Err(e),
            },
            EventView::Code(c) => inlines_from(
                ev,
                p + 1,
                until,
                r,
                acc.push(InlineView::Code(c)),
                images,
                bold,
                italic,
            ),
            EventView::SoftBreak => inlines_from(
                ev,
                p + 1,
                until,
                r,
                acc.push(InlineView::Text("\n"@)),
                images,
                bold,
                italic,
            ),
            EventView::HardBreak => inlines_from(
                ev,
                p + 1,
                until,
                r,
                acc.push(InlineView::Text("\n"@)),
                images,
                bold,
                italic,
            ),
            _ => inlines_from(ev, p + 1, until, r, acc, images, bold, italic),
        }
    }
}

/// The runs of a reader that starts with no style and nothing collected.
pub open spec fn inlines_at(ev: Seq<EventView>, p: int, until: MdTagEnd, r: MathRenderer) -> Result<
    (Seq<InlineView>, Seq<(Seq<char>, Seq<char>)>, int),
    ErrorView,
> {
    inlines_from(ev, p, until, r, seq![], seq![], false, false)
}

/// `target` followed by `inl`, with a newline run between two non-empty parts.
pub open spec fn append_item(target: Seq<InlineView>, inl: Seq<InlineView>) -> Seq<InlineView> {
    if target.len() > 0 && inl.len() > 0 {
        target.push(InlineView::Text("\n"@)) + inl
    } else {
        target + inl
    }
}

/// The items of a list read up to its end.
pub open spec fn list_from(ev: Seq<EventView>, p: int, r: MathRenderer, items: Seq<ListItemView>) -> Result<
    (Seq<ListItemView>, int),
    ErrorView,
>
    decreases ev.len() - p,
{
    if p < 0 || p >= ev.len() {
        Ok((items, p))
    } else {
        match ev[p] {
            EventView::Start(TagView::Item) => match item_from(ev, p + 1, r, seq![], seq![]) {
                Ok((it, q)) => list_from(ev, after(q, p, ev.len() as int), r, items.push(it)),
                Err(e) => Err(e),
            },
            EventView::End(MdTagEnd::List(_)) => Ok((items, p + 1)),
            _ => list_from(ev, p + 1, r, items),
        }
    }
}

/// A list item read up to its end: paragraph runs joined by newlines, text,
/// code and breaks of a tight item, and nested lists.
pub open spec fn item_from(
    ev: Seq<EventView>,
    p: int,
    r: MathRenderer,
    inl: Seq<InlineView>,
    children: Seq<ListBlockView>,
) -> Result<(ListItemView, int), ErrorView>
    decreases ev.len() - p,
{
    if p < 0 || p >= ev.len() {
        Ok((ListItemView { inlines: inl, children }, p))
    } else {
        match ev[p] {
            EventView::End(MdTagEnd::Item) => Ok((ListItemView { inlines: inl, children }, p + 1)),
            EventView::Start(TagView::Paragraph) => match inlines_at(
                ev,
                p + 1,
                MdTagEnd::Paragraph,
                r,
            ) {
                Ok((a, _images, q)) => item_from(ev, after(q, p, ev.len() as int), r, append_item(inl, a), children),
                Err(e) => Err(e),
            },
            EventView::Start(TagView::List(start)) => match list_from(ev, p + 1, r, seq![]) {
                Ok((items, q)) => item_from(
                    ev,
                    after(q, p, ev.len() as int),
                    r,
                    inl,
                    children.push(ListBlockView { ordered: start is Some, items }),
                ),
                Err(e) => Err(e),
            },
            EventView::Text(t) => item_from(ev, p + 1, r, inl.push(InlineView::Text(t)), children),
            EventView::Code(c) => item_from(ev, p + 1, r, inl.push(InlineView::Code(c)), children),
            EventView::SoftBreak => item_from(
                ev,
                p + 1,
                r,
                inl.push(InlineView::Text("\n"@)),
                children,
            ),
            EventView::HardBreak => item_from(
                ev,
                p + 1,
                r,
                inl.push(InlineView::Text("\n"@)),
                children,
            ),
            _ => item_from(ev, p + 1, r, inl, children),
        }
    }
}

/// The cells of a table head or row read up to the end of `end`.
pub open spec fn cells_from(
    ev: Seq<EventView>,
    p: int,
    r: MathRenderer,
    end: MdTagEnd,
    cells: Seq<Seq<InlineView>>,
) -> Result<(Seq<Seq<InlineView>>, int), ErrorView>
    decreases ev.len() - p,
{
    if p < 0 || p >= ev.len() {
        Ok((cells, p))
    } else {
        match ev[p] {
            EventView::Start(TagView::TableCell) => match inlines_at(
                ev,
                p + 1,
                MdTagEnd::TableCell,
                r,
            ) {
                Ok((a, _images, q)) => cells_from(ev, after(q, p, ev.len() as int), r, end, cells.push(a)),
                Err(e) => Err(e),
            },
            EventView::End(e) => {
                if e == end {
                    Ok((cells, p + 1))
                } else {
                    cells_from(ev, p + 1, r, end, cells)
                }
            },
            _ => cells_from(ev, p + 1, r, end, cells),
        }
    }
}

/// The rows of a table read up to its end; the head is the header row.
pub open spec fn rows_from(ev: Seq<EventView>, p: int, r: MathRenderer, rows: Seq<TableRowView>) -> Result<
    (Seq<TableRowView>, int),
    ErrorView,
>
    decreases ev.len() - p,
{
    if p < 0 || p >= ev.len() {
        Ok((rows, p))
    } else {
        match ev[p] {
            EventView::Start(TagView::TableHead) => match cells_from(
                ev,
                p + 1,
                r,
                MdTagEnd::TableHead,
                seq![],
            ) {
                Ok((cells, q)) => rows_from(
                    ev,
                    after(q, p, ev.len() as int),
                    r,
                    rows.push(TableRowView { cells, is_header: true }),
                ),
                Err(e) => Err(e),
            },
            EventView::Start(TagView::TableRow) => match cells_from(
                ev,
                p + 1,
                r,
                MdTagEnd::TableRow,
                seq![],
            ) {
                Ok((cells, q)) => rows_from(
                    ev,
                    after(q, p, ev.len() as int),
                    r,
                    rows.push(TableRowView { cells, is_header: false }),
                ),
                Err(e) => Err(e),
            },
            EventView::End(MdTagEnd::Table) => Ok((rows, p + 1)),
            _ => rows_from(ev, p + 1, r, rows),
        }
    }
}

/// The text of a code block read up to its end.
pub open spec fn code_from(ev: Seq<EventView>, p: int, acc: Seq<char>) -> (Seq<char>, int)
    decreases ev.len() - p,
{
    if p < 0 || p >= ev.len() {
        (acc, p)
    } else {
        match ev[p] {
            EventView::Text(t) => code_from(ev, p + 1, acc + t),
            EventView::End(MdTagEnd::CodeBlock) => (acc, p + 1),
            _ => code_from(ev, p + 1, acc),
        }
    }
}

/// Collected images, each by its path and its alternative text.
pub open spec fn image_pairs(images: Seq<(PathBuf, String)>) -> Seq<(PathBuf, Seq<char>)> {
    images.map_values(|im: (PathBuf, String)| (im.0, im.1@))
}

/// Images read from the events, each with its destination joined to `base_dir`.
pub open spec fn joined_images(base_dir: &Path, images: Seq<(Seq<char>, Seq<char>)>) -> Seq<
    (PathBuf, Seq<char>),
> {
    images.map_values(|im: (Seq<char>, Seq<char>)| (joined_path(base_dir, im.0), im.1))
}

pub struct CollectedInlines {
    pub inlines: Vec<Inline>,
    pub images: Vec<(PathBuf, String)>,
}

fn newline() -> (s: String)
    ensures
        s@ == "\n"@,
{
    String::from_str("\n")
}

/// Moves `index` just past the next end of `until`, or to the end of the events.
fn skip_until(events: &Vec<MdEvent>, index: &mut usize, until: MdTagEnd)
    requires
        *old(index) <= events@.len(),
    ensures
        *final(index) == skipped_to(events_view(events@), *old(index) as int, until),
        *old(index) <= *final(index) <= events@.len(),
{
    let ghost ev = events_view(events@);
    let ghost start = *index as int;
    while *index < events.len()
        invariant
            ev == events_view(events@),
            start == *old(index),
            start <= *index <= events@.len(),
            skipped_to(ev, *index as int, until) == skipped_to(ev, start, until),
        decreases events.len() - *index,
    {
        let i = *index;
        *index = i + 1;
        assert(ev[i as int] == events@[i as int]@);
        match &events[i] {
            MdEvent::End(end) => {
                if *end == until {
                    return ;
                }
            },
            _ => {},
        }
    }
}

/// Reads runs up to the end of `until`, starting at `index`.
fn collect_inlines(
    events: &Vec<MdEvent>,
    index: &mut usize,
    until: MdTagEnd,
    base_dir: &Path,
    math_renderer: MathRenderer,
) -> (res: Result<CollectedInlines, Error>)
    requires
        *old(index) <= events@.len(),
    ensures
        *old(index) <= *final(index) <= events@.len(),
        match inlines_at(events_view(events@), *old(index) as int, until, math_renderer) {
            Ok((inl, imgs, q)) => res matches Ok(c) && inlines_view(c.inlines@) == inl
                && image_pairs(c.images@) == joined_images(base_dir, imgs) && *final(index) == q,
            Err(e) => res matches Err(err) && err@ == e,
        },
{
    let ghost ev = events_view(events@);
    let ghost start = *index as int;
    let mut inlines: Vec<Inline> = Vec::new();
    let mut images: Vec<(PathBuf, String)> = Vec::new();
    let mut bold = false;
    let mut italic = false;
    let ghost mut imgs: Seq<(Seq<char>, Seq<char>)> = seq![];
    assert(inlines_view(inlines@) =~= seq![]);
    assert(image_pairs(images@) =~= joined_images(base_dir, seq![]));
    while *index < events.len()
        invariant
            ev == events_view(events@),
            start == *old(index),
            start <= *index <= events@.len(),
            inlines_from(
                ev,
                *index as int,
                until,
                math_renderer,
                inlines_view(inlines@),
                imgs,
                bold,
                italic,
            ) == inlines_at(ev, start, until, math_renderer),
            image_pairs(images@) == joined_images(base_dir, imgs),
        decreases events.len() - *index,
    {
        let i = *index;
        *index = i + 1;
        assert(ev[i as int] == events@[i as int]@);
        let ghost acc = inlines@;
        match &events[i] {
            MdEvent::End(end) => {
                if *end == until {
                    return Ok(CollectedInlines { inlines, images });
                }
                if *end == MdTagEnd::Strong {
                    bold = false;
                } else if *end == MdTagEnd::Emphasis {
                    italic = false;
                }
            },
            MdEvent::Start(MdTag::Strong) => {
                bold = true;
            },
            MdEvent::Start(MdTag::Emphasis) => {
                italic = true;
            },
            MdEvent::Start(MdTag::Image { dest_url, title }) => {
                let ghost before = images@;
                let path = join_path(base_dir, dest_url.as_str());
                let alt = title.clone();
                images.push((path, alt));
                proof {
                    imgs = imgs.push((dest_url@, title@));
                    assert(image_pairs(images@) =~= image_pairs(before).push((path, alt@)));
                }
                assert(image_pairs(images@) =~= joined_images(base_dir, imgs));
                skip_until(events, index, MdTagEnd::Image);
            },
            MdEvent::Text(value) => {
                let chars = chars_of(value.as_str());
                match push_text_with_inline_math(
                    &mut inlines,
                    chars.as_slice(),
                    bold,
                    italic,
                    math_renderer,
                ) {
                    Ok(()) => {},
                    Err(e) => {
                        return Err(e);
                    },
                }
            },
            MdEvent::Code(value) => {
                inlines.push(Inline::Code(value.clone()));
                assert(inlines_view(inlines@) =~= inlines_view(acc).push(InlineView::Code(value@)));
            },
            MdEvent::SoftBreak | MdEvent::HardBreak => {
                let nl = newline();
                inlines.push(Inline::Text(nl));
                assert(inlines_view(inlines@) =~= inlines_view(acc).push(InlineView::Text("\n"@)));
            },
            _ => {},
        }
    }
    Ok(CollectedInlines { inlines, images })
}

/// Appends the runs of another paragraph of a list item, after a newline run.
fn append_item_inlines(target: &mut Vec<Inline>, inlines: Vec<Inline>)
    ensures
        inlines_view(final(target)@) == append_item(inlines_view(old(target)@), inlines_view(inlines@)),
{
    let mut inlines = inlines;
    let ghost start = inlines_view(target@);
    let ghost added = inlines_view(inlines@);
    if target.len() > 0 && inlines.len() > 0 {
        target.push(Inline::Text(newline()));
    }
    let ghost mid = inlines_view(target@);
    assert(mid =~= (if start.len() > 0 && added.len() > 0 {
        start.push(InlineView::Text("\n"@))
    } else {
        start
    }));
    target.append(&mut inlines);
    assert(inlines_view(target@) =~= mid + added);
}

/// Reads the items of a list up to its end.
fn collect_list(
    events: &Vec<MdEvent>,
    index: &mut usize,
    ordered: bool,
    base_dir: &Path,
    math_renderer: MathRenderer,
) -> (res: Result<ListBlock, Error>)
    requires
        *old(index) <= events@.len(),
    ensures
        *old(index) <= *final(index) <= events@.len(),
        match list_from(events_view(events@), *old(index) as int, math_renderer, seq![]) {
            Ok((items, q)) => res matches Ok(l) && list_view(l) == ListBlockView { ordered, items }
                && *final(index) == q,
            Err(e) => res matches Err(err) && err@ == e,
        },
    decreases events@.len() - *old(index),
{
    let ghost ev = events_view(events@);
    let ghost start = *index as int;
    let mut items: Vec<ListItem> = Vec::new();
    assert(items_view(items@) =~= seq![]);
    while *index < events.len()
        invariant
            ev == events_view(events@),
            start == *old(index),
            start <= *index <= events@.len(),
            list_from(ev, *index as int, math_renderer, items_view(items@)) == list_from(
                ev,
                start,
                math_renderer,
                seq![],
            ),
        decreases events.len() - *index,
    {
        let i = *index;
        *index = i + 1;
        assert(ev[i as int] == events@[i as int]@);
        match &events[i] {
            MdEvent::Start(MdTag::Item) => {
                match collect_list_item(events, index, base_dir, math_renderer) {
                    Ok(item) => {
                        proof {
                            lemma_items_view_push(items@, item);
                        }
                        items.push(item);
                    },
                    Err(e) => {
                        return Err(e);
                    },
                }
            },
            MdEvent::End(MdTagEnd::List(_)) => {
                return Ok(ListBlock { ordered, items });
            },
            _ => {},
        }
    }
    Ok(ListBlock { ordered, items })
}

/// Reads one list item up to its end.
fn collect_list_item(
    events: &Vec<MdEvent>,
    index: &mut usize,
    base_dir: &Path,
    math_renderer: MathRenderer,
) -> (res: Result<ListItem, Error>)
    requires
        *old(index) <= events@.len(),
    ensures
        *old(index) <= *final(index) <= events@.len(),
        match item_from(events_view(events@), *old(index) as int, math_renderer, seq![], seq![]) {
            Ok((it, q)) => res matches Ok(li) && item_view(li) == it && *final(index) == q,
            Err(e) => res matches Err(err) && err@ == e,
        },
    decreases events@.len() - *old(index),
{
    let ghost ev = events_view(events@);
    let ghost start = *index as int;
    let mut inlines: Vec<Inline> = Vec::new();
    let mut children: Vec<ListBlock> = Vec::new();
    assert(inlines_view(inlines@) =~= seq![]);
    assert(lists_view(children@) =~= seq![]);
    while *index < events.len()
        invariant
            ev == events_view(events@),
            start == *old(index),
            start <= *index <= events@.len(),
            item_from(
                ev,
                *index as int,
                math_renderer,
                inlines_view(inlines@),
                lists_view(children@),
            ) == item_from(ev, start, math_renderer, seq![], seq![]),
        decreases events.len() - *index,
    {
        let i = *index;
        *index = i + 1;
        assert(ev[i as int] == events@[i as int]@);
        let ghost acc = inlines@;
        match &events[i] {
            MdEvent::End(MdTagEnd::Item) => {
                return Ok(ListItem { inlines, children });
            },
            MdEvent::Start(MdTag::Paragraph) => {
                match collect_inlines(events, index, MdTagEnd::Paragraph, base_dir, math_renderer) {
                    Ok(collected) => {
                        append_item_inlines(&mut inlines, collected.inlines);
                    },
                    Err(e) => {
                        return Err(e);
                    },
                }
            },
            MdEvent::Start(MdTag::List(first)) => {
                let ordered = first.is_some();
                match collect_list(events, index, ordered, base_dir, math_renderer) {
                    Ok(list) => {
                        proof {
                            lemma_lists_view_push(children@, list);
                        }
                        children.push(list);
                    },
                    Err(e) => {
                        return Err(e);
                    },
                }
            },
            MdEvent::Text(value) => {
                inlines.push(Inline::Text(value.clone()));
                assert(inlines_view(inlines@) =~= inlines_view(acc).push(InlineView::Text(value@)));
            },
            MdEvent::Code(value) => {
                inlines.push(Inline::Code(value.clone()));
                assert(inlines_view(inlines@) =~= inlines_view(acc).push(InlineView::Code(value@)));
            },
            MdEvent::SoftBreak | MdEvent::HardBreak => {
                inlines.push(Inline::Text(newline()));
                assert(inlines_view(inlines@) =~= inlines_view(acc).push(InlineView::Text("\n"@)));
            },
            _ => {},
        }
    }
    Ok(ListItem { inlines, children })
}

/// Reads the cells of a table head or row up to the end of `end`.
fn collect_cells(
    events: &Vec<MdEvent>,
    index: &mut usize,
    end: MdTagEnd,
    base_dir: &Path,
    math_renderer: MathRenderer,
) -> (res: Result<Vec<Vec<Inline>>, Error>)
    requires
        *old(index) <= events@.len(),
    ensures
        *old(index) <= *final(index) <= events@.len(),
        match cells_from(events_view(events@), *old(index) as int, math_renderer, end, seq![]) {
            Ok((cells, q)) => res matches Ok(c) && cells_view(c@) == cells && *final(index) == q,
            Err(e) => res matches Err(err) && err@ == e,
        },
{
    let ghost ev = events_view(events@);
    let ghost start = *index as int;
    let mut cells: Vec<Vec<Inline>> = Vec::new();
    assert(cells_view(cells@) =~= seq![]);
    while *index < events.len()
        invariant
            ev == events_view(events@),
            start == *old(index),
            start <= *index <= events@.len(),
            cells_from(ev, *index as int, math_renderer, end, cells_view(cells@)) == cells_from(
                ev,
                start,
                math_renderer,
                end,
                seq![],
            ),
        decreases events.len() - *index,
    {
        let i = *index;
        *index = i + 1;
        assert(ev[i as int] == events@[i as int]@);
        match &events[i] {
            MdEvent::Start(MdTag::TableCell) => {
                match collect_inlines(events, index, MdTagEnd::TableCell, base_dir, math_renderer) {
                    Ok(collected) => {
                        let ghost before = cells@;
                        let ghost cell = collected.inlines;
                        cells.push(collected.inlines);
                        assert(cells_view(cells@) =~= cells_view(before).push(
                            inlines_view(cell@),
                        ));
                    },
                    Err(e) => {
                        return Err(e);
                    },
                }
            },
            MdEvent::End(e) => {
                if *e == end {
                    return Ok(cells);
                }
            },
            _ => {},
        }
    }
    Ok(cells)
}

/// Reads the header row of a table.
fn collect_table_head(
    events: &Vec<MdEvent>,
    index: &mut usize,
    base_dir: &Path,
    math_renderer: MathRenderer,
) -> (res: Result<TableRow, Error>)
    requires
        *old(index) <= events@.len(),
    ensures
        *old(index) <= *final(index) <= events@.len(),
        match cells_from(
            events_view(events@),
            *old(index) as int,
            math_renderer,
            MdTagEnd::TableHead,
            seq![],
        ) {
            Ok((cells, q)) => res matches Ok(row) && row_view(row) == TableRowView {
                cells,
                is_header: true,
            } && *final(index) == q,
            Err(e) => res matches Err(err) && err@ == e,
        },
{
    let cells = collect_cells(events, index, MdTagEnd::TableHead, base_dir, math_renderer)?;
    Ok(TableRow { cells, is_header: true })
}

/// Reads a body row of a table.
fn collect_table_row(
    events: &Vec<MdEvent>,
    index: &mut usize,
    is_header: bool,
    base_dir: &Path,
    math_renderer: MathRenderer,
) -> (res: Result<TableRow, Error>)
    requires
        *old(index) <= events@.len(),
    ensures
        *old(index) <= *final(index) <= events@.len(),
        match cells_from(
            events_view(events@),
            *old(index) as int,
            math_renderer,
            MdTagEnd::TableRow,
            seq![],
        ) {
            Ok((cells, q)) => res matches Ok(row) && row_view(row) == TableRowView { cells, is_header }
                && *final(index) == q,
            Err(e) => res matches Err(err) && err@ == e,
        },
{
    let cells = collect_cells(events, index, MdTagEnd::TableRow, base_dir, math_renderer)?;
    Ok(TableRow { cells, is_header })
}

/// Reads the rows of a table up to its end.
fn collect_table(
    events: &Vec<MdEvent>,
    index: &mut usize,
    alignments: Vec<TableAlignment>,
    base_dir: &Path,
    math_renderer: MathRenderer,
) -> (res: Result<Block, Error>)
    requires
        *old(index) <= events@.len(),
    ensures
        *old(index) <= *final(index) <= events@.len(),
        match rows_from(events_view(events@), *old(index) as int, math_renderer, seq![]) {
            Ok((rows, q)) => res matches Ok(b) && block_view(b) == BlockView::Table {
                alignments: alignments@,
                rows,
            } && *final(index) == q,
            Err(e) => res matches Err(err) && err@ == e,
        },
{
    let ghost ev = events_view(events@);
    let ghost start = *index as int;
    let mut rows: Vec<TableRow> = Vec::new();
    assert(rows_view(rows@) =~= seq![]);
    while *index < events.len()
        invariant
            ev == events_view(events@),
            start == *old(index),
            start <= *index <= events@.len(),
            rows_from(ev, *index as int, math_renderer, rows_view(rows@)) == rows_from(
                ev,
                start,
                math_renderer,
                seq![],
            ),
        decreases events.len() - *index,
    {
        let i = *index;
        *index = i + 1;
        assert(ev[i as int] == events@[i as int]@);
        let ghost before = rows@;
        match &events[i] {
            MdEvent::Start(MdTag::TableHead) => {
                let row = collect_table_head(events, index, base_dir, math_renderer)?;
                rows.push(row);
                assert(rows_view(rows@) =~= rows_view(before).push(row_view(row)));
            },
            MdEvent::Start(MdTag::TableRow) => {
                let row = collect_table_row(events, index, false, base_dir, math_renderer)?;
                rows.push(row);
                assert(rows_view(rows@) =~= rows_view(before).push(row_view(row)));
            },
            MdEvent::End(MdTagEnd::Table) => {
                return Ok(Block::Table { alignments, rows });
            },
            _ => {},
        }
    }
    Ok(Block::Table { alignments, rows })
}

/// Reads the text of a code block up to its end.
fn collect_code(events: &Vec<MdEvent>, index: &mut usize) -> (res: String)
    requires
        *old(index) <= events@.len(),
    ensures
        *old(index) <= *final(index) <= events@.len(),
        code_from(events_view(events@), *old(index) as int, seq![]) == (res@, *final(index) as int),
{
    let ghost ev = events_view(events@);
    let ghost start = *index as int;
    let mut code = String::new();
    while *index < events.len()
        invariant
            ev == events_view(events@),
            start == *old(index),
            start <= *index <= events@.len(),
            code_from(ev, *index as int, code@) == code_from(ev, start, seq![]),
        decreases events.len() - *index,
    {
        let i = *index;
        *index = i + 1;
        assert(ev[i as int] == events@[i as int]@);
        match &events[i] {
            MdEvent::Text(value) => {
                code.append(value.as_str());
            },
            MdEvent::End(MdTagEnd::CodeBlock) => {
                return code;
            },
            _ => {},
        }
    }
    code
}

/// A heading of level 2 to 6 is a heading block; any other level is a paragraph.
pub open spec fn heading_block(level: u8, inl: Seq<InlineView>) -> BlockView {
    if 2 <= level <= 6 {
        BlockView::Heading { level, inlines: inl }
    } else {
        BlockView::Paragraph(inl)
    }
}

/// Whether some run holds text that is not only whitespace.
pub open spec fn has_text(inl: Seq<InlineView>) -> bool {
    exists|i: int| 0 <= i < inl.len() && trim(inline_text(#[trigger] inl[i])).len() > 0
}

/// The blocks of a paragraph: its text when it has any, then its images,
/// each by its path and alternative text.
pub open spec fn paragraph_blocks(inl: Seq<InlineView>, images: Seq<(PathBuf, Seq<char>)>) -> Seq<
    BlockView,
> {
    (if has_text(inl) {
        seq![BlockView::Paragraph(inl)]
    } else {
        seq![]
    }) + images.map_values(|im: (PathBuf, Seq<char>)| BlockView::Image { path: im.0, alt: im.1 })
}

pub open spec fn is_math_info(info: Option<Seq<char>>) -> bool {
    info matches Some(lang) && eq_ignore_ascii_case(lang, "math"@)
}

pub open spec fn is_mermaid_info(info: Option<Seq<char>>) -> bool {
    info matches Some(lang) && eq_ignore_ascii_case(lang, "mermaid"@)
}

/// A code block by its info string: `math` is a math block, `mermaid` a
/// diagram source, anything else code (case-insensitively).
pub open spec fn code_block(info: Option<Seq<char>>, code: Seq<char>) -> BlockView {
    if is_math_info(info) {
        BlockView::MathBlock(code)
    } else if is_mermaid_info(info) {
        BlockView::Mermaid { source: code }
    } else {
        BlockView::CodeBlock { language: info, code }
    }
}

/// The title and blocks that the events of a segment add, reading from `p`:
/// the first level-1 heading fills an empty title slot, other headings,
/// paragraphs, lists, tables, quotes, code blocks and images become blocks.
pub open spec fn segment_from(
    ev: Seq<EventView>,
    p: int,
    r: MathRenderer,
    base_dir: &Path,
    slot: bool,
    title: Option<Seq<InlineView>>,
    blocks: Seq<BlockView>,
) -> Result<(Option<Seq<InlineView>>, Seq<BlockView>), ErrorView>
    decreases ev.len() - p,
{
    if p < 0 || p >= ev.len() {
        Ok((title, blocks))
    } else {
        let n = ev.len() as int;
        match ev[p] {
            EventView::Start(TagView::Heading(level)) => match inlines_at(
                ev,
                p + 1,
                MdTagEnd::Heading(level),
                r,
            ) {
                Ok((inl, _images, q)) => {
                    if level == 1 && slot && title is None {
                        segment_from(ev, after(q, p, n), r, base_dir, slot, Some(inl), blocks)
                    } else {
                        segment_from(
                            ev,
                            after(q, p, n),
                            r,
                            base_dir,
                            slot,
                            title,
                            blocks.push(heading_block(level, inl)),
                        )
                    }
                },
                Err(e) => Err(e),
            },
            EventView::Start(TagView::Paragraph) => match inlines_at(
                ev,
                p + 1,
                MdTagEnd::Paragraph,
                r,
            ) {
                Ok((inl, images, q)) => segment_from(
                    ev,
                    after(q, p, n),
                    r,
                    base_dir,
                    slot,
                    title,
                    blocks + paragraph_blocks(inl, joined_images(base_dir, images)),
                ),
                Err(e) => Err(e),
            },
            EventView::Start(TagView::List(first)) => match list_from(ev, p + 1, r, seq![]) {
                Ok((items, q)) => segment_from(
                    ev,
                    after(q, p, n),
                    r,
                    base_dir,
                    slot,
                    title,
                    blocks.push(BlockView::List(ListBlockView { ordered: first is Some, items })),
                ),
                Err(e) => Err(e),
            },
            EventView::Start(TagView::Table(alignments)) => match rows_from(ev, p + 1, r, seq![]) {
                Ok((rows, q)) => segment_from(
                    ev,
                    after(q, p, n),
                    r,
                    base_dir,
                    slot,
                    title,
                    blocks.push(BlockView::Table { alignments, rows }),
                ),
                Err(e) => Err(e),
            },
            EventView::Start(TagView::BlockQuote) => match inlines_at(
                ev,
                p + 1,
                MdTagEnd::BlockQuote,
                r,
            ) {
                Ok((inl, _images, q)) => segment_from(
                    ev,
                    after(q, p, n),
                    r,
                    base_dir,
                    slot,
                    title,
                    blocks.push(BlockView::Quote(inl)),
                ),
                Err(e) => Err(e),
            },
            EventView::Start(TagView::CodeBlock(info)) => {
                if is_math_info(info) && r == MathRenderer::Disabled {
                    Err(ErrorView::UnsupportedFeature("math"@))
                } else {
                    let (code, q) = code_from(ev, p + 1, seq![]);
                    segment_from(
                        ev,
                        after(q, p, n),
                        r,
                        base_dir,
                        slot,
                        title,
                        blocks.push(code_block(info, code)),
                    )
                }
            },
            EventView::Start(TagView::Image { dest_url, title: alt }) => segment_from(
                ev,
                after(skipped_to(ev, p + 1, MdTagEnd::Image), p, n),
                r,
                base_dir,
                slot,
                title,
                blocks.push(BlockView::Image { path: joined_path(base_dir, dest_url), alt }),
            ),
            _ => segment_from(ev, p + 1, r, base_dir, slot, title, blocks),
        }
    }
}

/// A heading of level 2 to 6 in a segment becomes a heading block of that
/// level holding the heading's runs, right after the blocks read before it,
/// whatever the title slot holds: only a level-1 heading is a title.
pub proof fn law_body_headings_keep_their_level(
    ev: Seq<EventView>,
    p: int,
    r: MathRenderer,
    base_dir: &Path,
    slot: bool,
    title: Option<Seq<InlineView>>,
    blocks: Seq<BlockView>,
    level: u8,
)
    requires
        0 <= p < ev.len(),
        ev[p] == EventView::Start(TagView::Heading(level)),
        2 <= level <= 6,
    ensures
        segment_from(ev, p, r, base_dir, slot, title, blocks) matches Ok((t2, b2)) ==> (inlines_at(
            ev,
            p + 1,
            MdTagEnd::Heading(level),
            r,
        ) matches Ok((inl, _images, _q)) && blocks.len() < b2.len() && b2[blocks.len() as int]
            == BlockView::Heading { level, inlines: inl } && (title is Some ==> t2 == title)),
{
    let n = ev.len() as int;
    if let Ok((inl, _images, q)) = inlines_at(ev, p + 1, MdTagEnd::Heading(level), r) {
        let b1 = blocks.push(heading_block(level, inl));
        lemma_segment_from_flat(ev, after(q, p, n), r, base_dir, slot, title, b1);
        if let Ok((t2, b2)) = segment_from(ev, after(q, p, n), r, base_dir, slot, title, b1) {
            assert(b2.take(b1.len() as int)[blocks.len() as int] == b2[blocks.len() as int]);
        }
    }
}

/// A level-1 heading fills the title when the segment has a title slot that
/// is still empty, and adds no block; otherwise it becomes a paragraph of its
/// runs, right after the blocks read before it.
pub proof fn law_level_one_heading_is_the_title(
    ev: Seq<EventView>,
    p: int,
    r: MathRenderer,
    base_dir: &Path,
    slot: bool,
    title: Option<Seq<InlineView>>,
    blocks: Seq<BlockView>,
)
    requires
        0 <= p < ev.len(),
        ev[p] == EventView::Start(TagView::Heading(1)),
    ensures
        segment_from(ev, p, r, base_dir, slot, title, blocks) matches Ok((t2, b2)) ==> (inlines_at(
            ev,
            p + 1,
            MdTagEnd::Heading(1),
            r,
        ) matches Ok((inl, _images, _q)) && (if slot && title is None {
            t2 == Some(inl) && b2.take(blocks.len() as int) == blocks
        } else {
            blocks.len() < b2.len() && b2[blocks.len() as int] == BlockView::Paragraph(inl)
        })),
{
    let n = ev.len() as int;
    if let Ok((inl, _images, q)) = inlines_at(ev, p + 1, MdTagEnd::Heading(1), r) {
        if slot && title is None {
            lemma_segment_from_flat(ev, after(q, p, n), r, base_dir, slot, Some(inl), blocks);
        } else {
            let b1 = blocks.push(heading_block(1, inl));
            lemma_segment_from_flat(ev, after(q, p, n), r, base_dir, slot, title, b1);
            if let Ok((t2, b2)) = segment_from(ev, after(q, p, n), r, base_dir, slot, title, b1) {
                assert(b2.take(b1.len() as int)[blocks.len() as int] == b2[blocks.len() as int]);
            }
        }
    }
}

/// `b2` is `b` followed by blocks none of which is a column layout.
pub open spec fn extends_flat(b: Seq<BlockView>, b2: Seq<BlockView>) -> bool {
    &&& b.len() <= b2.len()
    &&& b2.take(b.len() as int) == b
    &&& forall|i: int| b.len() <= i < b2.len() ==> !(#[trigger] b2[i] is Columns)
}

/// What a reader may hand back after starting from title `t` and blocks `b`:
/// the blocks extended by flat blocks, and the title kept where it was set or
/// where there is no title slot.
pub open spec fn flat_outcome(
    slot: bool,
    t: Option<Seq<InlineView>>,
    b: Seq<BlockView>,
    res: Result<(Option<Seq<InlineView>>, Seq<BlockView>), ErrorView>,
) -> bool {
    res matches Ok((t2, b2)) ==> extends_flat(b, b2) && ((t is Some || !slot) ==> t2 == t)
}

pub proof fn lemma_extends_flat_refl(b: Seq<BlockView>)
    ensures
        extends_flat(b, b),
{
    assert(b.take(b.len() as int) =~= b);
}

pub proof fn lemma_extends_flat_trans(a: Seq<BlockView>, b: Seq<BlockView>, c: Seq<BlockView>)
    requires
        extends_flat(a, b),
        extends_flat(b, c),
    ensures
        extends_flat(a, c),
{
    assert(c.take(a.len() as int) =~= b.take(a.len() as int)) by {
        assert forall|i: int| 0 <= i < a.len() implies c.take(a.len() as int)[i] == b.take(
            a.len() as int,
        )[i] by {
            assert(c.take(b.len() as int)[i] == b[i]);
        }
    }
    assert forall|i: int| a.len() <= i < c.len() implies !(#[trigger] c[i] is Columns) by {
        if i < b.len() {
            assert(c.take(b.len() as int)[i] == b[i]);
        }
    }
}

/// A reader step that moves from `(t, b)` to `(t1, b1)` keeps the outcome
/// property of what follows.
pub proof fn lemma_flat_step(
    slot: bool,
    t: Option<Seq<InlineView>>,
    b: Seq<BlockView>,
    t1: Option<Seq<InlineView>>,
    b1: Seq<BlockView>,
    res: Result<(Option<Seq<InlineView>>, Seq<BlockView>), ErrorView>,
)
    requires
        extends_flat(b, b1),
        (t is Some || !slot) ==> t1 == t,
        flat_outcome(slot, t1, b1, res),
    ensures
        flat_outcome(slot, t, b, res),
{
    if let Ok((t2, b2)) = res {
        lemma_extends_flat_trans(b, b1, b2);
    }
}

pub proof fn lemma_extends_flat_append(b: Seq<BlockView>, extra: Seq<BlockView>)
    requires
        forall|i: int| 0 <= i < extra.len() ==> !(#[trigger] extra[i] is Columns),
    ensures
        extends_flat(b, b + extra),
{
    assert((b + extra).take(b.len() as int) =~= b);
    assert forall|i: int| b.len() <= i < (b + extra).len() implies !(#[trigger] (b + extra)[i] is Columns) by {
        assert((b + extra)[i] == extra[i - b.len()]);
    }
}

pub proof fn lemma_extends_flat_push(b: Seq<BlockView>, x: BlockView)
    requires
        !(x is Columns),
    ensures
        extends_flat(b, b.push(x)),
{
    lemma_extends_flat_append(b, seq![x]);
    assert(b + seq![x] =~= b.push(x));
}

/// The reader of a segment only adds blocks that are not column layouts, and
/// it fills the title only when the slot is there and still empty.
pub proof fn lemma_segment_from_flat(
    ev: Seq<EventView>,
    p: int,
    r: MathRenderer,
    base_dir: &Path,
    slot: bool,
    title: Option<Seq<InlineView>>,
    blocks: Seq<BlockView>,
)
    ensures
        flat_outcome(slot, title, blocks, segment_from(ev, p, r, base_dir, slot, title, blocks)),
    decreases ev.len() - p,
{
    if p < 0 || p >= ev.len() {
        lemma_extends_flat_refl(blocks);
    } else {
        let n = ev.len() as int;
        match ev[p] {
            EventView::Start(TagView::Heading(level)) => {
                if let Ok((inl, _images, q)) = inlines_at(ev, p + 1, MdTagEnd::Heading(level), r) {
                    if level == 1 && slot && title is None {
                        lemma_segment_from_flat(ev, after(q, p, n), r, base_dir, slot, Some(inl), blocks);
                        lemma_extends_flat_refl(blocks);
                    } else {
                        let b1 = blocks.push(heading_block(level, inl));
                        lemma_segment_from_flat(ev, after(q, p, n), r, base_dir, slot, title, b1);
                        lemma_extends_flat_push(blocks, heading_block(level, inl));
                        lemma_flat_step(
                            slot,
                            title,
                            blocks,
                            title,
                            b1,
                            segment_from(ev, after(q, p, n), r, base_dir, slot, title, b1),
                        );
                    }
                }
            },
            EventView::Start(TagView::Paragraph) => {
                if let Ok((inl, images, q)) = inlines_at(ev, p + 1, MdTagEnd::Paragraph, r) {
                    let extra = paragraph_blocks(inl, joined_images(base_dir, images));
                    let b1 = blocks + extra;
                    lemma_segment_from_flat(ev, after(q, p, n), r, base_dir, slot, title, b1);
                    assert forall|i: int| 0 <= i < extra.len() implies !(#[trigger] extra[i] is Columns) by {
                        let head: Seq<BlockView> = if has_text(inl) {
                            seq![BlockView::Paragraph(inl)]
                        } else {
                            seq![]
                        };
                        if i >= head.len() {
                            let im = joined_images(base_dir, images)[i - head.len()];
                            assert(extra[i] == BlockView::Image { path: im.0, alt: im.1 });
                        }
                    }
                    lemma_extends_flat_append(blocks, extra);
                    lemma_flat_step(
                        slot,
                        title,
                        blocks,
                        title,
                        b1,
                        segment_from(ev, after(q, p, n), r, base_dir, slot, title, b1),
                    );
                }
            },
            EventView::Start(TagView::List(first)) => {
                if let Ok((items, q)) = list_from(ev, p + 1, r, seq![]) {
                    let x = BlockView::List(ListBlockView { ordered: first is Some, items });
                    let b1 = blocks.push(x);
                    lemma_segment_from_flat(ev, after(q, p, n), r, base_dir, slot, title, b1);
                    lemma_extends_flat_push(blocks, x);
                    lemma_flat_step(
                        slot,
                        title,
                        blocks,
                        title,
                        b1,
                        segment_from(ev, after(q, p, n), r, base_dir, slot, title, b1),
                    );
                }
            },
            EventView::Start(TagView::Table(alignments)) => {
                if let Ok((rows, q)) = rows_from(ev, p + 1, r, seq![]) {
                    let x = BlockView::Table { alignments, rows };
                    let b1 = blocks.push(x);
                    lemma_segment_from_flat(ev, after(q, p, n), r, base_dir, slot, title, b1);
                    lemma_extends_flat_push(blocks, x);
                    lemma_flat_step(
                        slot,
                        title,
                        blocks,
                        title,
                        b1,
                        segment_from(ev, after(q, p, n), r, base_dir, slot, title, b1),
                    );
                }
            },
            EventView::Start(TagView::BlockQuote) => {
                if let Ok((inl, _images, q)) = inlines_at(ev, p + 1, MdTagEnd::BlockQuote, r) {
                    let x = BlockView::Quote(inl);
                    let b1 = blocks.push(x);
                    lemma_segment_from_flat(ev, after(q, p, n), r, base_dir, slot, title, b1);
                    lemma_extends_flat_push(blocks, x);
                    lemma_flat_step(
                        slot,
                        title,
                        blocks,
                        title,
                        b1,
                        segment_from(ev, after(q, p, n), r, base_dir, slot, title, b1),
                    );
                }
            },
            EventView::Start(TagView::CodeBlock(info)) => {
                if !(is_math_info(info) && r == MathRenderer::Disabled) {
                    let (code, q) = code_from(ev, p + 1, seq![]);
                    let x = code_block(info, code);
                    let b1 = blocks.push(x);
                    lemma_segment_from_flat(ev, after(q, p, n), r, base_dir, slot, title, b1);
                    lemma_extends_flat_push(blocks, x);
                    lemma_flat_step(
                        slot,
                        title,
                        blocks,
                        title,
                        b1,
                        segment_from(ev, after(q, p, n), r, base_dir, slot, title, b1),
                    );
                }
            },
            EventView::Start(TagView::Image { dest_url, title: alt }) => {
                let x = BlockView::Image { path: joined_path(base_dir, dest_url), alt };
                let b1 = blocks.push(x);
                let next = after(skipped_to(ev, p + 1, MdTagEnd::Image), p, n);
                lemma_segment_from_flat(ev, next, r, base_dir, slot, title, b1);
                lemma_extends_flat_push(blocks, x);
                lemma_flat_step(
                    slot,
                    title,
                    blocks,
                    title,
                    b1,
                    segment_from(ev, next, r, base_dir, slot, title, b1),
                );
            },
            _ => {
                lemma_segment_from_flat(ev, p + 1, r, base_dir, slot, title, blocks);
            },
        }
    }
}

/// The body level of a heading: levels 2 to 6 stay headings, level 1 does not.
fn body_heading_level(level: u8) -> (res: Option<u8>)
    ensures
        res == (if 2 <= level <= 6 {
            Some(level)
        } else {
            None::<u8>
        }),
{
    if 2 <= level && level <= 6 {
        Some(level)
    } else {
        None
    }
}

/// Whether some run holds text that is not only whitespace.
fn inlines_have_text(inlines: &Vec<Inline>) -> (res: bool)
    ensures
        res == has_text(inlines_view(inlines@)),
{
    let mut i: usize = 0;
    while i < inlines.len()
        invariant
            i <= inlines@.len(),
            forall|k: int|
                0 <= k < i ==> trim(inline_text(#[trigger] inlines_view(inlines@)[k])).len() == 0,
        decreases inlines.len() - i,
    {
        let text = match &inlines[i] {
            Inline::Text(value) => value,
            Inline::Bold(value) => value,
            Inline::Italic(value) => value,
            Inline::Code(value) => value,
            Inline::Math(value) => value,
        };
        let chars = chars_of(text.as_str());
        assert(inline_text(inlines_view(inlines@)[i as int]) == text@);
        if !is_blank(chars.as_slice()) {
            return true;
        }
        i = i + 1;
    }
    false
}

fn copy_alignments(alignments: &Vec<TableAlignment>) -> (res: Vec<TableAlignment>)
    ensures
        res@ == alignments@,
{
    let mut res: Vec<TableAlignment> = Vec::new();
    let mut k: usize = 0;
    while k < alignments.len()
        invariant
            k <= alignments@.len(),
            res@ == alignments@.take(k as int),
        decreases alignments.len() - k,
    {
        res.push(alignments[k]);
        k = k + 1;
        assert(res@ =~= alignments@.take(k as int));
    }
    assert(alignments@.take(k as int) =~= alignments@);
    res
}

/// Adds the blocks of a paragraph: its runs when they hold text, then its images.
fn push_paragraph(blocks: &mut Vec<Block>, collected: CollectedInlines)
    ensures
        blocks_view(final(blocks)@) == blocks_view(old(blocks)@) + paragraph_blocks(
            inlines_view(collected.inlines@),
            image_pairs(collected.images@),
        ),
{
    let CollectedInlines { inlines, mut images } = collected;
    let ghost inl = inlines_view(inlines@);
    let ghost pairs = image_pairs(images@);
    let ghost start = blocks_view(blocks@);
    if inlines_have_text(&inlines) {
        proof {
            lemma_blocks_view_push(blocks@, Block::Paragraph(inlines));
        }
        blocks.push(Block::Paragraph(inlines));
    }
    let ghost with_text = blocks_view(blocks@);
    assert(with_text =~= start + (if has_text(inl) {
        seq![BlockView::Paragraph(inl)]
    } else {
        seq![]
    }));
    let ghost image_blocks = pairs.map_values(
        |im: (PathBuf, Seq<char>)| BlockView::Image { path: im.0, alt: im.1 },
    );
    let ghost mut k: int = 0;
    while images.len() > 0
        invariant
            k + images@.len() == pairs.len(),
            image_pairs(images@) == pairs.skip(k),
            0 <= k,
            blocks_view(blocks@) == with_text + image_blocks.take(k),
            image_blocks == pairs.map_values(
                |im: (PathBuf, Seq<char>)| BlockView::Image { path: im.0, alt: im.1 },
            ),
        decreases images.len(),
    {
        let ghost before = images@;
        let (path, alt) = images.remove(0);
        assert((path, alt@) == pairs[k]) by {
            assert(image_pairs(before)[0] == (path, alt@));
        }
        let ghost prev = blocks@;
        proof {
            lemma_blocks_view_push(blocks@, Block::Image { path, alt });
        }
        blocks.push(Block::Image { path, alt });
        proof {
            k = k + 1;
        }
        assert(image_pairs(images@) =~= pairs.skip(k)) by {
            assert(image_pairs(images@) =~= image_pairs(before).drop_first());
        }
        assert(image_blocks.take(k) =~= image_blocks.take(k - 1).push(
            BlockView::Image { path, alt: alt@ },
        ));
    }
    assert(image_blocks.take(k) =~= image_blocks);
}

/// Adds the title and blocks that the events of one Markdown segment give:
/// the first level-1 heading fills an empty title slot when `has_title_slot`,
/// and everything else is appended to `blocks`.
pub fn parse_event_blocks(
    events: &Vec<MdEvent>,
    base_dir: &Path,
    math_renderer: MathRenderer,
    has_title_slot: bool,
    title: &mut Option<Vec<Inline>>,
    blocks: &mut Vec<Block>,
) -> (res: Result<(), Error>)
    ensures
        match segment_from(
            events_view(events@),
            0,
            math_renderer,
            base_dir,
            has_title_slot,
            opt_inlines_view(*old(title)),
            blocks_view(old(blocks)@),
        ) {
            Ok((t, b)) => res is Ok && opt_inlines_view(*final(title)) == t && blocks_view(
                final(blocks)@,
            ) == b,
            Err(e) => res matches Err(err) && err@ == e,
        },
{
    let ghost ev = events_view(events@);
    let mut index: usize = 0;
    while index < events.len()
        invariant
            ev == events_view(events@),
            index <= events@.len(),
            segment_from(
                ev,
                index as int,
                math_renderer,
                base_dir,
                has_title_slot,
                opt_inlines_view(*title),
                blocks_view(blocks@),
            ) == segment_from(
                ev,
                0,
                math_renderer,
                base_dir,
                has_title_slot,
                opt_inlines_view(*old(title)),
                blocks_view(old(blocks)@),
            ),
        decreases events.len() - index,
    {
        let i = index;
        index = i + 1;
        assert(ev[i as int] == events@[i as int]@);
        match &events[i] {
            MdEvent::Start(MdTag::Heading(level)) => {
                let collected = collect_inlines(
                    events,
                    &mut index,
                    MdTagEnd::Heading(*level),
                    base_dir,
                    math_renderer,
                )?;
                if *level == 1 && has_title_slot && title.is_none() {
                    *title = Some(collected.inlines);
                } else {
                    let block = match body_heading_level(*level) {
                        Some(level) => Block::Heading { level, inlines: collected.inlines },
                        None => Block::Paragraph(collected.inlines),
                    };
                    proof {
                        lemma_blocks_view_push(blocks@, block);
                    }
                    blocks.push(block);
                }
            },
            MdEvent::Start(MdTag::Paragraph) => {
                let collected = collect_inlines(
                    events,
                    &mut index,
                    MdTagEnd::Paragraph,
                    base_dir,
                    math_renderer,
                )?;
                push_paragraph(blocks, collected);
            },
            MdEvent::Start(MdTag::List(first)) => {
                let list = collect_list(
                    events,
                    &mut index,
                    first.is_some(),
                    base_dir,
                    math_renderer,
                )?;
                proof {
                    lemma_blocks_view_push(blocks@, Block::List(list));
                }
                blocks.push(Block::List(list));
            },
            MdEvent::Start(MdTag::Table(alignments)) => {
                let table = collect_table(
                    events,
                    &mut index,
                    copy_alignments(alignments),
                    base_dir,
                    math_renderer,
                )?;
                proof {
                    lemma_blocks_view_push(blocks@, table);
                }
                blocks.push(table);
            },
            MdEvent::Start(MdTag::BlockQuote) => {
                let collected = collect_inlines(
                    events,
                    &mut index,
                    MdTagEnd::BlockQuote,
                    base_dir,
                    math_renderer,
                )?;
                proof {
                    lemma_blocks_view_push(blocks@, Block::Quote(collected.inlines));
                }
                blocks.push(Block::Quote(collected.inlines));
            },
            MdEvent::Start(MdTag::CodeBlock(info)) => {
                let math_name = chars_of("math");
                let mermaid_name = chars_of("mermaid");
                let (language, is_math, is_mermaid) = match info {
                    Some(value) => {
                        let lang = chars_of(value.as_str());
                        let is_math = chars_eq_ignore_ascii_case(
                            lang.as_slice(),
                            math_name.as_slice(),
                        );
                        if is_math && math_renderer == MathRenderer::Disabled {
                            return Err(Error::UnsupportedFeature("math"));
                        }
                        let is_mermaid = chars_eq_ignore_ascii_case(
                            lang.as_slice(),
                            mermaid_name.as_slice(),
                        );
                        (Some(value.clone()), is_math, is_mermaid)
                    },
                    None => (None, false, false),
                };
                let code = collect_code(events, &mut index);
                let block = if is_math {
                    Block::MathBlock(code)
                } else if is_mermaid {
                    Block::Mermaid { source: code }
                } else {
                    Block::CodeBlock { language, code }
                };
                proof {
                    lemma_blocks_view_push(blocks@, block);
                }
                blocks.push(block);
            },
            MdEvent::Start(MdTag::Image { dest_url, title: alt }) => {
                let block = Block::Image {
                    path: join_path(base_dir, dest_url.as_str()),
                    alt: alt.clone(),
                };
                proof {
                    lemma_blocks_view_push(blocks@, block);
                }
                blocks.push(block);
                skip_until(events, &mut index, MdTagEnd::Image);
            },
            _ => {},
        }
    }
    Ok(())
}

} // verus!
