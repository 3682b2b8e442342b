//! Markdown slide decks to the slide model.
//!
//! A deck is split into slides at lines that hold only `---`. Each slide is
//! split into Markdown runs and `::: columns` directives, each Markdown run
//! into Markdown text and `$$` display math, and the Markdown text is read
//! from the events that `pulldown_cmark` produces.
use vstd::prelude::*;
use vstd::string::*;

use std::path::Path;

use crate::error::{Error, ErrorView};
use crate::events::{markdown_event_list, markdown_events};
use crate::model::{
    block_view, blocks_view, columns_view, lemma_blocks_view_push, lemma_columns_view_len,
    lemma_columns_view_push, opt_inlines_view,
    slide_view, slides_view, Block, BlockView, ColumnBlock, ColumnsBlock, Inline, InlineView,
    Presentation, Slide, SlideView,
};
use crate::segment::{flat_outcome, lemma_segment_from_flat, parse_event_blocks, segment_from};
use crate::source_blocks::{
    attrs_view, directive_view, directives_bounded, lemma_sources_bounded_index,
    lemma_sources_view_index, lemma_sources_view_len, parse_source_blocks, source_blocks,
    sources_bounded, sources_view, text_message, DirectiveBlock, DirectiveView, SourceBlock,
    SourceBlockView,
};
use crate::style::MathRenderer;
use crate::text::{
    chars_eq, chars_of, is_blank, is_space, join_lines, join_with_newlines, lemma_lines_concat,
    lemma_lines_newline_end, lines, lines_from, slice_chars, split_lines, string_from_chars,
    strip_cr, texts_view, trim, trim_end, trim_start, trimmed,
};

verus! {

/// Why a math renderer cannot be used, if it cannot.
pub open spec fn renderer_check(r: MathRenderer) -> Result<(), ErrorView> {
    match r {
        MathRenderer::Disabled | MathRenderer::Literal => Ok(()),
        MathRenderer::External => Err(ErrorView::UnsupportedFeature("math renderer: external"@)),
        MathRenderer::Katex => Err(ErrorView::UnsupportedFeature("math renderer: katex"@)),
        MathRenderer::Typst => Err(ErrorView::UnsupportedFeature("math renderer: typst"@)),
        MathRenderer::Tectonic => Err(ErrorView::UnsupportedFeature("math renderer: tectonic"@)),
    }
}

/// Only the `none` and `literal` math renderers are implemented.
fn ensure_supported_math_renderer(math_renderer: MathRenderer) -> (res: Result<(), Error>)
    ensures
        match renderer_check(math_renderer) {
            Ok(()) => res is Ok,
            Err(e) => res matches Err(err) && err@ == e,
        },
{
    match math_renderer {
        MathRenderer::Disabled | MathRenderer::Literal => Ok(()),
        MathRenderer::External => Err(Error::UnsupportedFeature("math renderer: external")),
        MathRenderer::Katex => Err(Error::UnsupportedFeature("math renderer: katex")),
        MathRenderer::Typst => Err(Error::UnsupportedFeature("math renderer: typst")),
        MathRenderer::Tectonic => Err(Error::UnsupportedFeature("math renderer: tectonic")),
    }
}

/// The slide texts of `ls` from `i`: the lines between separator lines (lines
/// that trim to `---`), joined with newlines; `current` holds the lines of the
/// slide being read.
pub open spec fn slides_from(
    ls: Seq<Seq<char>>,
    i: int,
    current: Seq<Seq<char>>,
    slides: Seq<Seq<char>>,
) -> Seq<Seq<char>>
    decreases ls.len() - i,
{
    if i < 0 || i >= ls.len() {
        slides.push(join_lines(current))
    } else if trim(ls[i]) == "---"@ {
        slides_from(ls, i + 1, seq![], slides.push(join_lines(current)))
    } else {
        slides_from(ls, i + 1, current.push(ls[i]), slides)
    }
}

/// The slide texts of a deck.
pub open spec fn split_slides_spec(markdown: Seq<char>) -> Seq<Seq<char>> {
    slides_from(lines(markdown), 0, seq![], seq![])
}

/// Splits a deck into slide texts at lines that hold only `---`.
fn split_slides(markdown: &[char]) -> (res: Vec<Vec<char>>)
    ensures
        texts_view(res@) == split_slides_spec(markdown@),
{
    let all = split_lines(markdown);
    let separator = chars_of("---");
    let mut slides: Vec<Vec<char>> = Vec::new();
    let mut current: Vec<Vec<char>> = Vec::new();
    let mut i: usize = 0;
    assert(texts_view(slides@) =~= seq![]);
    assert(texts_view(current@) =~= seq![]);
    while i < all.len()
        invariant
            i <= all@.len(),
            separator@ == "---"@,
            slides_from(texts_view(all@), i as int, texts_view(current@), texts_view(slides@))
                == slides_from(lines(markdown@), 0, seq![], seq![]),
            texts_view(all@) == lines(markdown@),
        decreases all.len() - i,
    {
        let line = slice_chars(all[i].as_slice(), 0, all[i].len());
        assert(line@ =~= texts_view(all@)[i as int]);
        let t = trimmed(line.as_slice());
        if chars_eq(t.as_slice(), separator.as_slice()) {
            let ghost before = texts_view(slides@);
            slides.push(join_with_newlines(&current));
            assert(texts_view(slides@) =~= before.push(join_lines(texts_view(current@))));
            current.clear();
            assert(texts_view(current@) =~= seq![]);
        } else {
            let ghost before = texts_view(current@);
            current.push(line);
            assert(texts_view(current@) =~= before.push(texts_view(all@)[i as int]));
        }
        i = i + 1;
    }
    let ghost before = texts_view(slides@);
    slides.push(join_with_newlines(&current));
    assert(texts_view(slides@) =~= before.push(join_lines(texts_view(current@))));
    slides
}

/// A part of a Markdown run: Markdown text, or the source of a `$$` math block.
pub enum SlideSegment {
    Markdown(Vec<char>),
    MathBlock(Vec<char>),
}

pub enum SlideSegmentView {
    Markdown(Seq<char>),
    MathBlock(Seq<char>),
}

pub open spec fn segment_view(s: SlideSegment) -> SlideSegmentView {
    match s {
        SlideSegment::Markdown(m) => SlideSegmentView::Markdown(m@),
        SlideSegment::MathBlock(m) => SlideSegmentView::MathBlock(m@),
    }
}

pub open spec fn segments_view(s: Seq<SlideSegment>) -> Seq<SlideSegmentView> {
    s.map_values(|x: SlideSegment| segment_view(x))
}

/// `segs` followed by the Markdown text of `md`, when there is any line.
pub open spec fn push_text_segment(segs: Seq<SlideSegmentView>, md: Seq<Seq<char>>) -> Seq<
    SlideSegmentView,
> {
    if md.len() > 0 {
        segs.push(SlideSegmentView::Markdown(join_lines(md)))
    } else {
        segs
    }
}

/// The segments of `ls` from `i`: lines that trim to `$$` open and close math
/// blocks, which are refused when math is disabled or left open.
pub open spec fn display_from(
    ls: Seq<Seq<char>>,
    i: int,
    r: MathRenderer,
    segs: Seq<SlideSegmentView>,
    md: Seq<Seq<char>>,
    math: Seq<Seq<char>>,
    in_math: bool,
) -> Result<Seq<SlideSegmentView>, ErrorView>
    decreases ls.len() - i,
{
    if i < 0 || i >= ls.len() {
        if in_math {
            Err(ErrorView::UnsupportedFeature("unterminated math"@))
        } else {
            Ok(push_text_segment(segs, md))
        }
    } else {
        let line = ls[i];
        if trim(line) == "$$"@ {
            if r == MathRenderer::Disabled {
                Err(ErrorView::UnsupportedFeature("math"@))
            } else if in_math {
                display_from(
                    ls,
                    i + 1,
                    r,
                    segs.push(SlideSegmentView::MathBlock(join_lines(math))),
                    md,
                    seq![],
                    false,
                )
            } else {
                display_from(ls, i + 1, r, push_text_segment(segs, md), seq![], math, true)
            }
        } else if in_math {
            display_from(ls, i + 1, r, segs, md, math.push(line), true)
        } else {
            display_from(ls, i + 1, r, segs, md.push(line), math, false)
        }
    }
}

/// Inside an open math block, the lines up to the closing `$$` line are
/// gathered after those already read, and the block is closed with all of them.
proof fn lemma_math_run(
    ls: Seq<Seq<char>>,
    k: int,
    j: int,
    r: MathRenderer,
    segs: Seq<SlideSegmentView>,
    acc: Seq<Seq<char>>,
)
    requires
        0 <= k <= j < ls.len(),
        trim(ls[j]) == "$$"@,
        forall|m: int| k <= m < j ==> trim(#[trigger] ls[m]) != "$$"@,
        r != MathRenderer::Disabled,
    ensures
        display_from(ls, k, r, segs, seq![], acc, true) == display_from(
            ls,
            j + 1,
            r,
            segs.push(SlideSegmentView::MathBlock(join_lines(acc + ls.subrange(k, j)))),
            seq![],
            seq![],
            false,
        ),
    decreases j - k,
{
    if k == j {
        assert(acc + ls.subrange(k, j) =~= acc);
    } else {
        assert(trim(ls[k]) != "$$"@);
        lemma_math_run(ls, k + 1, j, r, segs, acc.push(ls[k]));
        assert(acc.push(ls[k]) + ls.subrange(k + 1, j) =~= acc + ls.subrange(k, j));
    }
}

/// A `$$` line outside math opens a math block that the next `$$` line
/// closes: the Markdown read before it is ended, and the block's source is
/// every line strictly between the two, joined with newlines; reading goes on
/// after the closing line.
pub proof fn law_display_math_keeps_every_line(
    ls: Seq<Seq<char>>,
    i: int,
    j: int,
    r: MathRenderer,
    segs: Seq<SlideSegmentView>,
    md: Seq<Seq<char>>,
)
    requires
        0 <= i < j < ls.len(),
        trim(ls[i]) == "$$"@,
        trim(ls[j]) == "$$"@,
        forall|m: int| i < m < j ==> trim(#[trigger] ls[m]) != "$$"@,
        r != MathRenderer::Disabled,
    ensures
        display_from(ls, i, r, segs, md, seq![], false) == display_from(
            ls,
            j + 1,
            r,
            push_text_segment(segs, md).push(
                SlideSegmentView::MathBlock(join_lines(ls.subrange(i + 1, j))),
            ),
            seq![],
            seq![],
            false,
        ),
{
    lemma_math_run(ls, i + 1, j, r, push_text_segment(segs, md), seq![]);
    assert(seq![] + ls.subrange(i + 1, j) =~= ls.subrange(i + 1, j));
}

pub open spec fn display_segments(markdown: Seq<char>, r: MathRenderer) -> Result<
    Seq<SlideSegmentView>,
    ErrorView,
> {
    display_from(lines(markdown), 0, r, seq![], seq![], seq![], false)
}

/// Splits a Markdown run into Markdown text and `$$` math blocks.
fn split_display_math(markdown: &[char], math_renderer: MathRenderer) -> (res: Result<
    Vec<SlideSegment>,
    Error,
>)
    ensures
        match display_segments(markdown@, math_renderer) {
            Ok(s) => res matches Ok(v) && segments_view(v@) == s,
            Err(e) => res matches Err(err) && err@ == e,
        },
{
    let all = split_lines(markdown);
    let marker = chars_of("$$");
    let mut segments: Vec<SlideSegment> = Vec::new();
    let mut markdown_lines: Vec<Vec<char>> = Vec::new();
    let mut math_lines: Vec<Vec<char>> = Vec::new();
    let mut in_math = false;
    let mut i: usize = 0;
    assert(segments_view(segments@) =~= seq![]);
    assert(texts_view(markdown_lines@) =~= seq![]);
    assert(texts_view(math_lines@) =~= seq![]);
    while i < all.len()
        invariant
            i <= all@.len(),
            marker@ == "$$"@,
            texts_view(all@) == lines(markdown@),
            display_from(
                texts_view(all@),
                i as int,
                math_renderer,
                segments_view(segments@),
                texts_view(markdown_lines@),
                texts_view(math_lines@),
                in_math,
            ) == display_segments(markdown@, math_renderer),
        decreases all.len() - i,
    {
        let line = slice_chars(all[i].as_slice(), 0, all[i].len());
        assert(line@ =~= texts_view(all@)[i as int]);
        let t = trimmed(line.as_slice());
        let ghost segs = segments_view(segments@);
        let ghost md = texts_view(markdown_lines@);
        let ghost math = texts_view(math_lines@);
        if chars_eq(t.as_slice(), marker.as_slice()) {
            if math_renderer == MathRenderer::Disabled {
                return Err(Error::UnsupportedFeature("math"));
            }
            if in_math {
                let source = join_with_newlines(&math_lines);
                segments.push(SlideSegment::MathBlock(source));
                assert(segments_view(segments@) =~= segs.push(
                    SlideSegmentView::MathBlock(join_lines(math)),
                ));
                math_lines.clear();
                assert(texts_view(math_lines@) =~= seq![]);
                in_math = false;
            } else {
                if markdown_lines.len() > 0 {
                    let text = join_with_newlines(&markdown_lines);
                    segments.push(SlideSegment::Markdown(text));
                    assert(segments_view(segments@) =~= segs.push(
                        SlideSegmentView::Markdown(join_lines(md)),
                    ));
                    markdown_lines.clear();
                }
                assert(texts_view(markdown_lines@) =~= seq![]);
                in_math = true;
            }
        } else if in_math {
            math_lines.push(line);
            assert(texts_view(math_lines@) =~= math.push(texts_view(all@)[i as int]));
        } else {
            markdown_lines.push(line);
            assert(texts_view(markdown_lines@) =~= md.push(texts_view(all@)[i as int]));
        }
        i = i + 1;
    }
    if in_math {
        return Err(Error::UnsupportedFeature("unterminated math"));
    }
    if markdown_lines.len() > 0 {
        let ghost segs = segments_view(segments@);
        let text = join_with_newlines(&markdown_lines);
        segments.push(SlideSegment::Markdown(text));
        assert(segments_view(segments@) =~= segs.push(
            SlideSegmentView::Markdown(join_lines(texts_view(markdown_lines@))),
        ));
    }
    Ok(segments)
}

/// The title and blocks that a Markdown run adds: its text segments are read
/// from their Markdown events, its math blocks are kept as source text.
pub open spec fn segments_fold(
    segs: Seq<SlideSegmentView>,
    r: MathRenderer,
    base_dir: &Path,
    slot: bool,
    title: Option<Seq<InlineView>>,
    blocks: Seq<BlockView>,
) -> Result<(Option<Seq<InlineView>>, Seq<BlockView>), ErrorView>
    decreases segs.len(),
{
    if segs.len() == 0 {
        Ok((title, blocks))
    } else {
        match segs[0] {
            SlideSegmentView::Markdown(x) => match segment_from(
                markdown_events(x),
                0,
                r,
                base_dir,
                slot,
                title,
                blocks,
            ) {
                Ok((t, b)) => segments_fold(segs.drop_first(), r, base_dir, slot, t, b),
                Err(e) => Err(e),
            },
            SlideSegmentView::MathBlock(source) => {
                if r == MathRenderer::Disabled {
                    Err(ErrorView::UnsupportedFeature("math"@))
                } else {
                    segments_fold(
                        segs.drop_first(),
                        r,
                        base_dir,
                        slot,
                        title,
                        blocks.push(BlockView::MathBlock(source)),
                    )
                }
            },
        }
    }
}

/// The title and blocks that a Markdown run adds.
pub open spec fn markdown_source(
    markdown: Seq<char>,
    r: MathRenderer,
    base_dir: &Path,
    slot: bool,
    title: Option<Seq<InlineView>>,
    blocks: Seq<BlockView>,
) -> Result<(Option<Seq<InlineView>>, Seq<BlockView>), ErrorView> {
    match display_segments(markdown, r) {
        Ok(segs) => segments_fold(segs, r, base_dir, slot, title, blocks),
        Err(e) => Err(e),
    }
}

/// The error for a directive that is not `columns`.
pub open spec fn directive_error(name: Seq<char>) -> ErrorView {
    if name == "column"@ {
        ErrorView::InvalidMarkdown("column directive must be inside columns"@)
    } else {
        ErrorView::InvalidMarkdown("unknown directive: "@ + name)
    }
}

/// Refuses attributes on a directive named `name`.
pub open spec fn attrs_check(name: Seq<char>, attrs: Seq<(Seq<char>, Seq<char>)>) -> Result<
    (),
    ErrorView,
> {
    if attrs.len() > 0 {
        Err(ErrorView::InvalidMarkdown("unknown attribute on "@ + name + " directive: "@ + attrs[0].0))
    } else {
        Ok(())
    }
}

/// The title and blocks that the source text of a slide, or of a column,
/// adds. The recursion into columns is measured by line counts: the runs
/// inside a directive have fewer lines than the text around it.
pub open spec fn source_markdown(
    markdown: Seq<char>,
    r: MathRenderer,
    base_dir: &Path,
    slot: bool,
    title: Option<Seq<InlineView>>,
    blocks: Seq<BlockView>,
) -> Result<(Option<Seq<InlineView>>, Seq<BlockView>), ErrorView>
    decreases lines(markdown).len(), 1int, markdown, 0int,
{
    match source_blocks(markdown) {
        Ok(sbs) => sources_fold(sbs, lines(markdown).len() as int, r, base_dir, slot, title, blocks),
        Err(e) => Err(e),
    }
}

/// The title and blocks of the source blocks `sbs` of a text of `bound` lines.
pub open spec fn sources_fold(
    sbs: Seq<SourceBlockView>,
    bound: int,
    r: MathRenderer,
    base_dir: &Path,
    slot: bool,
    title: Option<Seq<InlineView>>,
    blocks: Seq<BlockView>,
) -> Result<(Option<Seq<InlineView>>, Seq<BlockView>), ErrorView>
    decreases bound, 0int, sbs, 1int,
{
    if sbs.len() == 0 {
        Ok((title, blocks))
    } else {
        match sbs[0] {
            SourceBlockView::Markdown(m) => match markdown_source(m, r, base_dir, slot, title, blocks) {
                Ok((t, b)) => sources_fold(sbs.drop_first(), bound, r, base_dir, slot, t, b),
                Err(e) => Err(e),
            },
            SourceBlockView::Directive(d) => match convert_directive_spec(d, bound, r, base_dir) {
                Ok(block) => sources_fold(sbs.drop_first(), bound, r, base_dir, slot, title, blocks.push(block)),
                Err(e) => Err(e),
            },
        }
    }
}

/// The block of a directive found in a text of `bound` lines: only `columns`
/// makes a block.
pub open spec fn convert_directive_spec(d: DirectiveView, bound: int, r: MathRenderer, base_dir: &Path) -> Result<
    BlockView,
    ErrorView,
>
    decreases bound, 0int, d, 1int,
{
    if d.name == "columns"@ {
        convert_columns_spec(d, bound, r, base_dir)
    } else {
        Err(directive_error(d.name))
    }
}

/// The block of a `columns` directive: exactly two `column` directives, no
/// attributes, no other content.
pub open spec fn convert_columns_spec(d: DirectiveView, bound: int, r: MathRenderer, base_dir: &Path) -> Result<
    BlockView,
    ErrorView,
>
    decreases bound, 0int, d, 0int,
{
    match attrs_check("columns"@, d.attrs) {
        Err(e) => Err(e),
        Ok(_) => match columns_fold(d.children, bound, r, base_dir, seq![]) {
            Err(e) => Err(e),
            Ok(cols) => {
                if cols.len() != 2 {
                    Err(
                        ErrorView::InvalidMarkdown(
                            "columns directive must contain exactly two column directives"@,
                        ),
                    )
                } else {
                    Ok(BlockView::Columns(cols))
                }
            },
        },
    }
}

/// The columns of the contents of a `columns` directive.
pub open spec fn columns_fold(
    children: Seq<SourceBlockView>,
    bound: int,
    r: MathRenderer,
    base_dir: &Path,
    cols: Seq<Seq<BlockView>>,
) -> Result<Seq<Seq<BlockView>>, ErrorView>
    decreases bound, 0int, children, 0int,
{
    if children.len() == 0 {
        Ok(cols)
    } else {
        match children[0] {
            SourceBlockView::Markdown(_) => Err(
                ErrorView::InvalidMarkdown("columns directive may contain only column directives"@),
            ),
            SourceBlockView::Directive(col) => {
                if col.name != "column"@ {
                    Err(
                        ErrorView::InvalidMarkdown(
                            "columns directive may contain only column directives"@,
                        ),
                    )
                } else {
                    match attrs_check("column"@, col.attrs) {
                        Err(e) => Err(e),
                        Ok(_) => match column_fold(col.children, bound, r, base_dir, seq![]) {
                            Err(e) => Err(e),
                            Ok(blocks) => columns_fold(
                                children.drop_first(),
                                bound,
                                r,
                                base_dir,
                                cols.push(blocks),
                            ),
                        },
                    }
                }
            },
        }
    }
}

/// The blocks of the contents of one `column` directive. A Markdown run there
/// always has fewer lines than `bound`; the comparison only makes the
/// recursion's measure evident.
pub open spec fn column_fold(
    children: Seq<SourceBlockView>,
    bound: int,
    r: MathRenderer,
    base_dir: &Path,
    blocks: Seq<BlockView>,
) -> Result<Seq<BlockView>, ErrorView>
    decreases bound, 0int, children, 0int,
{
    if children.len() == 0 {
        Ok(blocks)
    } else {
        match children[0] {
            SourceBlockView::Markdown(m) => {
                if lines(m).len() < bound {
                    match source_markdown(m, r, base_dir, false, None, blocks) {
                        Ok((_t, b)) => column_fold(children.drop_first(), bound, r, base_dir, b),
                        Err(e) => Err(e),
                    }
                } else {
                    Err(ErrorView::InvalidMarkdown(m))
                }
            },
            SourceBlockView::Directive(nested) => {
                if nested.name == "columns"@ {
                    Err(ErrorView::InvalidMarkdown("nested columns directives are not supported"@))
                } else {
                    match convert_directive_spec(nested, bound, r, base_dir) {
                        Ok(block) => column_fold(children.drop_first(), bound, r, base_dir, blocks.push(block)),
                        Err(e) => Err(e),
                    }
                }
            },
        }
    }
}


/// Reads one Markdown text segment from its `pulldown_cmark` events.
fn parse_markdown_segment(
    markdown: &[char],
    base_dir: &Path,
    math_renderer: MathRenderer,
    has_title_slot: bool,
    title: &mut Option<Vec<Inline>>,
    blocks: &mut Vec<Block>,
) -> (res: Result<(), Error>)
    ensures
        match segment_from(
            markdown_events(markdown@),
            0,
            math_renderer,
            base_dir,
            has_title_slot,
            opt_inlines_view(*old(title)),
            blocks_view(old(blocks)@),
        ) {
            Ok((t, b)) => res is Ok && opt_inlines_view(*final(title)) == t && blocks_view(
                final(blocks)@,
            ) == b,
            Err(e) => res matches Err(err) && err@ == e,
        },
{
    let source = string_from_chars(markdown);
    let events = markdown_event_list(source.as_str());
    parse_event_blocks(&events, base_dir, math_renderer, has_title_slot, title, blocks)
}

/// Reads a Markdown run: its text segments as Markdown, its `$$` blocks as math.
fn parse_markdown_source(
    markdown: &[char],
    base_dir: &Path,
    math_renderer: MathRenderer,
    has_title_slot: bool,
    title: &mut Option<Vec<Inline>>,
    blocks: &mut Vec<Block>,
) -> (res: Result<(), Error>)
    ensures
        match markdown_source(
            markdown@,
            math_renderer,
            base_dir,
            has_title_slot,
            opt_inlines_view(*old(title)),
            blocks_view(old(blocks)@),
        ) {
            Ok((t, b)) => res is Ok && opt_inlines_view(*final(title)) == t && blocks_view(
                final(blocks)@,
            ) == b,
            Err(e) => res matches Err(err) && err@ == e,
        },
{
    let segments = match split_display_math(markdown, math_renderer) {
        Ok(s) => s,
        Err(e) => return Err(e),
    };
    let ghost sv = segments_view(segments@);
    let ghost target = markdown_source(
        markdown@,
        math_renderer,
        base_dir,
        has_title_slot,
        opt_inlines_view(*old(title)),
        blocks_view(old(blocks)@),
    );
    let mut i: usize = 0;
    assert(sv.skip(0) =~= sv);
    while i < segments.len()
        invariant
            i <= segments@.len(),
            sv == segments_view(segments@),
            sv.len() == segments@.len(),
            target == markdown_source(
                markdown@,
                math_renderer,
                base_dir,
                has_title_slot,
                opt_inlines_view(*old(title)),
                blocks_view(old(blocks)@),
            ),
            segments_fold(
                sv.skip(i as int),
                math_renderer,
                base_dir,
                has_title_slot,
                opt_inlines_view(*title),
                blocks_view(blocks@),
            ) == target,
        decreases segments.len() - i,
    {
        let ghost rest = sv.skip(i as int);
        assert(rest[0] == sv[i as int]);
        assert(sv[i as int] == segment_view(segments@[i as int]));
        assert(rest.drop_first() =~= sv.skip(i + 1));
        match &segments[i] {
            SlideSegment::Markdown(m) => {
                assert(rest[0] == SlideSegmentView::Markdown(m@));
                let r = parse_markdown_segment(
                    m.as_slice(),
                    base_dir,
                    math_renderer,
                    has_title_slot,
                    title,
                    blocks,
                );
                if r.is_err() {
                    return r;
                }
            },
            SlideSegment::MathBlock(source) => {
                assert(rest[0] == SlideSegmentView::MathBlock(source@));
                if math_renderer == MathRenderer::Disabled {
                    return Err(Error::UnsupportedFeature("math"));
                }
                let text = string_from_chars(source.as_slice());
                proof {
                    lemma_blocks_view_push(blocks@, Block::MathBlock(text));
                }
                blocks.push(Block::MathBlock(text));
            },
        }
        i = i + 1;
    }
    assert(sv.skip(i as int) =~= seq![]);
    Ok(())
}


/// Refuses any attribute on the directive named `name`.
fn reject_attrs(name: &str, attrs: &Vec<(Vec<char>, Vec<char>)>) -> (res: Result<(), Error>)
    ensures
        match attrs_check(name@, attrs_view(attrs@)) {
            Ok(()) => res is Ok,
            Err(e) => res matches Err(err) && err@ == e,
        },
{
    if attrs.len() > 0 {
        let key = string_from_chars(attrs[0].0.as_slice());
        let message = String::from_str("unknown attribute on ").concat(name).concat(
            " directive: ",
        ).concat(key.as_str());
        return Err(Error::InvalidMarkdown(message));
    }
    Ok(())
}

/// The error for a directive other than `columns` found where a block may stand.
fn directive_name_error(name: &[char]) -> (res: Error)
    ensures
        res@ == directive_error(name@),
{
    let column = chars_of("column");
    if chars_eq(name, column.as_slice()) {
        Error::InvalidMarkdown(String::from_str("column directive must be inside columns"))
    } else {
        Error::InvalidMarkdown(text_message("unknown directive: ", name))
    }
}

/// The block of a directive found in a slide text of `bound` lines.
fn convert_directive(
    directive: &DirectiveBlock,
    Ghost(bound): Ghost<int>,
    base_dir: &Path,
    math_renderer: MathRenderer,
) -> (res: Result<Block, Error>)
    requires
        sources_bounded(directive_view(*directive).children, bound - 1),
    ensures
        match convert_directive_spec(directive_view(*directive), bound, math_renderer, base_dir) {
            Ok(b) => res matches Ok(x) && block_view(x) == b,
            Err(e) => res matches Err(err) && err@ == e,
        },
    decreases bound, 0int, 2int,
{
    let columns = chars_of("columns");
    if chars_eq(directive.name.as_slice(), columns.as_slice()) {
        convert_columns_directive(directive, Ghost(bound), base_dir, math_renderer)
    } else {
        Err(directive_name_error(directive.name.as_slice()))
    }
}

/// The two-column block of a `columns` directive.
fn convert_columns_directive(
    directive: &DirectiveBlock,
    Ghost(bound): Ghost<int>,
    base_dir: &Path,
    math_renderer: MathRenderer,
) -> (res: Result<Block, Error>)
    requires
        sources_bounded(directive_view(*directive).children, bound - 1),
    ensures
        match convert_columns_spec(directive_view(*directive), bound, math_renderer, base_dir) {
            Ok(b) => res matches Ok(x) && block_view(x) == b,
            Err(e) => res matches Err(err) && err@ == e,
        },
    decreases bound, 0int, 1int,
{
    let ghost dv = directive_view(*directive);
    let checked = reject_attrs("columns", &directive.attrs);
    if let Err(e) = checked {
        return Err(e);
    }
    let ghost kids = dv.children;
    let children = &directive.children;
    proof {
        lemma_sources_view_len(children@);
    }
    let mut columns: Vec<ColumnBlock> = Vec::new();
    let mut i: usize = 0;
    assert(kids.skip(0) =~= kids);
    while i < children.len()
        invariant
            i <= children@.len(),
            kids == sources_view(children@),
            kids == dv.children,
            dv == directive_view(*directive),
            attrs_check("columns"@, dv.attrs) is Ok,
            kids.len() == children@.len(),
            sources_bounded(kids, bound - 1),
            columns_fold(kids.skip(i as int), bound, math_renderer, base_dir, columns_view(columns@))
                == columns_fold(kids, bound, math_renderer, base_dir, seq![]),
        decreases children.len() - i,
    {
        let ghost rest = kids.skip(i as int);
        proof {
            lemma_sources_view_index(children@, i as int);
            lemma_sources_bounded_index(kids, bound - 1, i as int);
        }
        assert(rest[0] == kids[i as int]);
        assert(rest.drop_first() =~= kids.skip(i + 1));
        let column = match &children[i] {
            SourceBlock::Markdown(_) => {
                assert(rest[0] is Markdown);
                return Err(
                    Error::InvalidMarkdown(
                        String::from_str("columns directive may contain only column directives"),
                    ),
                );
            },
            SourceBlock::Directive(column) => column,
        };
        assert(rest[0] == SourceBlockView::Directive(directive_view(*column)));
        let column_name = chars_of("column");
        if !chars_eq(column.name.as_slice(), column_name.as_slice()) {
            return Err(
                Error::InvalidMarkdown(
                    String::from_str("columns directive may contain only column directives"),
                ),
            );
        }
        let checked = reject_attrs("column", &column.attrs);
        if let Err(e) = checked {
            return Err(e);
        }
        let blocks = match convert_column(column, Ghost(bound), base_dir, math_renderer) {
            Ok(b) => b,
            Err(e) => return Err(e),
        };
        proof {
            lemma_columns_view_push(columns@, ColumnBlock { blocks });
        }
        columns.push(ColumnBlock { blocks });
        i = i + 1;
    }
    assert(kids.skip(i as int) =~= seq![]);
    if columns.len() != 2 {
        proof {
            lemma_columns_view_len(columns@);
        }
        return Err(
            Error::InvalidMarkdown(
                String::from_str("columns directive must contain exactly two column directives"),
            ),
        );
    }
    proof {
        lemma_columns_view_len(columns@);
    }
    Ok(Block::Columns(ColumnsBlock { columns }))
}

/// The blocks of one `column` directive inside a slide text of `bound` lines.
fn convert_column(
    column: &DirectiveBlock,
    Ghost(bound): Ghost<int>,
    base_dir: &Path,
    math_renderer: MathRenderer,
) -> (res: Result<Vec<Block>, Error>)
    requires
        sources_bounded(directive_view(*column).children, bound - 1),
    ensures
        match column_fold(directive_view(*column).children, bound, math_renderer, base_dir, seq![]) {
            Ok(b) => res matches Ok(x) && blocks_view(x@) == b,
            Err(e) => res matches Err(err) && err@ == e,
        },
    decreases bound, 0int, 0int,
{
    let ghost kids = directive_view(*column).children;
    let children = &column.children;
    proof {
        lemma_sources_view_len(children@);
    }
    let mut blocks: Vec<Block> = Vec::new();
    let mut i: usize = 0;
    assert(kids.skip(0) =~= kids);
    assert(blocks_view(blocks@) =~= seq![]);
    while i < children.len()
        invariant
            i <= children@.len(),
            kids == sources_view(children@),
            kids == directive_view(*column).children,
            kids.len() == children@.len(),
            sources_bounded(kids, bound - 1),
            column_fold(kids.skip(i as int), bound, math_renderer, base_dir, blocks_view(blocks@))
                == column_fold(kids, bound, math_renderer, base_dir, seq![]),
        decreases children.len() - i,
    {
        let ghost rest = kids.skip(i as int);
        proof {
            lemma_sources_view_index(children@, i as int);
            lemma_sources_bounded_index(kids, bound - 1, i as int);
        }
        assert(rest[0] == kids[i as int]);
        assert(rest.drop_first() =~= kids.skip(i + 1));
        match &children[i] {
            SourceBlock::Markdown(m) => {
                let mut no_title: Option<Vec<Inline>> = None;
                let r = parse_source_markdown(
                    m.as_slice(),
                    base_dir,
                    math_renderer,
                    false,
                    &mut no_title,
                    &mut blocks,
                );
                if let Err(e) = r {
                    return Err(e);
                }
            },
            SourceBlock::Directive(nested) => {
                let columns = chars_of("columns");
                if chars_eq(nested.name.as_slice(), columns.as_slice()) {
                    return Err(
                        Error::InvalidMarkdown(
                            String::from_str("nested columns directives are not supported"),
                        ),
                    );
                }
                assert(rest[0] == SourceBlockView::Directive(directive_view(*nested)));
                assert(convert_directive_spec(directive_view(*nested), bound, math_renderer, base_dir) == Err::<
                    BlockView,
                    ErrorView,
                >(directive_error(nested.name@)));
                return Err(directive_name_error(nested.name.as_slice()));
            },
        }
        i = i + 1;
    }
    assert(kids.skip(i as int) =~= seq![]);
    Ok(blocks)
}

/// Reads the source text of a slide, or of a column: Markdown runs and directives.
fn parse_source_markdown(
    markdown: &[char],
    base_dir: &Path,
    math_renderer: MathRenderer,
    has_title_slot: bool,
    title: &mut Option<Vec<Inline>>,
    blocks: &mut Vec<Block>,
) -> (res: Result<(), Error>)
    ensures
        match source_markdown(
            markdown@,
            math_renderer,
            base_dir,
            has_title_slot,
            opt_inlines_view(*old(title)),
            blocks_view(old(blocks)@),
        ) {
            Ok((t, b)) => res is Ok && opt_inlines_view(*final(title)) == t && blocks_view(
                final(blocks)@,
            ) == b,
            Err(e) => res matches Err(err) && err@ == e,
        },
    decreases lines(markdown@).len(), 1int, 0int,
{
    let sources = match parse_source_blocks(markdown) {
        Ok(s) => s,
        Err(e) => return Err(e),
    };
    let ghost bound = lines(markdown@).len() as int;
    let ghost sv = sources_view(sources@);
    let ghost target = source_markdown(
        markdown@,
        math_renderer,
        base_dir,
        has_title_slot,
        opt_inlines_view(*old(title)),
        blocks_view(old(blocks)@),
    );
    proof {
        lemma_sources_view_len(sources@);
    }
    let mut i: usize = 0;
    assert(sv.skip(0) =~= sv);
    while i < sources.len()
        invariant
            i <= sources@.len(),
            sv == sources_view(sources@),
            sv.len() == sources@.len(),
            directives_bounded(sv, bound - 1),
            bound == lines(markdown@).len(),
            target == source_markdown(
                markdown@,
                math_renderer,
                base_dir,
                has_title_slot,
                opt_inlines_view(*old(title)),
                blocks_view(old(blocks)@),
            ),
            sources_fold(
                sv.skip(i as int),
                bound,
                math_renderer,
                base_dir,
                has_title_slot,
                opt_inlines_view(*title),
                blocks_view(blocks@),
            ) == target,
        decreases sources.len() - i,
    {
        let ghost rest = sv.skip(i as int);
        proof {
            lemma_sources_view_index(sources@, i as int);
        }
        assert(rest[0] == sv[i as int]);
        assert(rest.drop_first() =~= sv.skip(i + 1));
        match &sources[i] {
            SourceBlock::Markdown(m) => {
                let r = parse_markdown_source(
                    m.as_slice(),
                    base_dir,
                    math_renderer,
                    has_title_slot,
                    title,
                    blocks,
                );
                if r.is_err() {
                    return r;
                }
            },
            SourceBlock::Directive(d) => {
                assert(sv[i as int] matches SourceBlockView::Directive(dv) && dv == directive_view(*d));
                let block = match convert_directive(d, Ghost(bound), base_dir, math_renderer) {
                    Ok(b) => b,
                    Err(e) => return Err(e),
                };
                proof {
                    lemma_blocks_view_push(blocks@, block);
                }
                blocks.push(block);
            },
        }
        i = i + 1;
    }
    assert(sv.skip(i as int) =~= seq![]);
    Ok(())
}


/// A deck's text without a leading byte order mark.
pub open spec fn strip_bom(markdown: Seq<char>) -> Seq<char> {
    if markdown.len() > 0 && markdown[0] == '\u{feff}' {
        markdown.skip(1)
    } else {
        markdown
    }
}

/// The slide read from one slide text: its first `#` heading is the title.
#[verifier::opaque]
pub open spec fn slide_spec(text: Seq<char>, r: MathRenderer, base_dir: &Path) -> Result<SlideView, ErrorView> {
    match source_markdown(text, r, base_dir, true, None, seq![]) {
        Ok((t, b)) => Ok(SlideView { title: t, blocks: b }),
        Err(e) => Err(e),
    }
}

/// The slides of the slide texts `texts`, after `acc`; blank texts make no slide.
pub open spec fn slides_fold(texts: Seq<Seq<char>>, r: MathRenderer, base_dir: &Path, acc: Seq<SlideView>) -> Result<
    Seq<SlideView>,
    ErrorView,
>
    decreases texts.len(),
{
    if texts.len() == 0 {
        Ok(acc)
    } else if trim(texts[0]).len() == 0 {
        slides_fold(texts.drop_first(), r, base_dir, acc)
    } else {
        match slide_spec(texts[0], r, base_dir) {
            Ok(slide) => slides_fold(texts.drop_first(), r, base_dir, acc.push(slide)),
            Err(e) => Err(e),
        }
    }
}

/// The slides of a deck, or why it is refused.
pub open spec fn presentation_spec(markdown: Seq<char>, r: MathRenderer, base_dir: &Path) -> Result<
    Seq<SlideView>,
    ErrorView,
> {
    match renderer_check(r) {
        Err(e) => Err(e),
        Ok(()) => slides_fold(split_slides_spec(strip_bom(markdown)), r, base_dir, seq![]),
    }
}

/// Reads one slide text.
fn parse_slide(markdown: &[char], base_dir: &Path, math_renderer: MathRenderer) -> (res: Result<
    Slide,
    Error,
>)
    ensures
        match slide_spec(markdown@, math_renderer, base_dir) {
            Ok(s) => res matches Ok(slide) && slide_view(slide) == s,
            Err(e) => res matches Err(err) && err@ == e,
        },
{
    reveal(slide_spec);
    let mut title: Option<Vec<Inline>> = None;
    let mut blocks: Vec<Block> = Vec::new();
    assert(blocks_view(blocks@) =~= seq![]);
    match parse_source_markdown(markdown, base_dir, math_renderer, true, &mut title, &mut blocks) {
        Ok(()) => Ok(Slide { title, blocks }),
        Err(e) => Err(e),
    }
}

/// Reads a Markdown deck into a presentation. Slides are separated by lines
/// that hold only `---`; blank slides are dropped; a leading byte order mark is
/// ignored. Only the `none` and `literal` math renderers are accepted.
pub fn parse_markdown(markdown: &str, base_dir: &Path, math_renderer: MathRenderer) -> (res:
    Result<Presentation, Error>)
    ensures
        match presentation_spec(markdown@, math_renderer, base_dir) {
            Ok(s) => res matches Ok(p) && slides_view(p.slides@) == s,
            Err(e) => res matches Err(err) && err@ == e,
        },
{
    if let Err(e) = ensure_supported_math_renderer(math_renderer) {
        return Err(e);
    }
    let all = chars_of(markdown);
    let text = if all.len() > 0 && all[0] == '\u{feff}' {
        slice_chars(all.as_slice(), 1, all.len())
    } else {
        all
    };
    assert(text@ =~= strip_bom(markdown@));
    let raw_slides = split_slides(text.as_slice());
    let ghost texts = texts_view(raw_slides@);
    let ghost target = slides_fold(texts, math_renderer, base_dir, seq![]);
    let mut slides: Vec<Slide> = Vec::new();
    let mut i: usize = 0;
    assert(texts.skip(0) =~= texts);
    assert(slides_view(slides@) =~= seq![]);
    while i < raw_slides.len()
        invariant
            i <= raw_slides@.len(),
            texts == texts_view(raw_slides@),
            texts.len() == raw_slides@.len(),
            target == presentation_spec(markdown@, math_renderer, base_dir),
            slides_fold(texts.skip(i as int), math_renderer, base_dir, slides_view(slides@)) == target,
        decreases raw_slides.len() - i,
    {
        let ghost rest = texts.skip(i as int);
        assert(rest[0] == texts[i as int]);
        assert(texts[i as int] == raw_slides@[i as int]@);
        assert(rest.drop_first() =~= texts.skip(i + 1));
        if !is_blank(raw_slides[i].as_slice()) {
            let slide = match parse_slide(raw_slides[i].as_slice(), base_dir, math_renderer) {
                Ok(s) => s,
                Err(e) => return Err(e),
            };
            let ghost before = slides_view(slides@);
            slides.push(slide);
            assert(slides_view(slides@) =~= before.push(slide_view(slide)));
        }
        i = i + 1;
    }
    assert(texts.skip(i as int) =~= seq![]);
    Ok(Presentation { slides })
}


/// Every column layout in `b`, at any depth, has exactly two columns.
pub open spec fn two_columns(b: BlockView) -> bool
    decreases b,
{
    match b {
        BlockView::Columns(cols) => cols.len() == 2 && forall|i: int, j: int|
            0 <= i < cols.len() && 0 <= j < cols[i].len() ==> two_columns(#[trigger] cols[i][j]),
        _ => true,
    }
}


/// Every block of `bs` has only two-column layouts.
pub open spec fn all_two_columns(bs: Seq<BlockView>) -> bool {
    forall|i: int| 0 <= i < bs.len() ==> two_columns(#[trigger] bs[i])
}

/// Every block of every column of `cols` has only two-column layouts.
pub open spec fn columns_two_columns(cols: Seq<Seq<BlockView>>) -> bool {
    forall|i: int, j: int| 0 <= i < cols.len() && 0 <= j < cols[i].len() ==> two_columns(#[trigger] cols[i][j])
}

/// What reading a text from title `t` and blocks `b` may hand back: blocks
/// whose column layouts all have two columns when those of `b` had, and the
/// title kept where it was set or where there is no title slot.
pub open spec fn kept_outcome(
    slot: bool,
    t: Option<Seq<InlineView>>,
    b: Seq<BlockView>,
    res: Result<(Option<Seq<InlineView>>, Seq<BlockView>), ErrorView>,
) -> bool {
    res matches Ok((t2, b2)) ==> (all_two_columns(b) ==> all_two_columns(b2)) && ((t is Some
        || !slot) ==> t2 == t)
}

proof fn lemma_kept_step(
    slot: bool,
    t: Option<Seq<InlineView>>,
    b: Seq<BlockView>,
    t1: Option<Seq<InlineView>>,
    b1: Seq<BlockView>,
    res: Result<(Option<Seq<InlineView>>, Seq<BlockView>), ErrorView>,
)
    requires
        all_two_columns(b) ==> all_two_columns(b1),
        (t is Some || !slot) ==> t1 == t,
        kept_outcome(slot, t1, b1, res),
    ensures
        kept_outcome(slot, t, b, res),
{
}

proof fn lemma_kept_push(b: Seq<BlockView>, x: BlockView)
    requires
        two_columns(x),
    ensures
        all_two_columns(b) ==> all_two_columns(b.push(x)),
{
    if all_two_columns(b) {
        assert forall|i: int| 0 <= i < b.push(x).len() implies two_columns(#[trigger] b.push(x)[i]) by {
            if i < b.len() {
                assert(b.push(x)[i] == b[i]);
            }
        }
    }
}

proof fn lemma_kept_of_flat(
    slot: bool,
    t: Option<Seq<InlineView>>,
    b: Seq<BlockView>,
    res: Result<(Option<Seq<InlineView>>, Seq<BlockView>), ErrorView>,
)
    requires
        flat_outcome(slot, t, b, res),
    ensures
        kept_outcome(slot, t, b, res),
{
    if let Ok((t2, b2)) = res {
        if all_two_columns(b) {
            assert forall|i: int| 0 <= i < b2.len() implies two_columns(#[trigger] b2[i]) by {
                if i < b.len() {
                    assert(b2.take(b.len() as int)[i] == b2[i]);
                }
            }
        }
    }
}

proof fn lemma_segments_fold_kept(
    segs: Seq<SlideSegmentView>,
    r: MathRenderer,
    base_dir: &Path,
    slot: bool,
    title: Option<Seq<InlineView>>,
    blocks: Seq<BlockView>,
)
    ensures
        kept_outcome(slot, title, blocks, segments_fold(segs, r, base_dir, slot, title, blocks)),
    decreases segs.len(),
{
    if segs.len() > 0 {
        match segs[0] {
            SlideSegmentView::Markdown(x) => {
                let first = segment_from(markdown_events(x), 0, r, base_dir, slot, title, blocks);
                lemma_segment_from_flat(markdown_events(x), 0, r, base_dir, slot, title, blocks);
                lemma_kept_of_flat(slot, title, blocks, first);
                if let Ok((t, b)) = first {
                    lemma_segments_fold_kept(segs.drop_first(), r, base_dir, slot, t, b);
                    lemma_kept_step(
                        slot,
                        title,
                        blocks,
                        t,
                        b,
                        segments_fold(segs.drop_first(), r, base_dir, slot, t, b),
                    );
                }
            },
            SlideSegmentView::MathBlock(source) => {
                if r != MathRenderer::Disabled {
                    let b1 = blocks.push(BlockView::MathBlock(source));
                    lemma_segments_fold_kept(segs.drop_first(), r, base_dir, slot, title, b1);
                    lemma_kept_push(blocks, BlockView::MathBlock(source));
                    lemma_kept_step(
                        slot,
                        title,
                        blocks,
                        title,
                        b1,
                        segments_fold(segs.drop_first(), r, base_dir, slot, title, b1),
                    );
                }
            },
        }
    }
}

proof fn lemma_markdown_source_kept(
    markdown: Seq<char>,
    r: MathRenderer,
    base_dir: &Path,
    slot: bool,
    title: Option<Seq<InlineView>>,
    blocks: Seq<BlockView>,
)
    ensures
        kept_outcome(slot, title, blocks, markdown_source(markdown, r, base_dir, slot, title, blocks)),
{
    if let Ok(segs) = display_segments(markdown, r) {
        lemma_segments_fold_kept(segs, r, base_dir, slot, title, blocks);
    }
}

proof fn lemma_source_markdown_kept(
    markdown: Seq<char>,
    r: MathRenderer,
    base_dir: &Path,
    slot: bool,
    title: Option<Seq<InlineView>>,
    blocks: Seq<BlockView>,
)
    ensures
        kept_outcome(slot, title, blocks, source_markdown(markdown, r, base_dir, slot, title, blocks)),
    decreases lines(markdown).len(), 1int, markdown, 0int,
{
    if let Ok(sbs) = source_blocks(markdown) {
        lemma_sources_fold_kept(sbs, lines(markdown).len() as int, r, base_dir, slot, title, blocks);
    }
}

proof fn lemma_sources_fold_kept(
    sbs: Seq<SourceBlockView>,
    bound: int,
    r: MathRenderer,
    base_dir: &Path,
    slot: bool,
    title: Option<Seq<InlineView>>,
    blocks: Seq<BlockView>,
)
    ensures
        kept_outcome(slot, title, blocks, sources_fold(sbs, bound, r, base_dir, slot, title, blocks)),
    decreases bound, 0int, sbs, 1int,
{
    if sbs.len() > 0 {
        match sbs[0] {
            SourceBlockView::Markdown(m) => {
                let first = markdown_source(m, r, base_dir, slot, title, blocks);
                lemma_markdown_source_kept(m, r, base_dir, slot, title, blocks);
                if let Ok((t, b)) = first {
                    lemma_sources_fold_kept(sbs.drop_first(), bound, r, base_dir, slot, t, b);
                    lemma_kept_step(
                        slot,
                        title,
                        blocks,
                        t,
                        b,
                        sources_fold(sbs.drop_first(), bound, r, base_dir, slot, t, b),
                    );
                }
            },
            SourceBlockView::Directive(d) => {
                lemma_convert_directive_two(d, bound, r, base_dir);
                if let Ok(block) = convert_directive_spec(d, bound, r, base_dir) {
                    let b1 = blocks.push(block);
                    lemma_sources_fold_kept(sbs.drop_first(), bound, r, base_dir, slot, title, b1);
                    lemma_kept_push(blocks, block);
                    lemma_kept_step(
                        slot,
                        title,
                        blocks,
                        title,
                        b1,
                        sources_fold(sbs.drop_first(), bound, r, base_dir, slot, title, b1),
                    );
                }
            },
        }
    }
}

proof fn lemma_convert_directive_two(d: DirectiveView, bound: int, r: MathRenderer, base_dir: &Path)
    ensures
        convert_directive_spec(d, bound, r, base_dir) matches Ok(x) ==> two_columns(x),
    decreases bound, 0int, d, 1int,
{
    if d.name == "columns"@ {
        lemma_convert_columns_two(d, bound, r, base_dir);
    }
}

proof fn lemma_convert_columns_two(d: DirectiveView, bound: int, r: MathRenderer, base_dir: &Path)
    ensures
        convert_columns_spec(d, bound, r, base_dir) matches Ok(x) ==> two_columns(x),
    decreases bound, 0int, d, 0int,
{
    if attrs_check("columns"@, d.attrs) is Ok {
        lemma_columns_fold_two(d.children, bound, r, base_dir, seq![]);
    }
}

proof fn lemma_columns_fold_two(
    children: Seq<SourceBlockView>,
    bound: int,
    r: MathRenderer,
    base_dir: &Path,
    cols: Seq<Seq<BlockView>>,
)
    ensures
        columns_fold(children, bound, r, base_dir, cols) matches Ok(c2) ==> (columns_two_columns(cols)
            ==> columns_two_columns(c2)),
    decreases bound, 0int, children, 0int,
{
    if children.len() > 0 {
        if let SourceBlockView::Directive(col) = children[0] {
            if col.name == "column"@ && attrs_check("column"@, col.attrs) is Ok {
                lemma_column_fold_two(col.children, bound, r, base_dir, seq![]);
                if let Ok(blocks) = column_fold(col.children, bound, r, base_dir, seq![]) {
                    let c1 = cols.push(blocks);
                    lemma_columns_fold_two(children.drop_first(), bound, r, base_dir, c1);
                    if columns_two_columns(cols) {
                        assert forall|i: int, j: int|
                            0 <= i < c1.len() && 0 <= j < c1[i].len() implies two_columns(
                            #[trigger] c1[i][j],
                        ) by {
                            if i < cols.len() {
                                assert(c1[i] == cols[i]);
                            } else {
                                assert(c1[i] == blocks);
                            }
                        }
                    }
                }
            }
        }
    }
}

proof fn lemma_column_fold_two(
    children: Seq<SourceBlockView>,
    bound: int,
    r: MathRenderer,
    base_dir: &Path,
    blocks: Seq<BlockView>,
)
    ensures
        column_fold(children, bound, r, base_dir, blocks) matches Ok(b2) ==> (all_two_columns(blocks)
            ==> all_two_columns(b2)),
    decreases bound, 0int, children, 0int,
{
    if children.len() > 0 {
        match children[0] {
            SourceBlockView::Markdown(m) => {
                if lines(m).len() < bound {
                    lemma_source_markdown_kept(m, r, base_dir, false, None, blocks);
                    if let Ok((_t, b)) = source_markdown(m, r, base_dir, false, None, blocks) {
                        lemma_column_fold_two(children.drop_first(), bound, r, base_dir, b);
                    }
                }
            },
            SourceBlockView::Directive(nested) => {
                if nested.name != "columns"@ {
                    lemma_convert_directive_two(nested, bound, r, base_dir);
                    if let Ok(block) = convert_directive_spec(nested, bound, r, base_dir) {
                        lemma_kept_push(blocks, block);
                        lemma_column_fold_two(children.drop_first(), bound, r, base_dir, blocks.push(block));
                    }
                }
            },
        }
    }
}


proof fn lemma_slides_fold_two(texts: Seq<Seq<char>>, r: MathRenderer, base_dir: &Path, acc: Seq<SlideView>)
    ensures
        slides_fold(texts, r, base_dir, acc) matches Ok(slides) ==> (slides_two_columns(acc)
            ==> slides_two_columns(slides)),
    decreases texts.len(),
{
    if texts.len() > 0 {
        if trim(texts[0]).len() == 0 {
            lemma_slides_fold_two(texts.drop_first(), r, base_dir, acc);
        } else {
            reveal(slide_spec);
            lemma_source_markdown_kept(texts[0], r, base_dir, true, None, seq![]);
            if let Ok(slide) = slide_spec(texts[0], r, base_dir) {
                let a1 = acc.push(slide);
                lemma_slides_fold_two(texts.drop_first(), r, base_dir, a1);
                if slides_two_columns(acc) {
                    assert forall|i: int, j: int|
                        0 <= i < a1.len() && 0 <= j < a1[i].blocks.len() implies two_columns(
                        #[trigger] a1[i].blocks[j],
                    ) by {
                        if i < acc.len() {
                            assert(a1[i] == acc[i]);
                        }
                    }
                }
            }
        }
    }
}

/// Every block of every slide has only two-column layouts.
pub open spec fn slides_two_columns(slides: Seq<SlideView>) -> bool {
    forall|i: int, j: int|
        0 <= i < slides.len() && 0 <= j < slides[i].blocks.len() ==> two_columns(
            #[trigger] slides[i].blocks[j],
        )
}

/// Every column layout in a parsed deck, at any depth, has exactly two columns.
pub proof fn law_columns_have_two_columns(markdown: Seq<char>, r: MathRenderer, base_dir: &Path)
    ensures
        presentation_spec(markdown, r, base_dir) matches Ok(slides) ==> slides_two_columns(slides),
{
    if renderer_check(r) is Ok {
        lemma_slides_fold_two(split_slides_spec(strip_bom(markdown)), r, base_dir, seq![]);
    }
}

/// Once a slide has its title, reading more of its text keeps that title:
/// later level-one headings stay in the body.
pub proof fn law_title_is_set_once(
    markdown: Seq<char>,
    r: MathRenderer,
    base_dir: &Path,
    title: Seq<InlineView>,
    blocks: Seq<BlockView>,
)
    ensures
        source_markdown(markdown, r, base_dir, true, Some(title), blocks) matches Ok((t, _b)) ==> t == Some(
            title,
        ),
{
    lemma_source_markdown_kept(markdown, r, base_dir, true, Some(title), blocks);
}

/// Text read without a title slot, as inside a column, never makes a title.
pub proof fn law_columns_make_no_title(
    markdown: Seq<char>,
    r: MathRenderer,
    base_dir: &Path,
    blocks: Seq<BlockView>,
)
    ensures
        source_markdown(markdown, r, base_dir, false, None, blocks) matches Ok((t, _b)) ==> t is None,
{
    lemma_source_markdown_kept(markdown, r, base_dir, false, None, blocks);
}

/// A leading byte order mark does not change what a deck reads as.
pub proof fn law_byte_order_mark_is_ignored(markdown: Seq<char>, r: MathRenderer, base_dir: &Path)
    requires
        !(markdown.len() > 0 && markdown[0] == '\u{feff}'),
    ensures
        presentation_spec(seq!['\u{feff}'] + markdown, r, base_dir) == presentation_spec(markdown, r, base_dir),
{
    assert((seq!['\u{feff}'] + markdown).skip(1) =~= markdown);
}

/// The math renderers other than `none` and `literal` refuse every deck.
pub proof fn law_unimplemented_renderers_are_refused(markdown: Seq<char>, r: MathRenderer, base_dir: &Path)
    requires
        r == MathRenderer::External || r == MathRenderer::Katex || r == MathRenderer::Typst || r
            == MathRenderer::Tectonic,
    ensures
        presentation_spec(markdown, r, base_dir) matches Err(e) && e is UnsupportedFeature,
{
}


proof fn lemma_slides_from_acc(
    ls: Seq<Seq<char>>,
    i: int,
    current: Seq<Seq<char>>,
    acc: Seq<Seq<char>>,
)
    ensures
        slides_from(ls, i, current, acc) == acc + slides_from(ls, i, current, seq![]),
    decreases ls.len() - i,
{
    if i < 0 || i >= ls.len() {
        assert(acc.push(join_lines(current)) =~= acc + seq![].push(join_lines(current)));
    } else if trim(ls[i]) == "---"@ {
        lemma_slides_from_acc(ls, i + 1, seq![], acc.push(join_lines(current)));
        lemma_slides_from_acc(ls, i + 1, seq![], seq![].push(join_lines(current)));
        assert(acc.push(join_lines(current)) + slides_from(ls, i + 1, seq![], seq![]) =~= acc + (
        seq![].push(join_lines(current)) + slides_from(ls, i + 1, seq![], seq![])));
    } else {
        lemma_slides_from_acc(ls, i + 1, current.push(ls[i]), acc);
    }
}

proof fn lemma_slides_from_shift(
    p: Seq<Seq<char>>,
    ls: Seq<Seq<char>>,
    j: int,
    current: Seq<Seq<char>>,
    acc: Seq<Seq<char>>,
)
    requires
        0 <= j,
    ensures
        slides_from(p + ls, p.len() + j, current, acc) == slides_from(ls, j, current, acc),
    decreases ls.len() - j,
{
    if j < ls.len() {
        assert((p + ls)[p.len() + j] == ls[j]);
        if trim(ls[j]) == "---"@ {
            lemma_slides_from_shift(p, ls, j + 1, seq![], acc.push(join_lines(current)));
        } else {
            lemma_slides_from_shift(p, ls, j + 1, current.push(ls[j]), acc);
        }
    }
}

proof fn lemma_slides_from_split(
    a: Seq<Seq<char>>,
    sep: Seq<char>,
    b: Seq<Seq<char>>,
    i: int,
    current: Seq<Seq<char>>,
    acc: Seq<Seq<char>>,
)
    requires
        trim(sep) == "---"@,
        0 <= i <= a.len(),
    ensures
        slides_from(a + seq![sep] + b, i, current, acc) == slides_from(a, i, current, acc)
            + slides_from(b, 0, seq![], seq![]),
    decreases a.len() - i,
{
    let c = a + seq![sep] + b;
    if i < a.len() {
        assert(c[i] == a[i]);
        if trim(a[i]) == "---"@ {
            lemma_slides_from_split(a, sep, b, i + 1, seq![], acc.push(join_lines(current)));
        } else {
            lemma_slides_from_split(a, sep, b, i + 1, current.push(a[i]), acc);
        }
    } else {
        assert(c[i] == sep);
        let rest = acc.push(join_lines(current));
        assert(c =~= (a + seq![sep]) + b);
        lemma_slides_from_shift(a + seq![sep], b, 0, seq![], rest);
        lemma_slides_from_acc(b, 0, seq![], rest);
    }
}

proof fn lemma_slides_fold_acc(texts: Seq<Seq<char>>, r: MathRenderer, base_dir: &Path, acc: Seq<SlideView>)
    ensures
        slides_fold(texts, r, base_dir, acc) == match slides_fold(texts, r, base_dir, seq![]) {
            Ok(x) => Ok(acc + x),
            Err(e) => Err(e),
        },
    decreases texts.len(),
{
    if texts.len() == 0 {
        assert(acc + seq![] =~= acc);
    } else if trim(texts[0]).len() == 0 {
        lemma_slides_fold_acc(texts.drop_first(), r, base_dir, acc);
        lemma_slides_fold_acc(texts.drop_first(), r, base_dir, seq![]);
    } else {
        match slide_spec(texts[0], r, base_dir) {
            Ok(slide) => {
                lemma_slides_fold_acc(texts.drop_first(), r, base_dir, acc.push(slide));
                lemma_slides_fold_acc(texts.drop_first(), r, base_dir, seq![].push(slide));
                if let Ok(x) = slides_fold(texts.drop_first(), r, base_dir, seq![]) {
                    assert(acc.push(slide) + x =~= acc + (seq![].push(slide) + x));
                }
            },
            Err(_) => {},
        }
    }
}

proof fn lemma_slides_fold_concat(
    first: Seq<Seq<char>>,
    second: Seq<Seq<char>>,
    r: MathRenderer,
    base_dir: &Path,
    acc: Seq<SlideView>,
)
    ensures
        slides_fold(first + second, r, base_dir, acc) == match slides_fold(first, r, base_dir, acc) {
            Ok(x) => slides_fold(second, r, base_dir, x),
            Err(e) => Err(e),
        },
    decreases first.len(),
{
    if first.len() == 0 {
        assert(first + second =~= second);
    } else {
        let both = first + second;
        assert(both[0] == first[0]);
        assert(both.drop_first() =~= first.drop_first() + second);
        if trim(first[0]).len() == 0 {
            lemma_slides_fold_concat(first.drop_first(), second, r, base_dir, acc);
        } else if let Ok(slide) = slide_spec(first[0], r, base_dir) {
            lemma_slides_fold_concat(first.drop_first(), second, r, base_dir, acc.push(slide));
        }
    }
}

/// The slides of two decks read one after the other: those of the first and
/// then those of the second, or the first error met.
pub open spec fn joined_decks(
    first: Result<Seq<SlideView>, ErrorView>,
    second: Result<Seq<SlideView>, ErrorView>,
) -> Result<Seq<SlideView>, ErrorView> {
    match first {
        Err(e) => Err(e),
        Ok(x) => match second {
            Err(e) => Err(e),
            Ok(y) => Ok(x + y),
        },
    }
}

/// Slides are split by lines that hold only `---`: two decks joined by such
/// a line read as the slides of the first followed by those of the second.
/// The first deck must end in a character that is neither a line break nor
/// a carriage return, so that the joining line break ends its last line and
/// adds nothing to it, and the second must not open with a byte order mark,
/// which only the start of a deck may carry.
pub proof fn law_separator_joins_decks(a: Seq<char>, b: Seq<char>, r: MathRenderer, base_dir: &Path)
    requires
        strip_bom(a).len() > 0,
        strip_bom(a).last() != '\n',
        strip_bom(a).last() != '\r',
        !(b.len() > 0 && b[0] == '\u{feff}'),
    ensures
        presentation_spec(a + seq!['\n', '-', '-', '-', '\n'] + b, r, base_dir) == joined_decks(
            presentation_spec(a, r, base_dir),
            presentation_spec(b, r, base_dir),
        ),
{
    if renderer_check(r) is Ok {
        let sep = seq!['\n', '-', '-', '-', '\n'];
        let a1 = strip_bom(a);
        let whole = a + sep + b;
        assert(strip_bom(whole) =~= a1 + sep + b) by {
            if a.len() > 0 && a[0] == '\u{feff}' {
                assert(whole.skip(1) =~= a.skip(1) + sep + b);
            } else {
                assert(whole[0] == a[0]);
            }
        }
        let p1 = a1 + seq!['\n'];
        let dash = seq!['-', '-', '-'];
        let p2 = dash + seq!['\n'];
        assert(a1 + sep + b =~= p1 + (p2 + b));
        lemma_lines_concat(p1, p2 + b);
        lemma_lines_concat(p2, b);
        lemma_lines_newline_end(a1);
        assert(lines(p2) =~= seq![dash]) by {
            reveal_with_fuel(lines_from, 5);
            assert(p2.subrange(0, 3) =~= dash);
            assert(strip_cr(dash) == dash);
        }
        assert(trim(dash) == "---"@) by {
            reveal_strlit("---");
            assert(!is_space(dash[0]));
            assert(!is_space(dash.last()));
            assert(trim_start(dash) == dash);
            assert(trim_end(dash) == dash);
        }
        assert(lines(strip_bom(whole)) =~= lines(a1) + seq![dash] + lines(b));
        lemma_slides_from_split(lines(a1), dash, lines(b), 0, seq![], seq![]);
        lemma_slides_fold_concat(split_slides_spec(a1), split_slides_spec(b), r, base_dir, seq![]);
        if let Ok(x) = slides_fold(split_slides_spec(a1), r, base_dir, seq![]) {
            lemma_slides_fold_acc(split_slides_spec(b), r, base_dir, x);
        }
    }
}


/// The number of lines of `ls` from `i` on that hold only `---`.
pub open spec fn separators_from(ls: Seq<Seq<char>>, i: int) -> nat
    decreases ls.len() - i,
{
    if i < 0 || i >= ls.len() {
        0
    } else if trim(ls[i]) == "---"@ {
        separators_from(ls, i + 1) + 1
    } else {
        separators_from(ls, i + 1)
    }
}

/// The number of texts of `texts` that are not blank.
pub open spec fn non_blank_count(texts: Seq<Seq<char>>) -> nat
    decreases texts.len(),
{
    if texts.len() == 0 {
        0
    } else if trim(texts[0]).len() == 0 {
        non_blank_count(texts.drop_first())
    } else {
        non_blank_count(texts.drop_first()) + 1
    }
}

proof fn lemma_slides_from_count(
    ls: Seq<Seq<char>>,
    i: int,
    current: Seq<Seq<char>>,
    acc: Seq<Seq<char>>,
)
    requires
        0 <= i,
    ensures
        slides_from(ls, i, current, acc).len() == acc.len() + separators_from(ls, i) + 1,
    decreases ls.len() - i,
{
    if i < ls.len() {
        if trim(ls[i]) == "---"@ {
            lemma_slides_from_count(ls, i + 1, seq![], acc.push(join_lines(current)));
        } else {
            lemma_slides_from_count(ls, i + 1, current.push(ls[i]), acc);
        }
    }
}

/// A deck splits into one slide text more than it has separator lines.
pub proof fn law_one_slide_text_per_separator(markdown: Seq<char>)
    ensures
        split_slides_spec(markdown).len() == separators_from(lines(markdown), 0) + 1,
{
    lemma_slides_from_count(lines(markdown), 0, seq![], seq![]);
}

proof fn lemma_slides_fold_count(texts: Seq<Seq<char>>, r: MathRenderer, base_dir: &Path, acc: Seq<SlideView>)
    ensures
        slides_fold(texts, r, base_dir, acc) matches Ok(slides) ==> slides.len() == acc.len()
            + non_blank_count(texts),
    decreases texts.len(),
{
    if texts.len() > 0 {
        if trim(texts[0]).len() == 0 {
            lemma_slides_fold_count(texts.drop_first(), r, base_dir, acc);
        } else if let Ok(slide) = slide_spec(texts[0], r, base_dir) {
            lemma_slides_fold_count(texts.drop_first(), r, base_dir, acc.push(slide));
        }
    }
}

/// Every slide text that is not blank gives one slide, and blank ones none.
pub proof fn law_each_non_blank_text_is_a_slide(markdown: Seq<char>, r: MathRenderer, base_dir: &Path)
    ensures
        presentation_spec(markdown, r, base_dir) matches Ok(slides) ==> slides.len() == non_blank_count(
            split_slides_spec(strip_bom(markdown)),
        ),
{
    lemma_slides_fold_count(split_slides_spec(strip_bom(markdown)), r, base_dir, seq![]);
}

} // verus!
