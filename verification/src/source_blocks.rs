//! The block structure of a slide's source lines: plain Markdown runs and
//! `::: name attrs` directives closed by `:::`, with code fences respected.
use vstd::prelude::*;
use vstd::string::*;

use crate::error::{Error, ErrorView};
use crate::segment::after;
use crate::text::{
    split_lines,
    chars_eq, chars_of, chars_start_with, find_char, find_char_in, find_space, find_space_in,
    is_ascii_alnum, is_blank, is_space, join_lines, join_with_newlines, lemma_find_char_from,
    lemma_find_space_from, lemma_lines_of_join, lemma_trim_start_len, lines, no_newline, slice_chars, starts_with, string_from_chars,
    texts_view, trim, trim_start, trimmed, trimmed_start,
};

verus! {

/// A run of Markdown lines or a directive with its contents.
pub enum SourceBlock {
    Markdown(Vec<char>),
    Directive(DirectiveBlock),
}

pub struct DirectiveBlock {
    pub name: Vec<char>,
    pub attrs: Vec<(Vec<char>, Vec<char>)>,
    pub children: Vec<SourceBlock>,
}

pub enum SourceBlockView {
    Markdown(Seq<char>),
    Directive(DirectiveView),
}

pub struct DirectiveView {
    pub name: Seq<char>,
    pub attrs: Seq<(Seq<char>, Seq<char>)>,
    pub children: Seq<SourceBlockView>,
}

pub open spec fn attrs_view(a: Seq<(Vec<char>, Vec<char>)>) -> Seq<(Seq<char>, Seq<char>)> {
    a.map_values(|kv: (Vec<char>, Vec<char>)| (kv.0@, kv.1@))
}

pub open spec fn source_view(b: SourceBlock) -> SourceBlockView
    decreases b,
{
    match b {
        SourceBlock::Markdown(m) => SourceBlockView::Markdown(m@),
        SourceBlock::Directive(d) => SourceBlockView::Directive(directive_view(d)),
    }
}

pub open spec fn directive_view(d: DirectiveBlock) -> DirectiveView
    decreases d,
{
    DirectiveView {
        name: d.name@,
        attrs: attrs_view(d.attrs@),
        children: sources_view(d.children@),
    }
}

pub open spec fn sources_view(s: Seq<SourceBlock>) -> Seq<SourceBlockView>
    decreases s,
{
    if s.len() == 0 {
        seq![]
    } else {
        sources_view(s.drop_last()).push(source_view(s.last()))
    }
}

pub proof fn lemma_sources_view_push(s: Seq<SourceBlock>, b: SourceBlock)
    ensures
        sources_view(s.push(b)) == sources_view(s).push(source_view(b)),
{
    assert(s.push(b).drop_last() =~= s);
}

pub proof fn lemma_sources_view_index(s: Seq<SourceBlock>, i: int)
    requires
        0 <= i < s.len(),
    ensures
        sources_view(s).len() == s.len(),
        sources_view(s)[i] == source_view(s[i]),
    decreases s.len(),
{
    if i < s.len() - 1 {
        lemma_sources_view_index(s.drop_last(), i);
    } else {
        lemma_sources_view_len(s.drop_last());
    }
}

pub proof fn lemma_sources_view_len(s: Seq<SourceBlock>)
    ensures
        sources_view(s).len() == s.len(),
    decreases s.len(),
{
    if s.len() > 0 {
        lemma_sources_view_len(s.drop_last());
    }
}

/// The number of leading characters of `t` equal to `c`, from `i`.
pub open spec fn run_from(t: Seq<char>, c: char, i: int) -> nat
    decreases t.len() - i,
{
    if 0 <= i < t.len() && t[i] == c {
        run_from(t, c, i + 1) + 1
    } else {
        0
    }
}

/// The fence that a trimmed line opens: its leading run of at least three
/// backticks, or else of at least three tildes.
pub open spec fn opens_fence(t: Seq<char>) -> Option<Seq<char>> {
    if starts_with(t, "```"@) && run_from(t, '`', 0) >= 3 {
        Some(t.take(run_from(t, '`', 0) as int))
    } else if starts_with(t, "~~~"@) && run_from(t, '~', 0) >= 3 {
        Some(t.take(run_from(t, '~', 0) as int))
    } else {
        None
    }
}

proof fn lemma_run_from(t: Seq<char>, c: char, i: int, k: int)
    requires
        0 <= i <= k <= t.len(),
        forall|j: int| i <= j < k ==> t[j] == c,
        k == t.len() || t[k] != c,
    ensures
        run_from(t, c, i) == k - i,
    decreases k - i,
{
    if i < k {
        lemma_run_from(t, c, i + 1, k);
    }
}

/// Counts the characters equal to `c` at the start of `t`.
fn leading_run(t: &[char], c: char) -> (n: usize)
    ensures
        n == run_from(t@, c, 0),
        n <= t@.len(),
{
    let mut k: usize = 0;
    while k < t.len() && t[k] == c
        invariant
            k <= t@.len(),
            forall|j: int| 0 <= j < k ==> t@[j] == c,
        decreases t.len() - k,
    {
        k = k + 1;
    }
    proof {
        lemma_run_from(t@, c, 0, k as int);
    }
    k
}

/// The fence that a trimmed line opens, if any.
fn opens_code_fence(trimmed: &[char]) -> (res: Option<Vec<char>>)
    ensures
        match opens_fence(trimmed@) {
            Some(f) => res matches Some(v) && v@ == f,
            None => res is None,
        },
{
    let ticks = chars_of("```");
    if chars_start_with(trimmed, ticks.as_slice()) {
        let count = leading_run(trimmed, '`');
        if count >= 3 {
            return Some(slice_chars(trimmed, 0, count));
        }
    }
    let tildes = chars_of("~~~");
    if chars_start_with(trimmed, tildes.as_slice()) {
        let count = leading_run(trimmed, '~');
        if count >= 3 {
            return Some(slice_chars(trimmed, 0, count));
        }
    }
    None
}

/// Whether a trimmed line closes the open fence `fence`.
fn closes_code_fence(trimmed: &[char], fence: &[char]) -> (res: bool)
    ensures
        res == starts_with(trimmed@, fence@),
{
    chars_start_with(trimmed, fence)
}

/// Whether `w` is made of ASCII letters, digits, `_` and `-` only.
pub open spec fn is_word(w: Seq<char>) -> bool {
    forall|i: int| 0 <= i < w.len() ==> is_ascii_alnum(#[trigger] w[i]) || w[i] == '_' || w[i] == '-'
}

fn chars_are_word(w: &[char]) -> (res: bool)
    ensures
        res == is_word(w@),
{
    let mut i: usize = 0;
    while i < w.len()
        invariant
            i <= w@.len(),
            forall|k: int|
                0 <= k < i ==> is_ascii_alnum(#[trigger] w@[k]) || w@[k] == '_' || w@[k] == '-',
        decreases w.len() - i,
    {
        let c = w[i];
        if !(('0' <= c && c <= '9') || ('a' <= c && c <= 'z') || ('A' <= c && c <= 'Z') || c == '_'
            || c == '-') {
            return false;
        }
        i = i + 1;
    }
    true
}

/// `prefix` followed by `tail`, as a `String`.
pub(crate) fn text_message(prefix: &str, tail: &[char]) -> (res: String)
    ensures
        res@ == prefix@ + tail@,
{
    String::from_str(prefix).concat(string_from_chars(tail).as_str())
}

/// A directive's name and the text after it.
pub open spec fn split_name(source: Seq<char>) -> (Seq<char>, Seq<char>) {
    match find_space(source) {
        Some(i) => (source.take(i), trim(source.skip(i))),
        None => (source, seq![]),
    }
}

fn split_directive_name(source: &[char]) -> (res: (Vec<char>, Vec<char>))
    ensures
        (res.0@, res.1@) == split_name(source@),
{
    match find_space_in(source) {
        Some(index) => {
            proof {
                lemma_find_space_from(source@, 0);
            }
            let name = slice_chars(source, 0, index);
            let rest = slice_chars(source, index, source.len());
            assert(name@ =~= source@.take(index as int));
            assert(rest@ =~= source@.skip(index as int));
            (name, trimmed(rest.as_slice()))
        },
        None => (slice_chars(source, 0, source.len()), Vec::new()),
    }
}

/// The attributes `key=value` or `key="quoted value"` of `rest`, after `acc`.
pub open spec fn attrs_from(rest: Seq<char>, acc: Seq<(Seq<char>, Seq<char>)>) -> Result<
    Seq<(Seq<char>, Seq<char>)>,
    ErrorView,
>
    decreases rest.len(),
{
    if rest.len() == 0 {
        Ok(acc)
    } else {
        match find_char(rest, '=') {
            None => Err(ErrorView::InvalidMarkdown("invalid directive attribute: "@ + rest)),
            Some(eq) => {
                let key = trim(rest.take(eq));
                if key.len() == 0 || !is_word(key) {
                    Err(ErrorView::InvalidMarkdown("invalid directive attribute: "@ + key))
                } else {
                    let v = trim_start(rest.skip(eq + 1));
                    proof {
                        lemma_find_char_from(rest, '=', 0);
                        lemma_trim_start_len(rest.skip(eq + 1));
                    }
                    if v.len() > 0 && v[0] == '"' {
                        let quoted = v.drop_first();
                        match find_char(quoted, '"') {
                            None => Err(
                                ErrorView::InvalidMarkdown(
                                    "unterminated quoted value for directive attribute: "@ + key,
                                ),
                            ),
                            Some(end) => {
                                proof {
                                    lemma_find_char_from(quoted, '"', 0);
                                    lemma_trim_start_len(quoted.skip(end + 1));
                                }
                                attrs_from(
                                    trim_start(quoted.skip(end + 1)),
                                    acc.push((key, quoted.take(end))),
                                )
                            },
                        }
                    } else {
                        let end = match find_space(v) {
                            Some(e) => e,
                            None => v.len() as int,
                        };
                        proof {
                            lemma_find_space_from(v, 0);
                            lemma_trim_start_len(v.skip(end));
                        }
                        attrs_from(trim_start(v.skip(end)), acc.push((key, v.take(end))))
                    }
                }
            },
        }
    }
}

/// The attributes of a directive's attribute text.
fn parse_directive_attrs(source: &[char]) -> (res: Result<Vec<(Vec<char>, Vec<char>)>, Error>)
    ensures
        match attrs_from(trim(source@), seq![]) {
            Ok(a) => res matches Ok(v) && attrs_view(v@) == a,
            Err(e) => res matches Err(err) && err@ == e,
        },
{
    let mut attrs: Vec<(Vec<char>, Vec<char>)> = Vec::new();
    let mut rest = trimmed(source);
    assert(attrs_view(attrs@) =~= seq![]);
    while rest.len() > 0
        invariant
            attrs_from(rest@, attrs_view(attrs@)) == attrs_from(trim(source@), seq![]),
        decreases rest@.len(),
    {
        let eq_index = match find_char_in(rest.as_slice(), '=') {
            Some(e) => e,
            None => {
                return Err(
                    Error::InvalidMarkdown(
                        text_message("invalid directive attribute: ", rest.as_slice()),
                    ),
                );
            },
        };
        proof {
            lemma_find_char_from(rest@, '=', 0);
        }
        let head = slice_chars(rest.as_slice(), 0, eq_index);
        assert(head@ =~= rest@.take(eq_index as int));
        let key = trimmed(head.as_slice());
        if key.len() == 0 || !chars_are_word(key.as_slice()) {
            return Err(
                Error::InvalidMarkdown(text_message("invalid directive attribute: ", key.as_slice())),
            );
        }
        let tail = slice_chars(rest.as_slice(), eq_index + 1, rest.len());
        assert(tail@ =~= rest@.skip(eq_index + 1));
        let v = trimmed_start(tail.as_slice());
        proof {
            lemma_trim_start_len(tail@);
        }
        let ghost acc = attrs@;
        let (value, next) = if v.len() > 0 && v[0] == '"' {
            let quoted = slice_chars(v.as_slice(), 1, v.len());
            assert(quoted@ =~= v@.drop_first());
            match find_char_in(quoted.as_slice(), '"') {
                Some(end) => {
                    proof {
                        lemma_find_char_from(quoted@, '"', 0);
                    }
                    let value = slice_chars(quoted.as_slice(), 0, end);
                    let after = slice_chars(quoted.as_slice(), end + 1, quoted.len());
                    assert(value@ =~= quoted@.take(end as int));
                    assert(after@ =~= quoted@.skip(end + 1));
                    proof {
                        lemma_trim_start_len(after@);
                    }
                    (value, trimmed_start(after.as_slice()))
                },
                None => {
                    return Err(
                        Error::InvalidMarkdown(
                            text_message(
                                "unterminated quoted value for directive attribute: ",
                                key.as_slice(),
                            ),
                        ),
                    );
                },
            }
        } else {
            let end = match find_space_in(v.as_slice()) {
                Some(e) => e,
                None => v.len(),
            };
            proof {
                lemma_find_space_from(v@, 0);
            }
            let value = slice_chars(v.as_slice(), 0, end);
            let after = slice_chars(v.as_slice(), end, v.len());
            assert(value@ =~= v@.take(end as int));
            assert(after@ =~= v@.skip(end as int));
            proof {
                lemma_trim_start_len(after@);
            }
            (value, trimmed_start(after.as_slice()))
        };
        let ghost pair = (key@, value@);
        attrs.push((key, value));
        assert(attrs_view(attrs@) =~= attrs_view(acc).push(pair));
        rest = next;
    }
    Ok(attrs)
}

/// What a trimmed line opens: nothing, or a directive with its name and attributes.
pub open spec fn directive_open(t: Seq<char>) -> Result<
    Option<(Seq<char>, Seq<(Seq<char>, Seq<char>)>)>,
    ErrorView,
> {
    if !starts_with(t, ":::"@) {
        Ok(None)
    } else {
        let rest = t.skip(":::"@.len() as int);
        if rest.len() == 0 || rest[0] == ':' || !is_space(rest[0]) {
            Ok(None)
        } else {
            let rest = trim(rest);
            if rest.len() == 0 {
                Ok(None)
            } else {
                let (name, source) = split_name(rest);
                if !is_word(name) {
                    Err(ErrorView::InvalidMarkdown("invalid directive name: "@ + name))
                } else {
                    match attrs_from(trim(source), seq![]) {
                        Ok(a) => Ok(Some((name, a))),
                        Err(e) => Err(e),
                    }
                }
            }
        }
    }
}

/// The directive that a trimmed line opens, if it opens one.
fn parse_directive_open(trimmed_line: &[char]) -> (res: Result<
    Option<(Vec<char>, Vec<(Vec<char>, Vec<char>)>)>,
    Error,
>)
    ensures
        match directive_open(trimmed_line@) {
            Ok(Some((name, a))) => res matches Ok(Some(v)) && v.0@ == name && attrs_view(v.1@) == a,
            Ok(None) => res matches Ok(None),
            Err(e) => res matches Err(err) && err@ == e,
        },
{
    let colons = chars_of(":::");
    if !chars_start_with(trimmed_line, colons.as_slice()) {
        return Ok(None);
    }
    let rest = slice_chars(trimmed_line, colons.len(), trimmed_line.len());
    assert(rest@ =~= trimmed_line@.skip(":::"@.len() as int));
    if rest.len() == 0 || rest[0] == ':' || !crate::text::char_is_space(rest[0]) {
        return Ok(None);
    }
    let rest = trimmed(rest.as_slice());
    if rest.len() == 0 {
        return Ok(None);
    }
    let (name, attr_source) = split_directive_name(rest.as_slice());
    if !chars_are_word(name.as_slice()) {
        return Err(Error::InvalidMarkdown(text_message("invalid directive name: ", name.as_slice())));
    }
    let attrs = parse_directive_attrs(attr_source.as_slice())?;
    Ok(Some((name, attrs)))
}

/// `blocks` followed by the Markdown run `md`, when some line of it is not blank.
pub open spec fn push_md(blocks: Seq<SourceBlockView>, md: Seq<Seq<char>>) -> Seq<SourceBlockView> {
    if exists|i: int| 0 <= i < md.len() && trim(#[trigger] md[i]).len() > 0 {
        blocks.push(SourceBlockView::Markdown(join_lines(md)))
    } else {
        blocks
    }
}

/// The blocks of `lines` from `index`, after `blocks` and the pending Markdown
/// lines `md`, inside the open code fence `fence` if any. Inside a directive
/// (`allow_close`) a `:::` line ends the run and the position after it is
/// returned; the end of the lines is then an error.
pub open spec fn blocks_from(
    lines: Seq<Seq<char>>,
    index: int,
    allow_close: bool,
    blocks: Seq<SourceBlockView>,
    md: Seq<Seq<char>>,
    fence: Option<Seq<char>>,
) -> Result<(Seq<SourceBlockView>, int), ErrorView>
    decreases lines.len() - index,
{
    if index < 0 || index >= lines.len() {
        if allow_close {
            Err(ErrorView::InvalidMarkdown("unterminated directive block"@))
        } else {
            Ok((push_md(blocks, md), index))
        }
    } else {
        let line = lines[index];
        let t = trim(line);
        match fence {
            Some(f) => blocks_from(
                lines,
                index + 1,
                allow_close,
                blocks,
                md.push(line),
                if starts_with(t, f) {
                    None
                } else {
                    Some(f)
                },
            ),
            None => match opens_fence(t) {
                Some(f) => blocks_from(lines, index + 1, allow_close, blocks, md.push(line), Some(f)),
                None => {
                    if t == ":::"@ {
                        if allow_close {
                            Ok((push_md(blocks, md), index + 1))
                        } else {
                            Err(ErrorView::InvalidMarkdown("unexpected directive closing fence"@))
                        }
                    } else {
                        match directive_open(t) {
                            Err(e) => Err(e),
                            Ok(Some((name, attrs))) => match blocks_from(
                                lines,
                                index + 1,
                                true,
                                seq![],
                                seq![],
                                None,
                            ) {
                                Err(e) => Err(e),
                                Ok((children, j)) => blocks_from(
                                    lines,
                                    after(j, index, lines.len() as int),
                                    allow_close,
                                    push_md(blocks, md).push(
                                        SourceBlockView::Directive(
                                            DirectiveView { name, attrs, children },
                                        ),
                                    ),
                                    seq![],
                                    None,
                                ),
                            },
                            Ok(None) => blocks_from(
                                lines,
                                index + 1,
                                allow_close,
                                blocks,
                                md.push(line),
                                None,
                            ),
                        }
                    }
                },
            },
        }
    }
}

/// The blocks of a slide's text.
pub open spec fn source_blocks(markdown: Seq<char>) -> Result<Seq<SourceBlockView>, ErrorView> {
    match blocks_from(lines(markdown), 0, false, seq![], seq![], None) {
        Ok((blocks, _)) => Ok(blocks),
        Err(e) => Err(e),
    }
}

/// Ends the pending Markdown run: kept as a block when some line is not blank.
fn push_markdown_block(blocks: &mut Vec<SourceBlock>, markdown_lines: &mut Vec<Vec<char>>)
    ensures
        sources_view(final(blocks)@) == push_md(sources_view(old(blocks)@), texts_view(old(markdown_lines)@)),
        final(markdown_lines)@.len() == 0,
{
    let ghost md = texts_view(markdown_lines@);
    let mut any = false;
    let mut i: usize = 0;
    while i < markdown_lines.len()
        invariant
            i <= markdown_lines@.len(),
            md == texts_view(markdown_lines@),
            any == exists|k: int| 0 <= k < i && trim(#[trigger] md[k]).len() > 0,
        decreases markdown_lines.len() - i,
    {
        if !is_blank(markdown_lines[i].as_slice()) {
            assert(trim(md[i as int]).len() > 0);
            any = true;
        }
        i = i + 1;
    }
    if any {
        let text = join_with_newlines(markdown_lines);
        proof {
            lemma_sources_view_push(blocks@, SourceBlock::Markdown(text));
        }
        blocks.push(SourceBlock::Markdown(text));
    }
    markdown_lines.clear();
}

/// Every Markdown run in `b`, at any depth, has at most `n` lines.
pub open spec fn source_bounded(b: SourceBlockView, n: int) -> bool
    decreases b,
{
    match b {
        SourceBlockView::Markdown(m) => lines(m).len() <= n,
        SourceBlockView::Directive(d) => sources_bounded(d.children, n),
    }
}

/// Every Markdown run in `s`, at any depth, has at most `n` lines.
pub open spec fn sources_bounded(s: Seq<SourceBlockView>, n: int) -> bool
    decreases s,
{
    if s.len() == 0 {
        true
    } else {
        sources_bounded(s.drop_last(), n) && source_bounded(s.last(), n)
    }
}

/// The contents of every directive in `s` have Markdown runs of at most `n` lines.
pub open spec fn directives_bounded(s: Seq<SourceBlockView>, n: int) -> bool {
    forall|i: int|
        0 <= i < s.len() ==> (#[trigger] s[i] matches SourceBlockView::Directive(d)
            ==> sources_bounded(d.children, n))
}

pub proof fn lemma_source_bounded_mono(b: SourceBlockView, n: int, m: int)
    requires
        source_bounded(b, n),
        n <= m,
    ensures
        source_bounded(b, m),
    decreases b,
{
    match b {
        SourceBlockView::Markdown(_) => {},
        SourceBlockView::Directive(d) => {
            lemma_sources_bounded_mono(d.children, n, m);
        },
    }
}

pub proof fn lemma_sources_bounded_mono(s: Seq<SourceBlockView>, n: int, m: int)
    requires
        sources_bounded(s, n),
        n <= m,
    ensures
        sources_bounded(s, m),
    decreases s,
{
    if s.len() > 0 {
        lemma_sources_bounded_mono(s.drop_last(), n, m);
        lemma_source_bounded_mono(s.last(), n, m);
    }
}

pub proof fn lemma_directives_bounded_mono(s: Seq<SourceBlockView>, n: int, m: int)
    requires
        directives_bounded(s, n),
        n <= m,
    ensures
        directives_bounded(s, m),
{
    assert forall|i: int|
        0 <= i < s.len() implies (#[trigger] s[i] matches SourceBlockView::Directive(d)
        ==> sources_bounded(d.children, m)) by {
        if let SourceBlockView::Directive(d) = s[i] {
            lemma_sources_bounded_mono(d.children, n, m);
        }
    }
}

pub proof fn lemma_sources_bounded_index(s: Seq<SourceBlockView>, n: int, i: int)
    requires
        sources_bounded(s, n),
        0 <= i < s.len(),
    ensures
        source_bounded(s[i], n),
    decreases s.len(),
{
    if i < s.len() - 1 {
        lemma_sources_bounded_index(s.drop_last(), n, i);
        assert(s.drop_last()[i] == s[i]);
    }
}

proof fn lemma_push_bounded(s: Seq<SourceBlockView>, b: SourceBlockView, n: int)
    requires
        sources_bounded(s, n),
        source_bounded(b, n),
    ensures
        sources_bounded(s.push(b), n),
{
    assert(s.push(b).drop_last() =~= s);
}

proof fn lemma_push_md_bounded(s: Seq<SourceBlockView>, md: Seq<Seq<char>>, n: int)
    requires
        sources_bounded(s, n),
        directives_bounded(s, n - 1),
        md.len() <= n,
        forall|i: int| 0 <= i < md.len() ==> no_newline(#[trigger] md[i]),
    ensures
        sources_bounded(push_md(s, md), n),
        directives_bounded(push_md(s, md), n - 1),
{
    if exists|i: int| 0 <= i < md.len() && trim(#[trigger] md[i]).len() > 0 {
        lemma_lines_of_join(md);
        lemma_push_bounded(s, SourceBlockView::Markdown(join_lines(md)), n);
        let t = s.push(SourceBlockView::Markdown(join_lines(md)));
        assert forall|i: int|
            0 <= i < t.len() implies (#[trigger] t[i] matches SourceBlockView::Directive(d)
            ==> sources_bounded(d.children, n - 1)) by {
            if i < s.len() {
                assert(t[i] == s[i]);
            }
        }
    }
}

pub open spec fn fence_view(f: Option<Vec<char>>) -> Option<Seq<char>> {
    match f {
        Some(v) => Some(v@),
        None => None,
    }
}

/// Reads blocks from `index` to the end of the lines or, inside a directive,
/// to its closing `:::` line.
fn parse_source_blocks_until(lines: &Vec<Vec<char>>, index: &mut usize, allow_close: bool) -> (res:
    Result<Vec<SourceBlock>, Error>)
    requires
        *old(index) <= lines@.len(),
        forall|i: int| 0 <= i < lines@.len() ==> no_newline(#[trigger] texts_view(lines@)[i]),
    ensures
        match blocks_from(texts_view(lines@), *old(index) as int, allow_close, seq![], seq![], None) {
            Ok((b, q)) => res matches Ok(v) && sources_view(v@) == b && *final(index) == q
                && *old(index) <= q <= lines@.len() && sources_bounded(b, q - *old(index))
                && directives_bounded(b, q - *old(index) - 1),
            Err(e) => res matches Err(err) && err@ == e,
        },
    decreases lines@.len() - *old(index),
{
    let ghost ls = texts_view(lines@);
    let ghost s0 = *index as int;
    let mut blocks: Vec<SourceBlock> = Vec::new();
    let mut markdown_lines: Vec<Vec<char>> = Vec::new();
    let mut code_fence: Option<Vec<char>> = None;
    assert(sources_view(blocks@) =~= seq![]);
    assert(texts_view(markdown_lines@) =~= seq![]);
    while *index < lines.len()
        invariant
            ls == texts_view(lines@),
            s0 == *old(index),
            s0 <= *index <= lines@.len(),
            forall|i: int| 0 <= i < ls.len() ==> no_newline(#[trigger] ls[i]),
            forall|i: int|
                0 <= i < markdown_lines@.len() ==> no_newline(
                    #[trigger] texts_view(markdown_lines@)[i],
                ),
            markdown_lines@.len() <= *index - s0,
            sources_bounded(sources_view(blocks@), *index - s0),
            directives_bounded(sources_view(blocks@), *index - s0 - 1),
            blocks_from(
                ls,
                *index as int,
                allow_close,
                sources_view(blocks@),
                texts_view(markdown_lines@),
                fence_view(code_fence),
            ) == blocks_from(ls, s0, allow_close, seq![], seq![], None),
        decreases lines.len() - *index,
    {
        let i = *index;
        let line = slice_chars(lines[i].as_slice(), 0, lines[i].len());
        assert(line@ =~= ls[i as int]);
        let trimmed_line = trimmed(line.as_slice());
        let ghost md = texts_view(markdown_lines@);
        let ghost b = sources_view(blocks@);
        proof {
            lemma_sources_bounded_mono(b, i - s0, i + 1 - s0);
            lemma_directives_bounded_mono(b, i - s0 - 1, i - s0);
        }
        if code_fence.is_some() {
            let closes = match &code_fence {
                Some(fence) => closes_code_fence(trimmed_line.as_slice(), fence.as_slice()),
                None => false,
            };
            markdown_lines.push(line);
            assert(texts_view(markdown_lines@) =~= md.push(ls[i as int]));
            if closes {
                code_fence = None;
            }
            *index = i + 1;
            continue ;
        }
        match opens_code_fence(trimmed_line.as_slice()) {
            Some(fence) => {
                markdown_lines.push(line);
                assert(texts_view(markdown_lines@) =~= md.push(ls[i as int]));
                code_fence = Some(fence);
                *index = i + 1;
                continue ;
            },
            None => {},
        }
        let close = chars_of(":::");
        if chars_eq(trimmed_line.as_slice(), close.as_slice()) {
            if allow_close {
                proof {
                    lemma_push_md_bounded(b, md, i - s0);
                    lemma_sources_bounded_mono(push_md(b, md), i - s0, i + 1 - s0);
                    lemma_directives_bounded_mono(push_md(b, md), i - s0 - 1, i - s0);
                }
                push_markdown_block(&mut blocks, &mut markdown_lines);
                *index = i + 1;
                return Ok(blocks);
            }
            return Err(Error::InvalidMarkdown(String::from_str("unexpected directive closing fence")));
        }
        match parse_directive_open(trimmed_line.as_slice())? {
            Some((name, attrs)) => {
                proof {
                    lemma_push_md_bounded(b, md, i - s0);
                }
                push_markdown_block(&mut blocks, &mut markdown_lines);
                *index = i + 1;
                let children = parse_source_blocks_until(lines, index, true)?;
                let ghost j = *index as int;
                let ghost before = sources_view(blocks@);
                let directive = DirectiveBlock { name, attrs, children };
                proof {
                    lemma_sources_bounded_mono(before, i - s0, j - s0);
                    lemma_directives_bounded_mono(before, i - s0 - 1, j - s0 - 1);
                    lemma_sources_bounded_mono(sources_view(children@), j - i - 1, j - s0 - 1);
                    lemma_sources_bounded_mono(sources_view(children@), j - i - 1, j - s0);
                    lemma_push_bounded(before, source_view(SourceBlock::Directive(directive)), j - s0);
                    lemma_sources_view_push(blocks@, SourceBlock::Directive(directive));
                }
                blocks.push(SourceBlock::Directive(directive));
                proof {
                    let t = sources_view(blocks@);
                    assert forall|k: int|
                        0 <= k < t.len() implies (#[trigger] t[k] matches SourceBlockView::Directive(
                        d,
                    ) ==> sources_bounded(d.children, j - s0 - 1)) by {
                        if k < before.len() {
                            assert(t[k] == before[k]);
                        }
                    }
                    assert(texts_view(markdown_lines@) =~= seq![]);
                }
                continue ;
            },
            None => {},
        }
        markdown_lines.push(line);
        assert(texts_view(markdown_lines@) =~= md.push(ls[i as int]));
        *index = i + 1;
    }
    if allow_close {
        return Err(Error::InvalidMarkdown(String::from_str("unterminated directive block")));
    }
    proof {
        lemma_push_md_bounded(sources_view(blocks@), texts_view(markdown_lines@), *index - s0);
    }
    push_markdown_block(&mut blocks, &mut markdown_lines);
    Ok(blocks)
}

/// The blocks of a slide's text.
pub(crate) fn parse_source_blocks(markdown: &[char]) -> (res: Result<Vec<SourceBlock>, Error>)
    ensures
        match source_blocks(markdown@) {
            Ok(b) => res matches Ok(v) && sources_view(v@) == b && directives_bounded(
                b,
                lines(markdown@).len() - 1,
            ),
            Err(e) => res matches Err(err) && err@ == e,
        },
{
    let source_lines = split_lines(markdown);
    proof {
        crate::text::lemma_lines_no_newline(markdown@);
    }
    let mut index: usize = 0;
    let res = parse_source_blocks_until(&source_lines, &mut index, false);
    proof {
        if let Ok((b, q)) = blocks_from(lines(markdown@), 0, false, seq![], seq![], None) {
            lemma_directives_bounded_mono(b, q - 1, lines(markdown@).len() - 1);
        }
    }
    res
}

} // verus!
