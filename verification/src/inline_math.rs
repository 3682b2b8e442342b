//! Inline math: text between two unescaped `$` signs becomes a math run.
use vstd::prelude::*;

use crate::error::{Error, ErrorView};
use crate::model::{inlines_view, plain_text_of, Inline, InlineView};
use crate::style::MathRenderer;
use crate::text::{slice_chars, string_from_chars};

verus! {

/// The number of backslashes just before index `i` of `t`.
pub open spec fn backslashes_before(t: Seq<char>, i: int) -> nat
    decreases i,
{
    if 0 < i <= t.len() && t[i - 1] == '\\' {
        backslashes_before(t, i - 1) + 1
    } else {
        0
    }
}

/// A `$` at `i` that an even number of backslashes precedes.
pub open spec fn is_unescaped_dollar(t: Seq<char>, i: int) -> bool {
    t[i] == '$' && backslashes_before(t, i) % 2 == 0
}

pub open spec fn dollar_from(t: Seq<char>, i: int) -> Option<int>
    decreases t.len() - i,
{
    if i < 0 || i >= t.len() {
        None
    } else if is_unescaped_dollar(t, i) {
        Some(i)
    } else {
        dollar_from(t, i + 1)
    }
}

/// The first unescaped `$` of `t`.
pub open spec fn find_unescaped_dollar(t: Seq<char>) -> Option<int> {
    dollar_from(t, 0)
}

pub proof fn lemma_dollar_from(t: Seq<char>, i: int)
    requires
        0 <= i,
    ensures
        dollar_from(t, i) matches Some(k) ==> i <= k < t.len() && is_unescaped_dollar(t, k),
    decreases t.len() - i,
{
    if i < t.len() && !is_unescaped_dollar(t, i) {
        lemma_dollar_from(t, i + 1);
    }
}

/// Index of the first `$` in `text` that an even number of backslashes precedes.
pub fn find_unescaped_dollar_in(text: &[char]) -> (res: Option<usize>)
    ensures
        res matches Some(k) ==> find_unescaped_dollar(text@) == Some(k as int) && k < text@.len(),
        res is None ==> find_unescaped_dollar(text@) is None,
{
    let mut index: usize = 0;
    while index < text.len()
        invariant
            index <= text@.len(),
            find_unescaped_dollar(text@) == dollar_from(text@, index as int),
        decreases text.len() - index,
    {
        if text[index] == '$' {
            let mut count: usize = 0;
            let mut j = index;
            while j > 0 && text[j - 1] == '\\'
                invariant
                    j <= index < text@.len(),
                    count + backslashes_before(text@, j as int) == backslashes_before(
                        text@,
                        index as int,
                    ),
                    count <= index - j,
                decreases j,
            {
                count = count + 1;
                j = j - 1;
            }
            if count % 2 == 0 {
                return Some(index);
            }
        }
        index = index + 1;
    }
    None
}

/// A run with the given emphasis; bold wins over italic.
pub open spec fn styled(text: Seq<char>, bold: bool, italic: bool) -> InlineView {
    if bold {
        InlineView::Bold(text)
    } else if italic {
        InlineView::Italic(text)
    } else {
        InlineView::Text(text)
    }
}

/// `acc` followed by a run of `text`, when `text` is not empty.
pub open spec fn push_styled(acc: Seq<InlineView>, text: Seq<char>, bold: bool, italic: bool) -> Seq<
    InlineView,
> {
    if text.len() == 0 {
        acc
    } else {
        acc.push(styled(text, bold, italic))
    }
}

/// `acc` followed by the runs of `text`: text between two unescaped `$` signs
/// is a math run, refused when math is disabled; a `$` without a partner stays text.
pub open spec fn push_text_math(
    acc: Seq<InlineView>,
    text: Seq<char>,
    bold: bool,
    italic: bool,
    r: MathRenderer,
) -> Result<Seq<InlineView>, ErrorView>
    decreases text.len(),
{
    match find_unescaped_dollar(text) {
        None => Ok(push_styled(acc, text, bold, italic)),
        Some(s) => {
            let acc1 = push_styled(acc, text.take(s), bold, italic);
            let rest = text.skip(s + 1);
            match find_unescaped_dollar(rest) {
                None => Ok(push_styled(acc1, text.skip(s), bold, italic)),
                Some(e) => {
                    if r == MathRenderer::Disabled {
                        Err(ErrorView::UnsupportedFeature("math"@))
                    } else {
                        proof {
                            lemma_dollar_from(text, 0);
                            lemma_dollar_from(rest, 0);
                        }
                        push_text_math(
                            acc1.push(InlineView::Math(rest.take(e))),
                            rest.skip(e + 1),
                            bold,
                            italic,
                            r,
                        )
                    }
                },
            }
        },
    }
}

/// Past a character that is not a backslash, the backslashes before a
/// position are counted alike in the text and in what follows that character.
proof fn lemma_backslashes_after(t: Seq<char>, k: int, i: int)
    requires
        1 <= k <= t.len(),
        t[k - 1] != '\\',
        0 <= i <= t.len() - k,
    ensures
        backslashes_before(t.skip(k), i) == backslashes_before(t, i + k),
    decreases i,
{
    if i > 0 {
        assert(t.skip(k)[i - 1] == t[i + k - 1]);
        lemma_backslashes_after(t, k, i - 1);
    }
}

/// The plain text of `acc` with one more styled run is that of `acc`
/// followed by the run's text.
proof fn lemma_plain_push_styled(acc: Seq<InlineView>, text: Seq<char>, bold: bool, italic: bool)
    ensures
        plain_text_of(push_styled(acc, text, bold, italic)) == plain_text_of(acc) + text,
{
    if text.len() == 0 {
        assert(plain_text_of(acc) + text =~= plain_text_of(acc));
    } else {
        assert(acc.push(styled(text, bold, italic)).drop_last() =~= acc);
    }
}

/// A text in which no two `$` signs are unescaped holds no math: it is taken
/// without error, and its runs, read as plain text, give back the whole
/// text, a lone `$` included.
pub proof fn law_lone_dollar_stays_text(
    acc: Seq<InlineView>,
    text: Seq<char>,
    bold: bool,
    italic: bool,
    r: MathRenderer,
)
    requires
        forall|i: int, j: int|
            0 <= i < j < text.len() ==> !(#[trigger] is_unescaped_dollar(text, i)
                && #[trigger] is_unescaped_dollar(text, j)),
    ensures
        push_text_math(acc, text, bold, italic, r) matches Ok(v) && plain_text_of(v)
            == plain_text_of(acc) + text,
{
    lemma_dollar_from(text, 0);
    match find_unescaped_dollar(text) {
        None => {
            lemma_plain_push_styled(acc, text, bold, italic);
        },
        Some(s) => {
            let rest = text.skip(s + 1);
            lemma_dollar_from(rest, 0);
            if let Some(e) = find_unescaped_dollar(rest) {
                lemma_backslashes_after(text, s + 1, e);
                assert(rest[e] == text[s + 1 + e]);
                assert(is_unescaped_dollar(text, s + 1 + e));
                assert(false);
            }
            let acc1 = push_styled(acc, text.take(s), bold, italic);
            lemma_plain_push_styled(acc, text.take(s), bold, italic);
            lemma_plain_push_styled(acc1, text.skip(s), bold, italic);
            assert(plain_text_of(acc) + text.take(s) + text.skip(s) =~= plain_text_of(acc) + text);
        },
    }
}

/// Text between two unescaped `$` signs is a math run of exactly that text,
/// after a run of the text before the first sign; reading goes on after the
/// second sign. With math disabled the text is refused.
pub proof fn law_dollar_pair_is_math(
    acc: Seq<InlineView>,
    before: Seq<char>,
    math: Seq<char>,
    after: Seq<char>,
    bold: bool,
    italic: bool,
    r: MathRenderer,
)
    requires
        forall|i: int| 0 <= i < before.len() ==> !(#[trigger] is_unescaped_dollar(before, i)),
        before.len() == 0 || before.last() != '\\',
        forall|i: int| 0 <= i < math.len() ==> #[trigger] math[i] != '$' && math[i] != '\\',
    ensures
        push_text_math(acc, before + seq!['$'] + math + seq!['$'] + after, bold, italic, r) == if r
            == MathRenderer::Disabled {
            Err(ErrorView::UnsupportedFeature("math"@))
        } else {
            push_text_math(
                push_styled(acc, before, bold, italic).push(InlineView::Math(math)),
                after,
                bold,
                italic,
                r,
            )
        },
{
    let text = before + seq!['$'] + math + seq!['$'] + after;
    let s = before.len() as int;
    assert forall|k: int| 0 <= k <= s implies backslashes_before(text, k) == backslashes_before(
        before,
        k,
    ) by {
        lemma_backslashes_prefix(text, before, k);
    }
    assert forall|k: int| 0 <= k < s implies !#[trigger] is_unescaped_dollar(text, k) by {
        assert(text[k] == before[k]);
        assert(!is_unescaped_dollar(before, k));
    }
    lemma_dollar_from_skips(text, 0, s);
    assert(text[s] == '$');
    assert(backslashes_before(text, s) == 0) by {
        if s > 0 {
            assert(text[s - 1] == before.last());
        }
    }
    assert(find_unescaped_dollar(text) == Some(s));
    let rest = text.skip(s + 1);
    let m = math.len() as int;
    assert forall|k: int| 0 <= k < m implies !#[trigger] is_unescaped_dollar(rest, k) by {
        assert(rest[k] == math[k]);
    }
    lemma_dollar_from_skips(rest, 0, m);
    assert(rest[m] == '$');
    assert(backslashes_before(rest, m) == 0) by {
        if m > 0 {
            assert(rest[m - 1] == math[m - 1]);
        }
    }
    assert(find_unescaped_dollar(rest) == Some(m));
    assert(text.take(s) =~= before);
    assert(rest.take(m) =~= math);
    assert(rest.skip(m + 1) =~= after);
}

/// The backslashes before a position of a prefix are counted alike in the
/// whole text.
proof fn lemma_backslashes_prefix(t: Seq<char>, pre: Seq<char>, k: int)
    requires
        pre.len() <= t.len(),
        forall|i: int| 0 <= i < pre.len() ==> t[i] == pre[i],
        0 <= k <= pre.len(),
    ensures
        backslashes_before(t, k) == backslashes_before(pre, k),
    decreases k,
{
    if k > 0 {
        lemma_backslashes_prefix(t, pre, k - 1);
    }
}

/// Positions that hold no unescaped `$` are passed over by the search.
proof fn lemma_dollar_from_skips(t: Seq<char>, i: int, j: int)
    requires
        0 <= i <= j <= t.len(),
        forall|k: int| i <= k < j ==> !#[trigger] is_unescaped_dollar(t, k),
    ensures
        dollar_from(t, i) == dollar_from(t, j),
    decreases j - i,
{
    if i < j {
        lemma_dollar_from_skips(t, i + 1, j);
    }
}

/// Appends a run of `text` with the given emphasis, unless `text` is empty.
pub fn push_styled_text(inlines: &mut Vec<Inline>, text: &[char], bold: bool, italic: bool)
    ensures
        inlines_view(final(inlines)@) == push_styled(inlines_view(old(inlines)@), text@, bold, italic),
{
    if text.len() == 0 {
        return ;
    }
    let ghost before = inlines@;
    let value = string_from_chars(text);
    if bold {
        inlines.push(Inline::Bold(value));
    } else if italic {
        inlines.push(Inline::Italic(value));
    } else {
        inlines.push(Inline::Text(value));
    }
    assert(inlines_view(inlines@) =~= inlines_view(before).push(styled(text@, bold, italic)));
}

/// Appends the runs of `text`, with inline math split out.
pub fn push_text_with_inline_math(
    inlines: &mut Vec<Inline>,
    text: &[char],
    bold: bool,
    italic: bool,
    math_renderer: MathRenderer,
) -> (res: Result<(), Error>)
    ensures
        match push_text_math(inlines_view(old(inlines)@), text@, bold, italic, math_renderer) {
            Ok(v) => res is Ok && inlines_view(final(inlines)@) == v,
            Err(e) => res matches Err(err) && err@ == e,
        },
{
    let mut rest = slice_chars(text, 0, text.len());
    assert(rest@ =~= text@);
    loop
        invariant
            push_text_math(inlines_view(inlines@), rest@, bold, italic, math_renderer)
                == push_text_math(inlines_view(old(inlines)@), text@, bold, italic, math_renderer),
        decreases rest@.len(),
    {
        let start = match find_unescaped_dollar_in(rest.as_slice()) {
            Some(start) => start,
            None => {
                push_styled_text(inlines, rest.as_slice(), bold, italic);
                return Ok(());
            },
        };
        let rest_len = rest.len();
        proof {
            lemma_dollar_from(rest@, 0);
        }
        let before = slice_chars(rest.as_slice(), 0, start);
        assert(before@ =~= rest@.take(start as int));
        push_styled_text(inlines, before.as_slice(), bold, italic);
        let after_start = slice_chars(rest.as_slice(), start + 1, rest_len);
        assert(after_start@ =~= rest@.skip(start + 1));
        match find_unescaped_dollar_in(after_start.as_slice()) {
            Some(end) => {
                proof {
                    lemma_dollar_from(after_start@, 0);
                }
                if math_renderer == MathRenderer::Disabled {
                    return Err(Error::UnsupportedFeature("math"));
                }
                let math = slice_chars(after_start.as_slice(), 0, end);
                assert(math@ =~= after_start@.take(end as int));
                let ghost acc = inlines@;
                inlines.push(Inline::Math(string_from_chars(math.as_slice())));
                assert(inlines_view(inlines@) =~= inlines_view(acc).push(InlineView::Math(math@)));
                let next = slice_chars(after_start.as_slice(), end + 1, after_start.len());
                assert(next@ =~= after_start@.skip(end + 1));
                rest = next;
            },
            None => {
                let tail = slice_chars(rest.as_slice(), start, rest.len());
                assert(tail@ =~= rest@.skip(start as int));
                push_styled_text(inlines, tail.as_slice(), bold, italic);
                return Ok(());
            },
        }
    }
}

} // verus!
