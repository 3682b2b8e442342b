//! The parts of the style configuration that carry no measurements: the choices
//! that Markdown parsing and the package writer branch on, and the checks of
//! font names and colors.
use vstd::prelude::*;
use vstd::string::*;

use crate::error::{Error, ErrorView};
use crate::text::{chars_of, char_is_space, is_ascii_hex, skip_spaces, skip_spaces_back, trim};

verus! {

/// Page size of the generated slides.
#[derive(Debug, Clone, Copy, PartialEq, Eq)]
pub enum SlideSize {
    Wide16x9,
    Standard4x3,
}

/// The page size in EMUs (12700 per point): 960 by 540 points for 16:9,
/// 720 by 540 points for 4:3.
pub open spec fn size_emu(size: SlideSize) -> (nat, nat) {
    match size {
        SlideSize::Wide16x9 => (960 * 12700, 540 * 12700),
        SlideSize::Standard4x3 => (720 * 12700, 540 * 12700),
    }
}

impl SlideSize {
    /// The page's width and height in EMUs.
    pub fn dimensions_emu(self) -> (res: (u64, u64))
        ensures
            (res.0 as nat, res.1 as nat) == size_emu(self),
    {
        match self {
            SlideSize::Wide16x9 => (960 * 12700, 540 * 12700),
            SlideSize::Standard4x3 => (720 * 12700, 540 * 12700),
        }
    }
}

/// Horizontal placement of images.
#[derive(Debug, Clone, Copy, PartialEq, Eq)]
pub enum ImageAlign {
    Left,
    Center,
    Right,
}

/// How math in the Markdown source is turned into slide content.
#[derive(Debug, Clone, Copy, PartialEq, Eq, Structural)]
/// `Disabled` is the renderer that style files call `none`: math is refused.
pub enum MathRenderer {
    Disabled,
    Literal,
    External,
    Katex,
    Typst,
    Tectonic,
}

#[derive(Debug, Clone)]
pub struct MathStyle {
    pub renderer: MathRenderer,
}

impl Default for MathStyle {
    fn default() -> (res: Self)
        ensures
            res.renderer == MathRenderer::Literal,
    {
        MathStyle { renderer: MathRenderer::Literal }
    }
}

/// The color text with surrounding whitespace and one leading `#` removed.
pub open spec fn color_digits(value: Seq<char>) -> Seq<char> {
    let t = trim(value);
    if t.len() > 0 && t[0] == '#' {
        t.drop_first()
    } else {
        t
    }
}

/// Whether `value` names a color as `#RRGGBB` or `RRGGBB`.
pub open spec fn is_hex_color(value: Seq<char>) -> bool {
    let hex = color_digits(value);
    hex.len() == 6 && forall|i: int| 0 <= i < 6 ==> is_ascii_hex(#[trigger] hex[i])
}

/// Accepts a non-blank font family name; `section` names the style section.
pub fn validate_font_family(section: &str, value: &str) -> (res: Result<(), Error>)
    ensures
        res is Ok <==> trim(value@).len() > 0,
        res matches Err(e) ==> e@ == ErrorView::InvalidStyle(
            section@ + ".font_family must not be empty"@,
        ),
{
    let chars = chars_of(value);
    if crate::text::is_blank(chars.as_slice()) {
        return Err(
            Error::InvalidStyle(String::from_str(section).concat(".font_family must not be empty")),
        );
    }
    Ok(())
}

/// Accepts a hex RGB color such as `#RRGGBB` or `RRGGBB`; `field` names the value.
pub fn validate_color(field: &str, value: &str) -> (res: Result<(), Error>)
    ensures
        res is Ok <==> is_hex_color(value@),
        res matches Err(e) ==> e@ == ErrorView::InvalidStyle(
            field@ + " must be a hex RGB color such as #RRGGBB or RRGGBB"@,
        ),
{
    let chars = chars_of(value);
    let n = chars.len();
    let lo = skip_spaces(chars.as_slice(), 0, n);
    let hi = skip_spaces_back(chars.as_slice(), lo, n);
    assert(chars@.subrange(0, n as int) =~= chars@);
    let ghost t = trim(value@);
    assert(t == chars@.subrange(lo as int, hi as int));
    let start = if lo < hi && chars[lo] == '#' {
        lo + 1
    } else {
        lo
    };
    assert(color_digits(value@) =~= chars@.subrange(start as int, hi as int));
    let mut ok = hi - start == 6;
    let mut i = start;
    while ok && i < hi
        invariant
            start <= i <= hi <= chars@.len(),
            ok ==> hi - start == 6,
            ok ==> forall|k: int| start <= k < i ==> is_ascii_hex(#[trigger] chars@[k]),
            !ok ==> !is_hex_color(value@),
            color_digits(value@) == chars@.subrange(start as int, hi as int),
        decreases hi - i,
    {
        let c = chars[i];
        if !(('0' <= c && c <= '9') || ('a' <= c && c <= 'f') || ('A' <= c && c <= 'F')) {
            assert(color_digits(value@)[i - start] == c);
            ok = false;
        }
        i = i + 1;
    }
    if ok {
        assert forall|k: int| 0 <= k < 6 implies is_ascii_hex(#[trigger] color_digits(value@)[k]) by {
            assert(color_digits(value@)[k] == chars@[start + k]);
        }
        Ok(())
    } else {
        Err(
            Error::InvalidStyle(
                String::from_str(field).concat(
                    " must be a hex RGB color such as #RRGGBB or RRGGBB",
                ),
            ),
        )
    }
}

} // verus!
