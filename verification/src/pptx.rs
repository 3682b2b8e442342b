//! The parts of the PPTX package that do not depend on layout measurements:
//! image headers, XML text escaping, colors, text runs, the package's
//! relationship and content-type parts, and the package archive that holds
//! them all with the slides and their images.
use vstd::prelude::*;

use vstd::string::*;

use std::path::PathBuf;

use crate::archive::{
    archive_bytes, archive_entries, archive_writing, entry_fits, finish_archive, name_fits,
    name_is_new, new_archive, start_entry, write_entry, Archive,
};
use crate::diagnostics::string_texts;
use crate::error::{Error, ErrorView};
use crate::model::{inlines_view, Inline, InlineView, TableAlignment};
use crate::style::{size_emu, SlideSize};
use crate::text::{
    ascii_lower, ascii_upper, decimal, decimal_chars, lemma_decimal_digits, lemma_decimal_injective,
    string_from_chars, trim,
};

verus! {

/// Pixel size of an image, as its file header states it.
#[derive(Debug, Clone, Copy, PartialEq, Eq, Structural)]
pub struct ImageDimensions {
    pub width: u32,
    pub height: u32,
}

/// `d`, unless one of its sides is zero.
pub open spec fn non_zero(d: ImageDimensions) -> Option<ImageDimensions> {
    if d.width == 0 || d.height == 0 {
        None
    } else {
        Some(d)
    }
}

/// The big-endian 16-bit number at `i`.
pub open spec fn be16(b: Seq<u8>, i: int) -> int {
    b[i] * 256 + b[i + 1]
}

/// The big-endian 32-bit number at `i`.
pub open spec fn be32(b: Seq<u8>, i: int) -> int {
    b[i] * 16777216 + b[i + 1] * 65536 + b[i + 2] * 256 + b[i + 3]
}

/// The eight bytes that open every PNG file.
pub open spec fn png_signature() -> Seq<u8> {
    seq![0x89u8, 0x50u8, 0x4eu8, 0x47u8, 0x0du8, 0x0au8, 0x1au8, 0x0au8]
}

/// The dimensions in a PNG header: the signature, then an `IHDR` chunk whose
/// first fields are the width and the height.
pub open spec fn png_dims(b: Seq<u8>) -> Option<ImageDimensions> {
    if b.len() < 24 || b.take(8) != png_signature() || b.subrange(12, 16) != seq![
        0x49u8,
        0x48u8,
        0x44u8,
        0x52u8,
    ] {
        None
    } else {
        non_zero(ImageDimensions { width: be32(b, 16) as u32, height: be32(b, 20) as u32 })
    }
}

/// A JPEG file whose first segment after the Start Of Image marker is a
/// complete Start Of Frame segment, of any of its kinds (baseline, extended,
/// progressive, lossless, hierarchical, arithmetic-coded: markers `C0`-`C3`,
/// `C5`-`C7`, `C9`-`CB`, `CD`-`CF`), has the height and width written in that
/// frame, when neither is zero.
pub proof fn law_frame_gives_jpeg_dimensions(b: Seq<u8>)
    requires
        b.len() >= 11,
        b[0] == 0xff,
        b[1] == 0xd8,
        b[2] == 0xff,
        (0xc0 <= b[3] <= 0xc3) || (0xc5 <= b[3] <= 0xc7) || (0xc9 <= b[3] <= 0xcb) || (0xcd
            <= b[3] <= 0xcf),
        7 <= b[4] * 256 + b[5],
        4 + b[4] * 256 + b[5] <= b.len(),
        b[7] * 256 + b[8] > 0,
        b[9] * 256 + b[10] > 0,
    ensures
        jpeg_dims(b) == Some(
            ImageDimensions {
                width: (b[9] * 256 + b[10]) as u32,
                height: (b[7] * 256 + b[8]) as u32,
            },
        ),
{
    assert(skip_to_ff(b, 2) == 2);
    assert(skip_ff(b, 3) == 3);
    assert(skip_ff(b, 2) == 3);
    assert(is_sof(b[3]));
}

/// A complete JPEG segment that is neither a Start Of Frame, a Start Of Scan
/// nor the End Of Image is passed over: the dimensions are looked for in what
/// follows it.
pub proof fn law_jpeg_other_segments_are_skipped(b: Seq<u8>, i: int)
    requires
        0 <= i,
        i + 4 <= b.len(),
        b[i] == 0xff,
        b[i + 1] != 0xff,
        !((0xc0 <= b[i + 1] <= 0xc3) || (0xc5 <= b[i + 1] <= 0xc7) || (0xc9 <= b[i + 1] <= 0xcb)
            || (0xcd <= b[i + 1] <= 0xcf)),
        b[i + 1] != 0xd9,
        b[i + 1] != 0xda,
        2 <= b[i + 2] * 256 + b[i + 3],
        i + 2 + b[i + 2] * 256 + b[i + 3] <= b.len(),
    ensures
        jpeg_scan(b, i) == jpeg_scan(b, i + 2 + b[i + 2] * 256 + b[i + 3]),
{
    assert(skip_to_ff(b, i) == i);
    assert(skip_ff(b, i + 1) == i + 1);
    assert(skip_ff(b, i) == i + 1);
    assert(!is_sof(b[i + 1]));
}

/// Whether a JPEG marker opens a Start Of Frame segment.
pub open spec fn is_sof(marker: u8) -> bool {
    marker == 0xc0 || marker == 0xc1 || marker == 0xc2 || marker == 0xc3 || marker == 0xc5
        || marker == 0xc6 || marker == 0xc7 || marker == 0xc9 || marker == 0xca || marker == 0xcb
        || marker == 0xcd || marker == 0xce || marker == 0xcf
}

/// The first position from `i` that holds `0xff`, or the end.
pub open spec fn skip_to_ff(b: Seq<u8>, i: int) -> int
    decreases b.len() - i,
{
    if 0 <= i < b.len() && b[i] != 0xff {
        skip_to_ff(b, i + 1)
    } else {
        i
    }
}

/// The first position from `i` that does not hold `0xff`, or the end.
pub open spec fn skip_ff(b: Seq<u8>, i: int) -> int
    decreases b.len() - i,
{
    if 0 <= i < b.len() && b[i] == 0xff {
        skip_ff(b, i + 1)
    } else {
        i
    }
}

/// The dimensions found by walking the JPEG marker segments from `index`:
/// the first Start Of Frame segment gives them; an end or scan marker, or a
/// segment that runs past the data, ends the walk with none.
pub open spec fn jpeg_scan(b: Seq<u8>, index: int) -> Option<ImageDimensions>
    decreases b.len() - index,
{
    if index < 0 || index + 4 > b.len() {
        None
    } else {
        let at = skip_ff(b, skip_to_ff(b, index));
        if at < index || at >= b.len() {
            None
        } else {
            let marker = b[at];
            let seg = at + 1;
            if marker == 0xd9 || marker == 0xda || seg + 2 > b.len() {
                None
            } else {
                let length = be16(b, seg);
                if length < 2 || seg + length > b.len() {
                    None
                } else if is_sof(marker) {
                    if length < 7 {
                        None
                    } else {
                        non_zero(
                            ImageDimensions {
                                height: be16(b, seg + 3) as u32,
                                width: be16(b, seg + 5) as u32,
                            },
                        )
                    }
                } else {
                    jpeg_scan(b, seg + length)
                }
            }
        }
    }
}

/// The dimensions in a JPEG file: after the Start Of Image marker, from the
/// first Start Of Frame segment.
pub open spec fn jpeg_dims(b: Seq<u8>) -> Option<ImageDimensions> {
    if b.len() < 4 || b[0] != 0xff || b[1] != 0xd8 {
        None
    } else {
        jpeg_scan(b, 2)
    }
}

proof fn lemma_skip_to_ff(b: Seq<u8>, i: int)
    requires
        0 <= i,
    ensures
        i <= skip_to_ff(b, i),
        i <= b.len() ==> skip_to_ff(b, i) <= b.len(),
    decreases b.len() - i,
{
    if 0 <= i < b.len() && b[i] != 0xff {
        lemma_skip_to_ff(b, i + 1);
    }
}

proof fn lemma_skip_ff(b: Seq<u8>, i: int)
    requires
        0 <= i,
    ensures
        i <= skip_ff(b, i),
        i <= b.len() ==> skip_ff(b, i) <= b.len(),
    decreases b.len() - i,
{
    if 0 <= i < b.len() && b[i] == 0xff {
        lemma_skip_ff(b, i + 1);
    }
}

/// Keeps `dimensions` unless a side is zero.
fn non_zero_dimensions(dimensions: ImageDimensions) -> (res: Option<ImageDimensions>)
    ensures
        res == non_zero(dimensions),
{
    if dimensions.width == 0 || dimensions.height == 0 {
        None
    } else {
        Some(dimensions)
    }
}

/// Whether `marker` is one of the JPEG Start Of Frame markers.
fn is_jpeg_sof_marker(marker: u8) -> (res: bool)
    ensures
        res == is_sof(marker),
{
    marker == 0xc0 || marker == 0xc1 || marker == 0xc2 || marker == 0xc3 || marker == 0xc5
        || marker == 0xc6 || marker == 0xc7 || marker == 0xc9 || marker == 0xca || marker == 0xcb
        || marker == 0xcd || marker == 0xce || marker == 0xcf
}

fn read_be16(b: &[u8], i: usize) -> (res: u32)
    requires
        i + 2 <= b@.len(),
    ensures
        res == be16(b@, i as int),
{
    (b[i] as u32) * 256 + (b[i + 1] as u32)
}

fn read_be32(b: &[u8], i: usize) -> (res: u32)
    requires
        i + 4 <= b@.len(),
    ensures
        res == be32(b@, i as int),
{
    (b[i] as u32) * 16777216 + (b[i + 1] as u32) * 65536 + (b[i + 2] as u32) * 256 + (b[
        i + 3] as u32)
}

/// The width and height in a PNG file's header, if it has a valid one with no
/// zero side.
pub fn png_dimensions(bytes: &[u8]) -> (res: Option<ImageDimensions>)
    ensures
        res == png_dims(bytes@),
{
    if bytes.len() < 24 {
        return None;
    }
    let signature: [u8; 8] = [0x89, 0x50, 0x4e, 0x47, 0x0d, 0x0a, 0x1a, 0x0a];
    let chunk: [u8; 4] = [0x49, 0x48, 0x44, 0x52];
    let mut i: usize = 0;
    while i < 8
        invariant
            i <= 8,
            bytes@.len() >= 24,
            signature@ == png_signature(),
            forall|k: int| 0 <= k < i ==> bytes@[k] == png_signature()[k],
        decreases 8 - i,
    {
        if bytes[i] != signature[i] {
            assert(bytes@.take(8)[i as int] != png_signature()[i as int]);
            return None;
        }
        i = i + 1;
    }
    assert(bytes@.take(8) =~= png_signature());
    let mut j: usize = 0;
    while j < 4
        invariant
            j <= 4,
            bytes@.len() >= 24,
            chunk@ == seq![0x49u8, 0x48u8, 0x44u8, 0x52u8],
            forall|k: int| 0 <= k < j ==> bytes@[12 + k] == chunk@[k],
        decreases 4 - j,
    {
        if bytes[12 + j] != chunk[j] {
            assert(bytes@.subrange(12, 16)[j as int] != chunk@[j as int]);
            return None;
        }
        j = j + 1;
    }
    assert(bytes@.subrange(12, 16) =~= seq![0x49u8, 0x48u8, 0x44u8, 0x52u8]);
    non_zero_dimensions(
        ImageDimensions { width: read_be32(bytes, 16), height: read_be32(bytes, 20) },
    )
}

/// The width and height in a JPEG file's first Start Of Frame segment, if the
/// file opens with a Start Of Image marker and such a segment comes before the
/// scan data; a zero side gives none.
pub fn jpeg_dimensions(bytes: &[u8]) -> (res: Option<ImageDimensions>)
    ensures
        res == jpeg_dims(bytes@),
{
    if bytes.len() < 4 || bytes[0] != 0xff || bytes[1] != 0xd8 {
        return None;
    }
    let n = bytes.len();
    let mut index: usize = 2;
    while index <= n - 4
        invariant
            n == bytes@.len(),
            n >= 4,
            2 <= index <= n,
            jpeg_scan(bytes@, index as int) == jpeg_dims(bytes@),
        decreases n - index,
    {
        let ghost start = index as int;
        proof {
            lemma_skip_to_ff(bytes@, start);
        }
        while index < n && bytes[index] != 0xff
            invariant
                n == bytes@.len(),
                start <= index <= n,
                skip_to_ff(bytes@, index as int) == skip_to_ff(bytes@, start),
            decreases n - index,
        {
            index = index + 1;
        }
        let ghost mid = index as int;
        proof {
            lemma_skip_ff(bytes@, mid);
        }
        while index < n && bytes[index] == 0xff
            invariant
                n == bytes@.len(),
                mid <= index <= n,
                skip_ff(bytes@, index as int) == skip_ff(bytes@, mid),
            decreases n - index,
        {
            index = index + 1;
        }
        assert(index as int == skip_ff(bytes@, skip_to_ff(bytes@, start)));
        if index >= n {
            return None;
        }
        let marker = bytes[index];
        index = index + 1;
        if marker == 0xd9 || marker == 0xda {
            return None;
        }
        if index > n - 2 {
            return None;
        }
        let length = read_be16(bytes, index) as usize;
        if length < 2 || length > n - index {
            return None;
        }
        if is_jpeg_sof_marker(marker) {
            if length < 7 {
                return None;
            }
            let height = read_be16(bytes, index + 3);
            let width = read_be16(bytes, index + 5);
            return non_zero_dimensions(ImageDimensions { width, height });
        }
        index = index + length;
    }
    None
}

/// The dimensions of an image file, read by its lower-case extension.
pub open spec fn image_dims(extension: Seq<char>, bytes: Seq<u8>) -> Option<ImageDimensions> {
    if extension == "png"@ {
        png_dims(bytes)
    } else if extension == "jpg"@ || extension == "jpeg"@ {
        jpeg_dims(bytes)
    } else {
        None
    }
}

/// Reads the dimensions of a `png`, `jpg` or `jpeg` file from its header.
pub fn image_dimensions(extension: &str, bytes: &[u8]) -> (res: Option<ImageDimensions>)
    ensures
        res == image_dims(extension@, bytes@),
{
    let ext = crate::text::chars_of(extension);
    if crate::text::chars_eq(ext.as_slice(), crate::text::chars_of("png").as_slice()) {
        png_dimensions(bytes)
    } else if crate::text::chars_eq(ext.as_slice(), crate::text::chars_of("jpg").as_slice())
        || crate::text::chars_eq(ext.as_slice(), crate::text::chars_of("jpeg").as_slice()) {
        jpeg_dimensions(bytes)
    } else {
        None
    }
}


/// The XML text for one character: the five markup characters become entity
/// references, every other character stands for itself.
pub open spec fn escape_char(c: char) -> Seq<char> {
    if c == '&' {
        seq!['&', 'a', 'm', 'p', ';']
    } else if c == '<' {
        seq!['&', 'l', 't', ';']
    } else if c == '>' {
        seq!['&', 'g', 't', ';']
    } else if c == '"' {
        seq!['&', 'q', 'u', 'o', 't', ';']
    } else if c == '\'' {
        seq!['&', 'a', 'p', 'o', 's', ';']
    } else {
        seq![c]
    }
}

/// The XML text for `s`, character by character.
pub open spec fn escape_text(s: Seq<char>) -> Seq<char>
    decreases s.len(),
{
    if s.len() == 0 {
        seq![]
    } else {
        escape_text(s.drop_last()) + escape_char(s.last())
    }
}

fn push_chars(out: &mut Vec<char>, tail: &[char])
    ensures
        final(out)@ == old(out)@ + tail@,
{
    let mut i: usize = 0;
    while i < tail.len()
        invariant
            i <= tail@.len(),
            out@ == old(out)@ + tail@.take(i as int),
        decreases tail.len() - i,
    {
        out.push(tail[i]);
        i = i + 1;
        assert(out@ =~= old(out)@ + tail@.take(i as int));
    }
    assert(tail@.take(i as int) =~= tail@);
}

/// Escapes text for XML element content and attribute values.
pub fn escape(value: &str) -> (res: String)
    ensures
        res@ == escape_text(value@),
{
    let chars = crate::text::chars_of(value);
    let mut out: Vec<char> = Vec::new();
    let mut i: usize = 0;
    assert(chars@.take(0) =~= seq![]);
    while i < chars.len()
        invariant
            i <= chars@.len(),
            out@ == escape_text(chars@.take(i as int)),
        decreases chars.len() - i,
    {
        let c = chars[i];
        let ghost before = out@;
        if c == '&' {
            push_chars(&mut out, &['&', 'a', 'm', 'p', ';']);
        } else if c == '<' {
            push_chars(&mut out, &['&', 'l', 't', ';']);
        } else if c == '>' {
            push_chars(&mut out, &['&', 'g', 't', ';']);
        } else if c == '"' {
            push_chars(&mut out, &['&', 'q', 'u', 'o', 't', ';']);
        } else if c == '\'' {
            push_chars(&mut out, &['&', 'a', 'p', 'o', 's', ';']);
        } else {
            out.push(c);
        }
        assert(out@ =~= before + escape_char(c));
        assert(chars@.take(i + 1).drop_last() =~= chars@.take(i as int));
        i = i + 1;
    }
    assert(chars@.take(i as int) =~= chars@);
    crate::text::string_from_chars(out.as_slice())
}

/// `s` without its leading `#` characters.
pub open spec fn strip_hashes(s: Seq<char>) -> Seq<char>
    decreases s.len(),
{
    if s.len() > 0 && s[0] == '#' {
        strip_hashes(s.drop_first())
    } else {
        s
    }
}

/// `s` with ASCII lower-case letters mapped to upper case.
pub open spec fn upper_text(s: Seq<char>) -> Seq<char> {
    s.map_values(|c: char| ascii_upper(c))
}

/// The `RRGGBB` text of a color as the XML wants it: trimmed, without leading
/// `#`, in upper case.
pub open spec fn color_code(value: Seq<char>) -> Seq<char> {
    upper_text(strip_hashes(trim(value)))
}

/// The color value written into `srgbClr` elements.
pub fn color(value: &str) -> (res: String)
    ensures
        res@ == color_code(value@),
{
    let chars = crate::text::chars_of(value);
    let t = crate::text::trimmed(chars.as_slice());
    let mut start: usize = 0;
    assert(t@.skip(0) =~= t@);
    while start < t.len() && t[start] == '#'
        invariant
            start <= t@.len(),
            strip_hashes(t@.skip(start as int)) == strip_hashes(t@),
        decreases t.len() - start,
    {
        assert(t@.skip(start as int).drop_first() =~= t@.skip(start + 1));
        start = start + 1;
    }
    let ghost rest = t@.skip(start as int);
    assert(strip_hashes(rest) == rest);
    let mut out: Vec<char> = Vec::new();
    let mut i: usize = start;
    while i < t.len()
        invariant
            start <= i <= t@.len(),
            rest == t@.skip(start as int),
            out@ =~= upper_text(t@.subrange(start as int, i as int)),
        decreases t.len() - i,
    {
        out.push(crate::text::char_ascii_upper(t[i]));
        i = i + 1;
        assert(out@ =~= upper_text(t@.subrange(start as int, i as int)));
    }
    assert(t@.subrange(start as int, i as int) =~= rest);
    crate::text::string_from_chars(out.as_slice())
}


/// The relationship from `presentation.xml` to slide `i`.
pub open spec fn slide_relationship(i: nat) -> Seq<char> {
    r#"<Relationship Id="rId"#@ + decimal(i)
        + r#"" Type="http://schemas.openxmlformats.org/officeDocument/2006/relationships/slide" Target="slides/slide"#@
        + decimal(i) + r#".xml"/>"#@
}

/// The texts `f(1)`, ..., `f(n)`, one after the other.
pub open spec fn numbered(f: spec_fn(nat) -> Seq<char>, n: nat) -> Seq<char>
    decreases n,
{
    if n == 0 {
        seq![]
    } else {
        numbered(f, (n - 1) as nat) + f(n)
    }
}

/// The relationships to slides `1..=n`, in order.
pub open spec fn slide_relationships(n: nat) -> Seq<char> {
    numbered(|i: nat| slide_relationship(i), n)
}

/// The relationship with id `rId{id}` from `presentation.xml` to the slide master.
pub open spec fn master_relationship(id: nat) -> Seq<char> {
    r#"<Relationship Id="rId"#@ + decimal(id)
        + r#"" Type="http://schemas.openxmlformats.org/officeDocument/2006/relationships/slideMaster" Target="slideMasters/slideMaster1.xml"/>"#@
}

/// The relationship id of the slide master in a deck of `n` slides: it comes
/// after the ids of the slides.
pub open spec fn master_rel_id(n: nat) -> nat {
    n + 1
}

/// `ppt/_rels/presentation.xml.rels` for a deck of `n` slides.
pub open spec fn presentation_rels_xml(n: nat) -> Seq<char> {
    r#"<?xml version="1.0" encoding="UTF-8" standalone="yes"?><Relationships xmlns="http://schemas.openxmlformats.org/package/2006/relationships">"#@
        + slide_relationships(n) + master_relationship(master_rel_id(n))
        + "</Relationships>"@
}

/// The decimal text of `n`.
fn decimal_string(n: usize) -> (res: String)
    ensures
        res@ == decimal(n as nat),
{
    let digits = decimal_chars(n as u64);
    string_from_chars(digits.as_slice())
}

/// The relationships part of `presentation.xml`: one per slide, then the
/// slide master's.
pub fn presentation_rels(slide_count: usize) -> (res: String)
    requires
        slide_count < usize::MAX,
    ensures
        res@ == presentation_rels_xml(slide_count as nat),
{
    let mut rels = String::new();
    let mut idx: usize = 1;
    while idx <= slide_count
        invariant
            1 <= idx <= slide_count + 1,
            slide_count < usize::MAX,
            rels@ == slide_relationships((idx - 1) as nat),
        decreases slide_count + 1 - idx,
    {
        let number = decimal_string(idx);
        let ghost before = rels@;
        rels.append(r#"<Relationship Id="rId"#);
        rels.append(number.as_str());
        rels.append(
            r#"" Type="http://schemas.openxmlformats.org/officeDocument/2006/relationships/slide" Target="slides/slide"#,
        );
        rels.append(number.as_str());
        rels.append(r#".xml"/>"#);
        assert(rels@ =~= before + slide_relationship(idx as nat));
        idx = idx + 1;
    }
    let master = decimal_string(slide_count + 1);
    let mut out = String::from_str(
        r#"<?xml version="1.0" encoding="UTF-8" standalone="yes"?><Relationships xmlns="http://schemas.openxmlformats.org/package/2006/relationships">"#,
    );
    out.append(rels.as_str());
    out.append(r#"<Relationship Id="rId"#);
    out.append(master.as_str());
    out.append(
        r#"" Type="http://schemas.openxmlformats.org/officeDocument/2006/relationships/slideMaster" Target="slideMasters/slideMaster1.xml"/>"#,
    );
    out.append("</Relationships>");
    assert(out@ =~= presentation_rels_xml(slide_count as nat));
    out
}


/// The entry for slide `i` in the slide id list of `presentation.xml`;
/// slide ids start at 256.
pub open spec fn slide_id_entry(i: nat) -> Seq<char> {
    r#"<p:sldId id=""#@ + decimal(255 + i) + r#"" r:id="rId"#@ + decimal(i) + r#""/>"#@
}

/// The slide id entries of slides `1..=n`, in order.
pub open spec fn slide_id_entries(n: nat) -> Seq<char> {
    numbered(|i: nat| slide_id_entry(i), n)
}

/// The slide master entry of `presentation.xml`, through relationship `rId{id}`.
pub open spec fn master_reference(id: nat) -> Seq<char> {
    r#"<p:sldMasterId id="2147483648" r:id="rId"#@ + decimal(id) + r#""/>"#@
}

/// `ppt/presentation.xml` for a deck of `n` slides of the given size.
pub open spec fn presentation_xml_text(n: nat, size: SlideSize) -> Seq<char> {
    r#"<?xml version="1.0" encoding="UTF-8" standalone="yes"?><p:presentation xmlns:a="http://schemas.openxmlformats.org/drawingml/2006/main" xmlns:r="http://schemas.openxmlformats.org/officeDocument/2006/relationships" xmlns:p="http://schemas.openxmlformats.org/presentationml/2006/main"><p:sldMasterIdLst>"#@
        + master_reference(master_rel_id(n)) + r#"</p:sldMasterIdLst><p:sldIdLst>"#@
        + slide_id_entries(n) + r#"</p:sldIdLst><p:sldSz cx=""#@ + decimal(size_emu(size).0)
        + r#"" cy=""#@ + decimal(size_emu(size).1)
        + r#"" type="screen16x9"/><p:notesSz cx="6858000" cy="9144000"/></p:presentation>"#@
}

/// The presentation part: the slide master reference, the slide list and the
/// page size.
pub fn presentation_xml(slide_count: usize, size: SlideSize) -> (res: String)
    requires
        slide_count + 256 <= usize::MAX,
    ensures
        res@ == presentation_xml_text(slide_count as nat, size),
{
    let mut ids = String::new();
    let mut idx: usize = 1;
    while idx <= slide_count
        invariant
            1 <= idx <= slide_count + 1,
            slide_count + 256 <= usize::MAX,
            ids@ == slide_id_entries((idx - 1) as nat),
        decreases slide_count + 1 - idx,
    {
        let id = decimal_string(255 + idx);
        let number = decimal_string(idx);
        let ghost before = ids@;
        ids.append(r#"<p:sldId id=""#);
        ids.append(id.as_str());
        ids.append(r#"" r:id="rId"#);
        ids.append(number.as_str());
        ids.append(r#""/>"#);
        assert(ids@ =~= before + slide_id_entry(idx as nat));
        idx = idx + 1;
    }
    let (w, h) = size.dimensions_emu();
    let master = decimal_string(slide_count + 1);
    let width = string_from_chars(decimal_chars(w).as_slice());
    let height = string_from_chars(decimal_chars(h).as_slice());
    let mut out = String::from_str(
        r#"<?xml version="1.0" encoding="UTF-8" standalone="yes"?><p:presentation xmlns:a="http://schemas.openxmlformats.org/drawingml/2006/main" xmlns:r="http://schemas.openxmlformats.org/officeDocument/2006/relationships" xmlns:p="http://schemas.openxmlformats.org/presentationml/2006/main"><p:sldMasterIdLst>"#,
    );
    out.append(r#"<p:sldMasterId id="2147483648" r:id="rId"#);
    out.append(master.as_str());
    out.append(r#""/>"#);
    out.append(r#"</p:sldMasterIdLst><p:sldIdLst>"#);
    out.append(ids.as_str());
    out.append(r#"</p:sldIdLst><p:sldSz cx=""#);
    out.append(width.as_str());
    out.append(r#"" cy=""#);
    out.append(height.as_str());
    out.append(r#"" type="screen16x9"/><p:notesSz cx="6858000" cy="9144000"/></p:presentation>"#);
    assert(out@ =~= presentation_xml_text(slide_count as nat, size));
    out
}


/// `s` with ASCII upper-case letters mapped to lower case.
pub open spec fn lower_text(s: Seq<char>) -> Seq<char> {
    s.map_values(|c: char| ascii_lower(c))
}

/// The MIME type of an image by its lower-case extension.
pub open spec fn content_type_for(extension: Seq<char>) -> Option<Seq<char>> {
    if extension == "png"@ {
        Some("image/png"@)
    } else if extension == "jpg"@ || extension == "jpeg"@ {
        Some("image/jpeg"@)
    } else if extension == "svg"@ {
        Some("image/svg+xml"@)
    } else {
        None
    }
}

fn lowercase(value: &str) -> (res: String)
    ensures
        res@ == lower_text(value@),
{
    let chars = crate::text::chars_of(value);
    let mut out: Vec<char> = Vec::new();
    let mut i: usize = 0;
    while i < chars.len()
        invariant
            i <= chars@.len(),
            out@ =~= lower_text(chars@.take(i as int)),
        decreases chars.len() - i,
    {
        out.push(crate::text::char_ascii_lower(chars[i]));
        i = i + 1;
        assert(out@ =~= lower_text(chars@.take(i as int)));
    }
    assert(chars@.take(i as int) =~= chars@);
    string_from_chars(out.as_slice())
}

/// The MIME type of an image file by its extension, in any letter case:
/// `png` files are `image/png`, `jpg` and `jpeg` files `image/jpeg`, `svg`
/// files `image/svg+xml`.
pub fn image_content_type(extension: &str) -> (res: Option<&'static str>)
    ensures
        match content_type_for(lower_text(extension@)) {
            Some(t) => res matches Some(r) && r@ == t,
            None => res is None,
        },
{
    let lower = lowercase(extension);
    let ext = crate::text::chars_of(lower.as_str());
    if crate::text::chars_eq(ext.as_slice(), crate::text::chars_of("png").as_slice()) {
        Some("image/png")
    } else if crate::text::chars_eq(ext.as_slice(), crate::text::chars_of("jpg").as_slice())
        || crate::text::chars_eq(ext.as_slice(), crate::text::chars_of("jpeg").as_slice()) {
        Some("image/jpeg")
    } else if crate::text::chars_eq(ext.as_slice(), crate::text::chars_of("svg").as_slice()) {
        Some("image/svg+xml")
    } else {
        None
    }
}

/// The intrinsic size of an image file by its lower-case extension: `None`
/// when it cannot be read, `Some(None)` for an SVG drawing, which is taken
/// without reading a size from it.
pub open spec fn media_dims(extension: Seq<char>, bytes: Seq<u8>) -> Option<Option<ImageDimensions>> {
    if extension == "svg"@ {
        Some(None)
    } else {
        match image_dims(extension, bytes) {
            Some(d) => Some(Some(d)),
            None => None,
        }
    }
}

/// An image to be stored in the package, with the slide that shows it.
#[derive(Debug)]
pub struct MediaFile {
    pub slide_number: usize,
    pub media_number: usize,
    pub path: PathBuf,
    pub dimensions: Option<ImageDimensions>,
    pub extension: String,
    pub content_type: &'static str,
    pub bytes: Vec<u8>,
}

impl MediaFile {
    /// The image read from `path` with the given extension and contents, as
    /// image number `media_number` of the package on slide `slide_number`.
    /// `png`, `jpg` and `jpeg` files are accepted with readable, non-zero
    /// dimensions; `svg` files are accepted as they are, with no dimensions.
    pub fn new(
        slide_number: usize,
        media_number: usize,
        path: PathBuf,
        extension: &str,
        bytes: Vec<u8>,
    ) -> (res: Result<MediaFile, Error>)
        ensures
            match (
                content_type_for(lower_text(extension@)),
                media_dims(lower_text(extension@), bytes@),
            ) {
                (Some(t), Some(d)) => res matches Ok(m) && m.slide_number == slide_number
                    && m.media_number == media_number && m.path == path && m.dimensions == d
                    && m.extension@ == lower_text(extension@) && m.content_type@ == t
                    && m.bytes@ == bytes@,
                _ => res matches Err(e) && e@ == ErrorView::UnsupportedImageFormat(path),
            },
    {
        let lower = lowercase(extension);
        let content_type = match image_content_type(lower.as_str()) {
            Some(t) => t,
            None => {
                assert(lower_text(lower_text(extension@)) =~= lower_text(extension@));
                return Err(Error::UnsupportedImageFormat(path));
            },
        };
        assert(lower_text(lower_text(extension@)) =~= lower_text(extension@));
        let dimensions = if crate::text::chars_eq(
            crate::text::chars_of(lower.as_str()).as_slice(),
            crate::text::chars_of("svg").as_slice(),
        ) {
            None
        } else {
            match image_dimensions(lower.as_str(), bytes.as_slice()) {
                Some(d) => Some(d),
                None => return Err(Error::UnsupportedImageFormat(path)),
            }
        };
        Ok(
            MediaFile {
                slide_number,
                media_number,
                path,
                dimensions,
                extension: lower,
                content_type,
                bytes,
            },
        )
    }
}


/// Whether some image in `media` has the MIME type `t`.
pub open spec fn has_content_type(media: Seq<MediaFile>, t: Seq<char>) -> bool {
    exists|i: int| 0 <= i < media.len() && (#[trigger] media[i]).content_type@ == t
}

/// The content-type override of slide `i`.
pub open spec fn slide_override(i: nat) -> Seq<char> {
    r#"<Override PartName="/ppt/slides/slide"#@ + decimal(i)
        + r#".xml" ContentType="application/vnd.openxmlformats-officedocument.presentationml.slide+xml"/>"#@
}

/// The overrides of slides `1..=n`, in order.
pub open spec fn slide_overrides(n: nat) -> Seq<char> {
    numbered(|i: nat| slide_override(i), n)
}

/// The default content types: relationships and XML always, then PNG, JPEG
/// and SVG when the package holds such images.
pub open spec fn content_defaults(png: bool, jpeg: bool, svg: bool) -> Seq<char> {
    r#"<Default Extension="rels" ContentType="application/vnd.openxmlformats-package.relationships+xml"/><Default Extension="xml" ContentType="application/xml"/>"#@
        + (if png {
        r#"<Default Extension="png" ContentType="image/png"/>"#@
    } else {
        seq![]
    }) + (if jpeg {
        r#"<Default Extension="jpg" ContentType="image/jpeg"/><Default Extension="jpeg" ContentType="image/jpeg"/>"#@
    } else {
        seq![]
    }) + (if svg {
        r#"<Default Extension="svg" ContentType="image/svg+xml"/>"#@
    } else {
        seq![]
    })
}

/// `[Content_Types].xml` for `n` slides, with or without PNG, JPEG and SVG
/// images.
pub open spec fn content_types_xml(n: nat, png: bool, jpeg: bool, svg: bool) -> Seq<char> {
    r#"<?xml version="1.0" encoding="UTF-8" standalone="yes"?><Types xmlns="http://schemas.openxmlformats.org/package/2006/content-types">"#@
        + content_defaults(png, jpeg, svg)
        + r#"<Override PartName="/docProps/app.xml" ContentType="application/vnd.openxmlformats-officedocument.extended-properties+xml"/><Override PartName="/docProps/core.xml" ContentType="application/vnd.openxmlformats-package.core-properties+xml"/><Override PartName="/ppt/presentation.xml" ContentType="application/vnd.openxmlformats-officedocument.presentationml.presentation.main+xml"/><Override PartName="/ppt/slideMasters/slideMaster1.xml" ContentType="application/vnd.openxmlformats-officedocument.presentationml.slideMaster+xml"/><Override PartName="/ppt/slideLayouts/slideLayout1.xml" ContentType="application/vnd.openxmlformats-officedocument.presentationml.slideLayout+xml"/><Override PartName="/ppt/theme/theme1.xml" ContentType="application/vnd.openxmlformats-officedocument.theme+xml"/>"#@
        + slide_overrides(n) + "</Types>"@
}

fn any_content_type(media: &[MediaFile], t: &str) -> (res: bool)
    ensures
        res == has_content_type(media@, t@),
{
    let wanted = crate::text::chars_of(t);
    let mut i: usize = 0;
    while i < media.len()
        invariant
            i <= media@.len(),
            wanted@ == t@,
            forall|k: int| 0 <= k < i ==> (#[trigger] media@[k]).content_type@ != t@,
        decreases media.len() - i,
    {
        let found = crate::text::chars_of(media[i].content_type);
        if crate::text::chars_eq(found.as_slice(), wanted.as_slice()) {
            assert(media@[i as int].content_type@ == t@);
            return true;
        }
        i = i + 1;
    }
    false
}

/// The content types part: the defaults for the image types present, the
/// fixed parts, and one override per slide.
pub fn content_types(slide_count: usize, media: &[MediaFile]) -> (res: String)
    requires
        slide_count < usize::MAX,
    ensures
        res@ == content_types_xml(
            slide_count as nat,
            has_content_type(media@, "image/png"@),
            has_content_type(media@, "image/jpeg"@),
            has_content_type(media@, "image/svg+xml"@),
        ),
{
    let png = any_content_type(media, "image/png");
    let jpeg = any_content_type(media, "image/jpeg");
    let svg = any_content_type(media, "image/svg+xml");
    content_types_with(slide_count, png, jpeg, svg)
}

/// The content types part for `slide_count` slides, with the PNG, JPEG and
/// SVG defaults as asked.
fn content_types_with(slide_count: usize, png: bool, jpeg: bool, svg: bool) -> (res: String)
    requires
        slide_count < usize::MAX,
    ensures
        res@ == content_types_xml(slide_count as nat, png, jpeg, svg),
{
    let mut overrides = String::new();
    let mut slide: usize = 1;
    while slide <= slide_count
        invariant
            1 <= slide <= slide_count + 1,
            slide_count < usize::MAX,
            overrides@ == slide_overrides((slide - 1) as nat),
        decreases slide_count + 1 - slide,
    {
        let number = decimal_string(slide);
        let ghost before = overrides@;
        overrides.append(r#"<Override PartName="/ppt/slides/slide"#);
        overrides.append(number.as_str());
        overrides.append(
            r#".xml" ContentType="application/vnd.openxmlformats-officedocument.presentationml.slide+xml"/>"#,
        );
        assert(overrides@ =~= before + slide_override(slide as nat));
        slide = slide + 1;
    }
    let mut out = String::from_str(
        r#"<?xml version="1.0" encoding="UTF-8" standalone="yes"?><Types xmlns="http://schemas.openxmlformats.org/package/2006/content-types">"#,
    );
    out.append(
        r#"<Default Extension="rels" ContentType="application/vnd.openxmlformats-package.relationships+xml"/><Default Extension="xml" ContentType="application/xml"/>"#,
    );
    if png {
        out.append(r#"<Default Extension="png" ContentType="image/png"/>"#);
    }
    if jpeg {
        out.append(
            r#"<Default Extension="jpg" ContentType="image/jpeg"/><Default Extension="jpeg" ContentType="image/jpeg"/>"#,
        );
    }
    if svg {
        out.append(r#"<Default Extension="svg" ContentType="image/svg+xml"/>"#);
    }
    out.append(
        r#"<Override PartName="/docProps/app.xml" ContentType="application/vnd.openxmlformats-officedocument.extended-properties+xml"/><Override PartName="/docProps/core.xml" ContentType="application/vnd.openxmlformats-package.core-properties+xml"/><Override PartName="/ppt/presentation.xml" ContentType="application/vnd.openxmlformats-officedocument.presentationml.presentation.main+xml"/><Override PartName="/ppt/slideMasters/slideMaster1.xml" ContentType="application/vnd.openxmlformats-officedocument.presentationml.slideMaster+xml"/><Override PartName="/ppt/slideLayouts/slideLayout1.xml" ContentType="application/vnd.openxmlformats-officedocument.presentationml.slideLayout+xml"/><Override PartName="/ppt/theme/theme1.xml" ContentType="application/vnd.openxmlformats-officedocument.theme+xml"/>"#,
    );
    out.append(overrides.as_str());
    out.append("</Types>");
    assert(out@ =~= content_types_xml(slide_count as nat, png, jpeg, svg));
    out
}

/// The relationship from a slide to its `k`-th image (counting from 0), which
/// is stored as `ppt/media/image{number}.{extension}`; `rId1` is the slide
/// layout's, so images start at `rId2`.
pub open spec fn image_relationship(k: nat, number: nat, extension: Seq<char>) -> Seq<char> {
    "<Relationship "@ + relationship_id(k + 2)
        + r#" Type="http://schemas.openxmlformats.org/officeDocument/2006/relationships/image" Target=""#@
        + image_target(number, extension) + r#""/>"#@
}

/// The id attribute of relationship `rId{n}`.
pub open spec fn relationship_id(n: nat) -> Seq<char> {
    r#"Id="rId"#@ + decimal(n) + r#"""#@
}

/// The target of an image relationship, relative to the slide's folder.
pub open spec fn image_target(number: nat, extension: Seq<char>) -> Seq<char> {
    "../media/image"@ + decimal(number) + "."@ + extension
}

/// The image relationships of the images `media`, in order.
pub open spec fn image_relationships(media: Seq<MediaFile>) -> Seq<char>
    decreases media.len(),
{
    if media.len() == 0 {
        seq![]
    } else {
        image_relationships(media.drop_last()) + image_relationship(
            (media.len() - 1) as nat,
            media.last().media_number as nat,
            media.last().extension@,
        )
    }
}

/// `ppt/slides/_rels/slide{n}.xml.rels` for a slide showing `media`.
pub open spec fn slide_rels_xml(media: Seq<MediaFile>) -> Seq<char> {
    r#"<?xml version="1.0" encoding="UTF-8" standalone="yes"?><Relationships xmlns="http://schemas.openxmlformats.org/package/2006/relationships"><Relationship Id="rId1" Type="http://schemas.openxmlformats.org/officeDocument/2006/relationships/slideLayout" Target="../slideLayouts/slideLayout1.xml"/>"#@
        + image_relationships(media) + "</Relationships>"@
}

/// The relationships part of one slide: its layout, then its images.
pub fn slide_rels(media: &[MediaFile]) -> (res: String)
    requires
        media@.len() + 2 <= usize::MAX,
    ensures
        res@ == slide_rels_xml(media@),
{
    let mut image_rels = String::new();
    let mut idx: usize = 0;
    assert(media@.take(0) =~= seq![]);
    while idx < media.len()
        invariant
            idx <= media@.len(),
            media@.len() + 2 <= usize::MAX,
            image_rels@ == image_relationships(media@.take(idx as int)),
        decreases media.len() - idx,
    {
        let rel = decimal_string(idx + 2);
        let number = decimal_string(media[idx].media_number);
        let ghost before = image_rels@;
        image_rels.append("<Relationship ");
        image_rels.append(r#"Id="rId"#);
        image_rels.append(rel.as_str());
        image_rels.append(r#"""#);
        image_rels.append(
            r#" Type="http://schemas.openxmlformats.org/officeDocument/2006/relationships/image" Target=""#,
        );
        image_rels.append("../media/image");
        image_rels.append(number.as_str());
        image_rels.append(".");
        image_rels.append(media[idx].extension.as_str());
        image_rels.append(r#""/>"#);
        assert(media@.take(idx + 1).drop_last() =~= media@.take(idx as int));
        assert(image_rels@ =~= before + image_relationship(
            idx as nat,
            media@[idx as int].media_number as nat,
            media@[idx as int].extension@,
        ));
        idx = idx + 1;
    }
    assert(media@.take(idx as int) =~= media@);
    let mut out = String::from_str(
        r#"<?xml version="1.0" encoding="UTF-8" standalone="yes"?><Relationships xmlns="http://schemas.openxmlformats.org/package/2006/relationships"><Relationship Id="rId1" Type="http://schemas.openxmlformats.org/officeDocument/2006/relationships/slideLayout" Target="../slideLayouts/slideLayout1.xml"/>"#,
    );
    out.append(image_rels.as_str());
    out.append("</Relationships>");
    out
}

/// The package name of an image: `ppt/media/image{number}.{extension}`.
pub open spec fn media_part(number: nat, extension: Seq<char>) -> Seq<char> {
    "ppt/media/image"@ + decimal(number) + "."@ + extension
}

/// Where an image is stored in the package.
pub fn media_part_name(media: &MediaFile) -> (res: String)
    ensures
        res@ == media_part(media.media_number as nat, media.extension@),
{
    let number = decimal_string(media.media_number);
    let mut out = String::from_str("ppt/media/image");
    out.append(number.as_str());
    out.append(".");
    out.append(media.extension.as_str());
    out
}

/// The package name of slide `n`: `ppt/slides/slide{n}.xml`.
pub open spec fn slide_part(n: nat) -> Seq<char> {
    "ppt/slides/slide"@ + decimal(n) + ".xml"@
}

/// Where slide `slide_number` is stored in the package.
pub fn slide_part_name(slide_number: usize) -> (res: String)
    ensures
        res@ == slide_part(slide_number as nat),
{
    let number = decimal_string(slide_number);
    let mut out = String::from_str("ppt/slides/slide");
    out.append(number.as_str());
    out.append(".xml");
    out
}

/// The package name of slide `n`'s relationships: `ppt/slides/_rels/slide{n}.xml.rels`.
pub open spec fn slide_rels_part(n: nat) -> Seq<char> {
    "ppt/slides/_rels/slide"@ + decimal(n) + ".xml.rels"@
}

/// Where the relationships of slide `slide_number` are stored in the package.
pub fn slide_rels_part_name(slide_number: usize) -> (res: String)
    ensures
        res@ == slide_rels_part(slide_number as nat),
{
    let number = decimal_string(slide_number);
    let mut out = String::from_str("ppt/slides/_rels/slide");
    out.append(number.as_str());
    out.append(".xml.rels");
    out
}

/// A text part of the package: its name and its UTF-8 bytes.
pub open spec fn text_entry(name: Seq<char>, text: Seq<char>) -> (Seq<char>, Seq<u8>) {
    (name, vstd::utf8::encode_utf8(text))
}

/// The image parts of `media`, in order.
pub open spec fn media_entries(media: Seq<MediaFile>) -> Seq<(Seq<char>, Seq<u8>)>
    decreases media.len(),
{
    if media.len() == 0 {
        seq![]
    } else {
        media_entries(media.drop_last()).push(
            (media_part(media.last().media_number as nat, media.last().extension@), media.last().bytes@),
        )
    }
}

/// The parts of slide `n`: its XML, its relationships, and its images.
pub open spec fn slide_entries(n: nat, xml: Seq<char>, media: Seq<MediaFile>) -> Seq<
    (Seq<char>, Seq<u8>),
> {
    seq![text_entry(slide_part(n), xml), text_entry(slide_rels_part(n), slide_rels_xml(media))]
        + media_entries(media)
}

/// The parts of slides `1..=k`, slide `i` reading `slides[i - 1]` and
/// showing `media[i - 1]`.
pub open spec fn slides_entries(slides: Seq<Seq<char>>, media: Seq<Seq<MediaFile>>, k: nat) -> Seq<
    (Seq<char>, Seq<u8>),
>
    decreases k,
{
    if k == 0 {
        seq![]
    } else {
        slides_entries(slides, media, (k - 1) as nat) + slide_entries(
            k,
            slides[k - 1],
            media[k - 1],
        )
    }
}

/// The images of each slide, as sequences.
pub open spec fn media_groups(media: Seq<Vec<MediaFile>>) -> Seq<Seq<MediaFile>> {
    media.map_values(|v: Vec<MediaFile>| v@)
}

/// Whether an image of some slide has the MIME type `t`.
pub open spec fn groups_have_type(media: Seq<Seq<MediaFile>>, t: Seq<char>) -> bool {
    exists|i: int| 0 <= i < media.len() && has_content_type(#[trigger] media[i], t)
}

/// The parts of the package of a deck whose slides read `slides` and show
/// `media`, in the order they are written: the content types, the package
/// relationships and properties, the presentation and its relationships, the
/// master, layout and theme, then each slide with its relationships and images.
pub open spec fn package_entries(
    slides: Seq<Seq<char>>,
    size: SlideSize,
    media: Seq<Seq<MediaFile>>,
) -> Seq<(Seq<char>, Seq<u8>)> {
    let n = slides.len();
    seq![
        text_entry(
            "[Content_Types].xml"@,
            content_types_xml(
                n,
                groups_have_type(media, "image/png"@),
                groups_have_type(media, "image/jpeg"@),
                groups_have_type(media, "image/svg+xml"@),
            ),
        ),
        text_entry("_rels/.rels"@, ROOT_RELS@),
        text_entry("docProps/app.xml"@, APP_PROPS@),
        text_entry("docProps/core.xml"@, CORE_PROPS@),
        text_entry("ppt/presentation.xml"@, presentation_xml_text(n, size)),
        text_entry("ppt/_rels/presentation.xml.rels"@, presentation_rels_xml(n)),
        text_entry("ppt/slideMasters/slideMaster1.xml"@, SLIDE_MASTER@),
        text_entry("ppt/slideMasters/_rels/slideMaster1.xml.rels"@, SLIDE_MASTER_RELS@),
        text_entry("ppt/slideLayouts/slideLayout1.xml"@, SLIDE_LAYOUT@),
        text_entry("ppt/slideLayouts/_rels/slideLayout1.xml.rels"@, SLIDE_LAYOUT_RELS@),
        text_entry("ppt/theme/theme1.xml"@, THEME@),
    ] + slides_entries(slides, media, n)
}

/// Every part of `entries` is small enough for the archive writer.
pub open spec fn parts_fit(entries: Seq<(Seq<char>, Seq<u8>)>) -> bool {
    forall|i: int| 0 <= i < entries.len() ==> entry_fits((#[trigger] entries[i]).1)
}

/// Every part of `entries` has a name short enough for the archive writer.
pub open spec fn names_fit(entries: Seq<(Seq<char>, Seq<u8>)>) -> bool {
    forall|i: int| 0 <= i < entries.len() ==> name_fits((#[trigger] entries[i]).0)
}

/// `a` is the beginning of `b`.
pub open spec fn leads(a: Seq<(Seq<char>, Seq<u8>)>, b: Seq<(Seq<char>, Seq<u8>)>) -> bool {
    a.len() <= b.len() && forall|i: int| 0 <= i < a.len() ==> #[trigger] a[i] == b[i]
}

/// Adds a part to the archive: its name, then its bytes. A failure is the
/// writer's: starting the entry fails with a ZIP error, writing it with an
/// I/O error. It succeeds for a new name when the parts so far and this one
/// fit.
fn add_part(archive: &mut Archive, name: &str, data: &[u8]) -> (res: Result<(), Error>)
    requires
        name_fits(name@),
    ensures
        res is Ok ==> archive_entries(*final(archive)) == archive_entries(*old(archive)).push(
            (name@, data@),
        ),
        res matches Err(e) ==> e is Zip || e is Io,
        name_is_new(archive_entries(*old(archive)), name@) && parts_fit(
            archive_entries(*old(archive)).push((name@, data@)),
        ) ==> res is Ok,
{
    let ghost entries = archive_entries(*archive);
    proof {
        if parts_fit(entries.push((name@, data@))) {
            assert(entries.push((name@, data@))[entries.len() as int] == (name@, data@));
            if entries.len() > 0 {
                assert(entries.push((name@, data@))[entries.len() - 1] == entries.last());
            }
        }
    }
    if let Err(e) = start_entry(archive, name) {
        return Err(Error::Zip(e));
    }
    match write_entry(archive, data) {
        Ok(()) => {
            assert(archive_entries(*archive) =~= archive_entries(*old(archive)).push((name@, data@)));
            Ok(())
        },
        Err(e) => Err(Error::Io(e)),
    }
}

/// Adds a text part to the archive, as its UTF-8 bytes. A failure is the
/// writer's ZIP or I/O error; it succeeds for a new name when the parts so
/// far and this one fit.
fn add_text_part(archive: &mut Archive, name: &str, text: &str) -> (res: Result<(), Error>)
    requires
        name_fits(name@),
    ensures
        res is Ok ==> archive_entries(*final(archive)) == archive_entries(*old(archive)).push(
            text_entry(name@, text@),
        ),
        res matches Err(e) ==> e is Zip || e is Io,
        name_is_new(archive_entries(*old(archive)), name@) && parts_fit(
            archive_entries(*old(archive)).push(text_entry(name@, text@)),
        ) ==> res is Ok,
{
    add_part(archive, name, text.as_bytes())
}

/// Whether an image of some slide of `media` has the MIME type `t`.
fn any_group_type(media: &[Vec<MediaFile>], t: &str) -> (res: bool)
    ensures
        res == groups_have_type(media_groups(media@), t@),
{
    let mut i: usize = 0;
    while i < media.len()
        invariant
            i <= media@.len(),
            forall|k: int| 0 <= k < i ==> !has_content_type(#[trigger] media@[k]@, t@),
        decreases media.len() - i,
    {
        if any_content_type(media[i].as_slice(), t) {
            assert(media_groups(media@)[i as int] == media@[i as int]@);
            return true;
        }
        i = i + 1;
    }
    assert forall|k: int| 0 <= k < media@.len() implies !has_content_type(
        #[trigger] media_groups(media@)[k],
        t@,
    ) by {
        assert(media_groups(media@)[k] == media@[k]@);
    }
    false
}

/// The parts of slides `1..=k` begin the parts of slides `1..=n`.
proof fn lemma_slides_lead(slides: Seq<Seq<char>>, media: Seq<Seq<MediaFile>>, k: nat, n: nat)
    requires
        k <= n,
    ensures
        leads(slides_entries(slides, media, k), slides_entries(slides, media, n)),
    decreases n,
{
    if k < n {
        let m = (n - 1) as nat;
        lemma_slides_lead(slides, media, k, m);
        let a = slides_entries(slides, media, m);
        let x = slide_entries(n, slides[n - 1], media[n - 1]);
        assert(slides_entries(slides, media, n) == a + x);
        assert forall|i: int| 0 <= i < a.len() implies #[trigger] a[i] == (a + x)[i] by {}
        lemma_leads_trans(slides_entries(slides, media, k), a, a + x);
    }
}

/// The image parts of the first `k` images begin the image parts of all of
/// them, one part per image.
proof fn lemma_media_lead(media: Seq<MediaFile>, k: int)
    requires
        0 <= k <= media.len(),
    ensures
        leads(media_entries(media.take(k)), media_entries(media)),
        media_entries(media).len() == media.len(),
    decreases media.len(),
{
    if media.len() > 0 {
        let d = media.drop_last();
        if k < media.len() {
            lemma_media_lead(d, k);
            assert(d.take(k) =~= media.take(k));
            let a = media_entries(d);
            let e = (media_part(media.last().media_number as nat, media.last().extension@), media.last().bytes@);
            assert forall|i: int| 0 <= i < a.len() implies #[trigger] a[i] == a.push(e)[i] by {}
            lemma_leads_trans(media_entries(media.take(k)), a, a.push(e));
        } else {
            lemma_media_lead(d, 0);
            assert(media.take(k) =~= media);
        }
    } else {
        assert(media.take(k) =~= media);
    }
}

proof fn lemma_leads_trans(
    a: Seq<(Seq<char>, Seq<u8>)>,
    b: Seq<(Seq<char>, Seq<u8>)>,
    c: Seq<(Seq<char>, Seq<u8>)>,
)
    requires
        leads(a, b),
        leads(b, c),
    ensures
        leads(a, c),
{
    assert forall|i: int| 0 <= i < a.len() implies #[trigger] a[i] == c[i] by {
        assert(a[i] == b[i]);
        assert(b[i] == c[i]);
    }
}

proof fn lemma_leads_after(
    f: Seq<(Seq<char>, Seq<u8>)>,
    a: Seq<(Seq<char>, Seq<u8>)>,
    b: Seq<(Seq<char>, Seq<u8>)>,
)
    requires
        leads(a, b),
    ensures
        leads(f + a, f + b),
{
    assert forall|i: int| 0 <= i < (f + a).len() implies #[trigger] (f + a)[i] == (f + b)[i] by {
        if i >= f.len() {
            assert(a[i - f.len()] == b[i - f.len()]);
        }
    }
}

/// What the archive writer needs of the next part of a package: a name that
/// fits, and, when the package's parts have distinct names and fit, a new
/// name and parts that fit so far.
proof fn lemma_next_part(
    cur: Seq<(Seq<char>, Seq<u8>)>,
    e: (Seq<char>, Seq<u8>),
    full: Seq<(Seq<char>, Seq<u8>)>,
)
    requires
        leads(cur.push(e), full),
        names_fit(full),
    ensures
        name_fits(e.0),
        distinct_names(full) ==> name_is_new(cur, e.0),
        parts_fit(full) ==> parts_fit(cur.push(e)),
{
    let m = cur.len() as int;
    assert(cur.push(e)[m] == e);
    assert(full[m] == e);
    if distinct_names(full) {
        assert forall|j: int| 0 <= j < cur.len() implies (#[trigger] cur[j]).0 != e.0 by {
            assert(cur.push(e)[j] == cur[j]);
            assert(full[j] == cur[j]);
        }
    }
    if parts_fit(full) {
        assert forall|j: int| 0 <= j < cur.push(e).len() implies entry_fits(
            (#[trigger] cur.push(e)[j]).1,
        ) by {
            assert(full[j] == cur.push(e)[j]);
        }
    }
}

/// The next fixed part of a package, when the parts so far begin it.
proof fn lemma_next_fixed(cur: Seq<(Seq<char>, Seq<u8>)>, full: Seq<(Seq<char>, Seq<u8>)>)
    requires
        leads(cur, full),
        cur.len() < full.len(),
        names_fit(full),
    ensures
        name_fits(full[cur.len() as int].0),
        leads(cur.push(full[cur.len() as int]), full),
        distinct_names(full) ==> name_is_new(cur, full[cur.len() as int].0),
        parts_fit(full) ==> parts_fit(cur.push(full[cur.len() as int])),
{
    let e = full[cur.len() as int];
    assert forall|i: int| 0 <= i < cur.push(e).len() implies #[trigger] cur.push(e)[i] == full[i] by {
        if i < cur.len() {
            assert(cur[i] == full[i]);
        }
    }
    lemma_next_part(cur, e, full);
}

/// Writes the package of a deck into memory: `slides` holds the XML of each
/// slide and `media` the images of each slide, in the order the slide shows
/// them. A failure is the archive writer's ZIP or I/O error; the writer
/// succeeds when no two parts share a name (as when no two images share a
/// number) and every part fits it.
pub fn package(slides: &[String], size: SlideSize, media: &[Vec<MediaFile>]) -> (res: Result<
    Vec<u8>,
    Error,
>)
    requires
        media@.len() == slides@.len(),
        slides@.len() + 256 <= usize::MAX,
        forall|i: int| 0 <= i < media@.len() ==> (#[trigger] media@[i])@.len() + 2 <= usize::MAX,
        names_fit(package_entries(string_texts(slides@), size, media_groups(media@))),
    ensures
        res matches Ok(bytes) ==> bytes@ == archive_bytes(
            package_entries(string_texts(slides@), size, media_groups(media@)),
        ),
        res matches Err(e) ==> e is Zip || e is Io,
        distinct_names(package_entries(string_texts(slides@), size, media_groups(media@)))
            && parts_fit(package_entries(string_texts(slides@), size, media_groups(media@)))
            ==> res is Ok,
        distinct_media_numbers(media_groups(media@)) && parts_fit(
            package_entries(string_texts(slides@), size, media_groups(media@)),
        ) ==> res is Ok,
{
    let n = slides.len();
    let ghost texts = string_texts(slides@);
    let ghost groups = media_groups(media@);
    let ghost full = package_entries(texts, size, groups);
    proof {
        if distinct_media_numbers(groups) {
            law_package_part_names_are_distinct(texts, size, groups);
        }
    }
    let mut archive = new_archive();
    let png = any_group_type(media, "image/png");
    let jpeg = any_group_type(media, "image/jpeg");
    let svg = any_group_type(media, "image/svg+xml");
    proof {
        lemma_next_fixed(archive_entries(archive), full);
    }
    add_text_part(
        &mut archive,
        "[Content_Types].xml",
        content_types_with(n, png, jpeg, svg).as_str(),
    )?;
    proof {
        lemma_next_fixed(archive_entries(archive), full);
    }
    add_text_part(&mut archive, "_rels/.rels", ROOT_RELS)?;
    proof {
        lemma_next_fixed(archive_entries(archive), full);
    }
    add_text_part(&mut archive, "docProps/app.xml", APP_PROPS)?;
    proof {
        lemma_next_fixed(archive_entries(archive), full);
    }
    add_text_part(&mut archive, "docProps/core.xml", CORE_PROPS)?;
    proof {
        lemma_next_fixed(archive_entries(archive), full);
    }
    add_text_part(&mut archive, "ppt/presentation.xml", presentation_xml(n, size).as_str())?;
    proof {
        lemma_next_fixed(archive_entries(archive), full);
    }
    add_text_part(
        &mut archive,
        "ppt/_rels/presentation.xml.rels",
        presentation_rels(n).as_str(),
    )?;
    proof {
        lemma_next_fixed(archive_entries(archive), full);
    }
    add_text_part(&mut archive, "ppt/slideMasters/slideMaster1.xml", SLIDE_MASTER)?;
    proof {
        lemma_next_fixed(archive_entries(archive), full);
    }
    add_text_part(
        &mut archive,
        "ppt/slideMasters/_rels/slideMaster1.xml.rels",
        SLIDE_MASTER_RELS,
    )?;
    proof {
        lemma_next_fixed(archive_entries(archive), full);
    }
    add_text_part(&mut archive, "ppt/slideLayouts/slideLayout1.xml", SLIDE_LAYOUT)?;
    proof {
        lemma_next_fixed(archive_entries(archive), full);
    }
    add_text_part(
        &mut archive,
        "ppt/slideLayouts/_rels/slideLayout1.xml.rels",
        SLIDE_LAYOUT_RELS,
    )?;
    proof {
        lemma_next_fixed(archive_entries(archive), full);
    }
    add_text_part(&mut archive, "ppt/theme/theme1.xml", THEME)?;
    let ghost fixed = archive_entries(archive);
    assert(fixed =~= full.take(11));
    assert(fixed + slides_entries(texts, groups, 0) =~= fixed);
    assert(full =~= fixed + slides_entries(texts, groups, n as nat));
    let mut index: usize = 0;
    while index < n
        invariant
            n == slides@.len(),
            n == media@.len(),
            index <= n,
            texts == string_texts(slides@),
            groups == media_groups(media@),
            full == fixed + slides_entries(texts, groups, n as nat),
            full == package_entries(texts, size, groups),
            names_fit(full),
            distinct_media_numbers(groups) ==> distinct_names(full),
            forall|i: int| 0 <= i < media@.len() ==> (#[trigger] media@[i])@.len() + 2 <= usize::MAX,
            archive_entries(archive) == fixed + slides_entries(texts, groups, index as nat),
        decreases n - index,
    {
        let number = index + 1;
        let ghost before = archive_entries(archive);
        let ghost upto = fixed + slides_entries(texts, groups, number as nat);
        let ghost s_e = text_entry(slide_part(number as nat), texts[index as int]);
        let ghost r_e = text_entry(slide_rels_part(number as nat), slide_rels_xml(groups[index as int]));
        proof {
            lemma_slides_lead(texts, groups, number as nat, n as nat);
            lemma_leads_after(fixed, slides_entries(texts, groups, number as nat), slides_entries(texts, groups, n as nat));
            assert(upto =~= before + (seq![s_e, r_e] + media_entries(groups[index as int])));
            assert(leads(before.push(s_e), upto));
            lemma_leads_trans(before.push(s_e), upto, full);
            lemma_next_part(before, s_e, full);
        }
        assert(texts[index as int] == slides@[index as int]@);
        add_text_part(&mut archive, slide_part_name(number).as_str(), slides[index].as_str())?;
        assert(groups[index as int] == media@[index as int]@);
        proof {
            assert(leads(before.push(s_e).push(r_e), upto));
            lemma_leads_trans(before.push(s_e).push(r_e), upto, full);
            lemma_next_part(before.push(s_e), r_e, full);
        }
        add_text_part(
            &mut archive,
            slide_rels_part_name(number).as_str(),
            slide_rels(media[index].as_slice()).as_str(),
        )?;
        let images = media[index].as_slice();
        let mut k: usize = 0;
        assert(images@.take(0) =~= seq![]);
        while k < images.len()
            invariant
                k <= images@.len(),
                images@ == groups[index as int],
                texts == string_texts(slides@),
                groups == media_groups(media@),
                full == package_entries(texts, size, groups),
                names_fit(full),
                distinct_media_numbers(groups) ==> distinct_names(full),
                leads(upto, full),
                upto == before + (seq![s_e, r_e] + media_entries(images@)),
                archive_entries(archive) == before + seq![s_e, r_e] + media_entries(
                    images@.take(k as int),
                ),
            decreases images.len() - k,
        {
            let ghost mid = archive_entries(archive);
            let ghost m_e = (
                media_part(images@[k as int].media_number as nat, images@[k as int].extension@),
                images@[k as int].bytes@,
            );
            proof {
                assert(images@.take(k + 1).drop_last() =~= images@.take(k as int));
                lemma_media_lead(images@, k + 1);
                lemma_leads_after(before + seq![s_e, r_e], media_entries(images@.take(k + 1)), media_entries(images@));
                assert(mid.push(m_e) =~= before + seq![s_e, r_e] + media_entries(images@.take(k + 1)));
                assert(before + seq![s_e, r_e] + media_entries(images@) =~= upto);
                lemma_leads_trans(mid.push(m_e), upto, full);
                lemma_next_part(mid, m_e, full);
            }
            add_part(&mut archive, media_part_name(&images[k]).as_str(), images[k].bytes.as_slice())?;
            k = k + 1;
        }
        assert(images@.take(k as int) =~= images@);
        assert(archive_entries(archive) =~= fixed + slides_entries(texts, groups, (index + 1) as nat));
        index = index + 1;
    }
    assert(texts.len() == n);
    assert(archive_entries(archive) =~= full);
    proof {
        if parts_fit(full) && full.len() > 0 {
            assert(full[full.len() - 1] == full.last());
        }
    }
    match finish_archive(archive) {
        Ok(bytes) => Ok(bytes),
        Err(e) => Err(Error::Zip(e)),
    }
}

/// How a text run is drawn: its font, its size in hundredths of a point, its
/// color, and whether it is bold or italic.
pub struct RunFormat {
    pub font_family: String,
    pub size: u64,
    pub color: String,
    pub bold: bool,
    pub italic: bool,
}

/// The XML of one text run.
pub open spec fn run_xml(
    text: Seq<char>,
    size: nat,
    bold: bool,
    italic: bool,
    color_value: Seq<char>,
    font: Seq<char>,
) -> Seq<char> {
    r#"<a:r><a:rPr lang="en-US" sz=""#@ + decimal(size) + r#"""#@ + (if bold {
        r#" b="1""#@
    } else {
        seq![]
    }) + (if italic {
        r#" i="1""#@
    } else {
        seq![]
    }) + r#"><a:solidFill><a:srgbClr val=""#@ + color_code(color_value)
        + r#""/></a:solidFill><a:latin typeface=""#@ + escape_text(font) + r#""/></a:rPr><a:t>"#@
        + escape_text(text) + "</a:t></a:r>"@
}

/// The run of one inline: plain text takes the style's emphasis, bold and
/// italic runs add their own, code and math take the code format when there
/// is one; `force_bold` and `force_italic` apply to every run.
pub open spec fn inline_run(
    inline: InlineView,
    style: RunFormat,
    code: Option<RunFormat>,
    force_bold: bool,
    force_italic: bool,
) -> Seq<char> {
    let (text, bold, italic, is_code) = match inline {
        InlineView::Text(v) => (v, force_bold || style.bold, force_italic || style.italic, false),
        InlineView::Bold(v) => (v, true, force_italic || style.italic, false),
        InlineView::Italic(v) => (v, force_bold || style.bold, true, false),
        InlineView::Code(v) => (v, force_bold, force_italic, true),
        InlineView::Math(v) => (v, force_bold, force_italic, true),
    };
    let format = if is_code && code is Some {
        code->0
    } else {
        style
    };
    run_xml(text, format.size as nat, bold, italic, format.color@, format.font_family@)
}

/// The runs of `inlines`, one after the other.
pub open spec fn runs_text(
    inlines: Seq<InlineView>,
    style: RunFormat,
    code: Option<RunFormat>,
    force_bold: bool,
    force_italic: bool,
) -> Seq<char>
    decreases inlines.len(),
{
    if inlines.len() == 0 {
        seq![]
    } else {
        runs_text(inlines.drop_last(), style, code, force_bold, force_italic) + inline_run(
            inlines.last(),
            style,
            code,
            force_bold,
            force_italic,
        )
    }
}

fn run_piece(text: &str, size: u64, bold: bool, italic: bool, color_value: &str, font: &str) -> (res:
    String)
    ensures
        res@ == run_xml(text@, size as nat, bold, italic, color_value@, font@),
{
    let digits = string_from_chars(decimal_chars(size).as_slice());
    let mut xml = String::from_str(r#"<a:r><a:rPr lang="en-US" sz=""#);
    xml.append(digits.as_str());
    xml.append(r#"""#);
    if bold {
        xml.append(r#" b="1""#);
    }
    if italic {
        xml.append(r#" i="1""#);
    }
    xml.append(r#"><a:solidFill><a:srgbClr val=""#);
    xml.append(color(color_value).as_str());
    xml.append(r#""/></a:solidFill><a:latin typeface=""#);
    xml.append(escape(font).as_str());
    xml.append(r#""/></a:rPr><a:t>"#);
    xml.append(escape(text).as_str());
    xml.append("</a:t></a:r>");
    xml
}

fn inline_run_xml(
    inline: &Inline,
    style: &RunFormat,
    inline_code: Option<&RunFormat>,
    force_bold: bool,
    force_italic: bool,
) -> (res: String)
    ensures
        res@ == inline_run(
            inline@,
            *style,
            match inline_code {
                Some(c) => Some(*c),
                None => None,
            },
            force_bold,
            force_italic,
        ),
{
    let (text, bold, italic, is_code) = match inline {
        Inline::Text(v) => (v, force_bold || style.bold, force_italic || style.italic, false),
        Inline::Bold(v) => (v, true, force_italic || style.italic, false),
        Inline::Italic(v) => (v, force_bold || style.bold, true, false),
        Inline::Code(v) => (v, force_bold, force_italic, true),
        Inline::Math(v) => (v, force_bold, force_italic, true),
    };
    let format = match inline_code {
        Some(c) => if is_code {
            c
        } else {
            style
        },
        None => style,
    };
    run_piece(
        text.as_str(),
        format.size,
        bold,
        italic,
        format.color.as_str(),
        format.font_family.as_str(),
    )
}

/// The text runs of a paragraph, one per inline.
pub fn runs(
    inlines: &[Inline],
    style: &RunFormat,
    inline_code: Option<&RunFormat>,
    force_bold: bool,
    force_italic: bool,
) -> (res: String)
    ensures
        res@ == runs_text(
            inlines_view(inlines@),
            *style,
            match inline_code {
                Some(c) => Some(*c),
                None => None,
            },
            force_bold,
            force_italic,
        ),
{
    let ghost code = match inline_code {
        Some(c) => Some(*c),
        None => None::<RunFormat>,
    };
    let ghost iv = inlines_view(inlines@);
    let mut xml = String::new();
    let mut i: usize = 0;
    assert(iv.take(0) =~= seq![]);
    while i < inlines.len()
        invariant
            i <= inlines@.len(),
            iv == inlines_view(inlines@),
            code == match inline_code {
                Some(c) => Some(*c),
                None => None::<RunFormat>,
            },
            xml@ == runs_text(iv.take(i as int), *style, code, force_bold, force_italic),
        decreases inlines.len() - i,
    {
        let run = inline_run_xml(&inlines[i], style, inline_code, force_bold, force_italic);
        let ghost before = xml@;
        xml.append(run.as_str());
        assert(iv[i as int] == inlines@[i as int]@);
        assert(iv.take(i + 1).drop_last() =~= iv.take(i as int));
        i = i + 1;
    }
    assert(iv.take(i as int) =~= iv);
    xml
}

/// A signed number in decimal, with a leading `-` when negative.
pub open spec fn signed_decimal(v: int) -> Seq<char> {
    if v < 0 {
        seq!['-'] + decimal((-v) as nat)
    } else {
        decimal(v as nat)
    }
}

fn signed_string(v: i64) -> (res: String)
    ensures
        res@ == signed_decimal(v as int),
{
    if v < 0 {
        let wide: i128 = 0i128 - (v as i128);
        assert(0 < wide <= 0x8000_0000_0000_0000);
        let magnitude = wide as u64;
        assert(magnitude as int == -(v as int));
        let digits = decimal_chars(magnitude);
        proof {
            reveal_strlit("-");
        }
        String::from_str("-").concat(string_from_chars(digits.as_slice()).as_str())
    } else {
        let magnitude = v as u64;
        assert(magnitude as int == v as int);
        string_from_chars(decimal_chars(magnitude).as_slice())
    }
}

/// The position and size of a shape, in EMUs.
pub struct Frame {
    pub x: i64,
    pub y: i64,
    pub width: i64,
    pub height: i64,
}

/// The transform of a shape at `frame`.
pub open spec fn frame_xml(frame: Frame) -> Seq<char> {
    r#"<a:xfrm><a:off x=""#@ + signed_decimal(frame.x as int) + r#"" y=""#@ + signed_decimal(
        frame.y as int,
    ) + r#""/><a:ext cx=""#@ + signed_decimal(frame.width as int) + r#"" cy=""#@
        + signed_decimal(frame.height as int) + r#""/></a:xfrm>"#@
}

fn frame_string(frame: &Frame) -> (res: String)
    ensures
        res@ == frame_xml(*frame),
{
    let mut out = String::from_str(r#"<a:xfrm><a:off x=""#);
    out.append(signed_string(frame.x).as_str());
    out.append(r#"" y=""#);
    out.append(signed_string(frame.y).as_str());
    out.append(r#""/><a:ext cx=""#);
    out.append(signed_string(frame.width).as_str());
    out.append(r#"" cy=""#);
    out.append(signed_string(frame.height).as_str());
    out.append(r#""/></a:xfrm>"#);
    out
}

/// The fill of a shape: none, or a solid color.
pub open spec fn fill_xml(fill: Option<Seq<char>>) -> Seq<char> {
    match fill {
        None => "<a:noFill/>"@,
        Some(c) => r#"<a:solidFill><a:srgbClr val=""#@ + color_code(c)
            + r#""/></a:solidFill>"#@,
    }
}

/// A text shape with id `id` at `frame`, with an optional fill, holding one
/// paragraph of `runs`.
pub open spec fn shape_text(id: nat, frame: Frame, fill: Option<Seq<char>>, runs: Seq<char>) -> Seq<
    char,
> {
    "<p:sp>\n  <p:nvSpPr><p:cNvPr id=\""@ + decimal(id) + "\" name=\"Text "@ + decimal(id)
        + "\"/><p:cNvSpPr txBox=\"1\"/><p:nvPr/></p:nvSpPr>\n  <p:spPr>"@ + frame_xml(frame)
        + "<a:prstGeom prst=\"rect\"><a:avLst/></a:prstGeom>"@ + fill_xml(fill)
        + "<a:ln><a:noFill/></a:ln></p:spPr>\n  <p:txBody><a:bodyPr wrap=\"square\"/><a:lstStyle/><a:p>"@
        + runs + "</a:p></p:txBody>\n</p:sp>"@
}

/// A text shape: a text box at `frame`, filled with `fill` when there is one,
/// holding the paragraph `runs`.
pub fn shape(id: usize, frame: &Frame, fill: Option<&str>, runs: &str) -> (res: String)
    ensures
        res@ == shape_text(
            id as nat,
            *frame,
            match fill {
                Some(f) => Some(f@),
                None => None,
            },
            runs@,
        ),
{
    let number = decimal_string(id);
    let fill_text = match fill {
        None => String::from_str("<a:noFill/>"),
        Some(f) => {
            let mut t = String::from_str(r#"<a:solidFill><a:srgbClr val=""#);
            t.append(color(f).as_str());
            t.append(r#""/></a:solidFill>"#);
            t
        },
    };
    let mut out = String::from_str("<p:sp>\n  <p:nvSpPr><p:cNvPr id=\"");
    out.append(number.as_str());
    out.append("\" name=\"Text ");
    out.append(number.as_str());
    out.append("\"/><p:cNvSpPr txBox=\"1\"/><p:nvPr/></p:nvSpPr>\n  <p:spPr>");
    out.append(frame_string(frame).as_str());
    out.append("<a:prstGeom prst=\"rect\"><a:avLst/></a:prstGeom>");
    out.append(fill_text.as_str());
    out.append(
        "<a:ln><a:noFill/></a:ln></p:spPr>\n  <p:txBody><a:bodyPr wrap=\"square\"/><a:lstStyle/><a:p>",
    );
    out.append(runs);
    out.append("</a:p></p:txBody>\n</p:sp>");
    out
}

/// The paragraph properties of a table cell by its column's alignment.
pub open spec fn alignment_xml(alignment: TableAlignment) -> Seq<char> {
    match alignment {
        TableAlignment::Center => r#"<a:pPr algn="ctr"/>"#@,
        TableAlignment::Right => r#"<a:pPr algn="r"/>"#@,
        TableAlignment::Default | TableAlignment::Left => seq![],
    }
}

/// A table cell with id `id` at `frame`: header cells are filled `EEF1F5`,
/// others `FFFFFF`, all with a thin `C9CDD3` border and fixed insets.
pub open spec fn table_cell_text(
    id: nat,
    frame: Frame,
    alignment: TableAlignment,
    is_header: bool,
    runs: Seq<char>,
) -> Seq<char> {
    "<p:sp>\n  <p:nvSpPr><p:cNvPr id=\""@ + decimal(id) + "\" name=\"Table Cell "@ + decimal(id)
        + "\"/><p:cNvSpPr txBox=\"1\"/><p:nvPr/></p:nvSpPr>\n  <p:spPr>"@ + frame_xml(frame)
        + "<a:prstGeom prst=\"rect\"><a:avLst/></a:prstGeom><a:solidFill><a:srgbClr val=\""@ + (
    if is_header {
        "EEF1F5"@
    } else {
        "FFFFFF"@
    })
        + "\"/></a:solidFill><a:ln w=\"6350\"><a:solidFill><a:srgbClr val=\"C9CDD3\"/></a:solidFill></a:ln></p:spPr>\n  <p:txBody><a:bodyPr wrap=\"square\" lIns=\"76200\" tIns=\"50800\" rIns=\"76200\" bIns=\"50800\"/><a:lstStyle/>"@
        + "<a:p>"@ + alignment_xml(alignment) + runs + "</a:p>"@ + "</p:txBody>\n</p:sp>"@
}

/// A table cell shape holding the paragraph `runs`; the runs of a header
/// cell are meant to be bold.
pub fn table_cell_shape(
    id: usize,
    frame: &Frame,
    alignment: TableAlignment,
    is_header: bool,
    runs: &str,
) -> (res: String)
    ensures
        res@ == table_cell_text(id as nat, *frame, alignment, is_header, runs@),
{
    let number = decimal_string(id);
    let mut out = String::from_str("<p:sp>\n  <p:nvSpPr><p:cNvPr id=\"");
    out.append(number.as_str());
    out.append("\" name=\"Table Cell ");
    out.append(number.as_str());
    out.append("\"/><p:cNvSpPr txBox=\"1\"/><p:nvPr/></p:nvSpPr>\n  <p:spPr>");
    out.append(frame_string(frame).as_str());
    out.append("<a:prstGeom prst=\"rect\"><a:avLst/></a:prstGeom><a:solidFill><a:srgbClr val=\"");
    if is_header {
        out.append("EEF1F5");
    } else {
        out.append("FFFFFF");
    }
    out.append(
        "\"/></a:solidFill><a:ln w=\"6350\"><a:solidFill><a:srgbClr val=\"C9CDD3\"/></a:solidFill></a:ln></p:spPr>\n  <p:txBody><a:bodyPr wrap=\"square\" lIns=\"76200\" tIns=\"50800\" rIns=\"76200\" bIns=\"50800\"/><a:lstStyle/>",
    );
    out.append("<a:p>");
    match alignment {
        TableAlignment::Center => out.append(r#"<a:pPr algn="ctr"/>"#),
        TableAlignment::Right => out.append(r#"<a:pPr algn="r"/>"#),
        TableAlignment::Default | TableAlignment::Left => {},
    }
    out.append(runs);
    out.append("</a:p>");
    out.append("</p:txBody>\n</p:sp>");
    out
}

/// The paragraph of a table cell opens with its column's alignment: a
/// centered column's cell holds `<a:pPr algn="ctr"/>` right after `<a:p>`, a
/// right-aligned column's `<a:pPr algn="r"/>`, and a left-aligned or plain
/// column's nothing, before the runs. Centered, right-aligned and left-aligned
/// cells differ; left-aligned and plain cells are alike.
pub proof fn law_cells_follow_column_alignment(
    id: nat,
    frame: Frame,
    is_header: bool,
    runs: Seq<char>,
)
    ensures
        occurs_in(
            "<a:p>"@ + r#"<a:pPr algn="ctr"/>"#@ + runs + "</a:p>"@,
            table_cell_text(id, frame, TableAlignment::Center, is_header, runs),
        ),
        occurs_in(
            "<a:p>"@ + r#"<a:pPr algn="r"/>"#@ + runs + "</a:p>"@,
            table_cell_text(id, frame, TableAlignment::Right, is_header, runs),
        ),
        occurs_in(
            "<a:p>"@ + runs + "</a:p>"@,
            table_cell_text(id, frame, TableAlignment::Left, is_header, runs),
        ),
        table_cell_text(id, frame, TableAlignment::Left, is_header, runs) == table_cell_text(
            id,
            frame,
            TableAlignment::Default,
            is_header,
            runs,
        ),
        table_cell_text(id, frame, TableAlignment::Center, is_header, runs) != table_cell_text(
            id,
            frame,
            TableAlignment::Right,
            is_header,
            runs,
        ),
        table_cell_text(id, frame, TableAlignment::Center, is_header, runs) != table_cell_text(
            id,
            frame,
            TableAlignment::Left,
            is_header,
            runs,
        ),
        table_cell_text(id, frame, TableAlignment::Right, is_header, runs) != table_cell_text(
            id,
            frame,
            TableAlignment::Left,
            is_header,
            runs,
        ),
{
    reveal_strlit(r#"<a:pPr algn="ctr"/>"#);
    reveal_strlit(r#"<a:pPr algn="r"/>"#);
    let head = "<p:sp>\n  <p:nvSpPr><p:cNvPr id=\""@ + decimal(id) + "\" name=\"Table Cell "@ + decimal(id)
        + "\"/><p:cNvSpPr txBox=\"1\"/><p:nvPr/></p:nvSpPr>\n  <p:spPr>"@ + frame_xml(frame)
        + "<a:prstGeom prst=\"rect\"><a:avLst/></a:prstGeom><a:solidFill><a:srgbClr val=\""@ + (
    if is_header {
        "EEF1F5"@
    } else {
        "FFFFFF"@
    })
        + "\"/></a:solidFill><a:ln w=\"6350\"><a:solidFill><a:srgbClr val=\"C9CDD3\"/></a:solidFill></a:ln></p:spPr>\n  <p:txBody><a:bodyPr wrap=\"square\" lIns=\"76200\" tIns=\"50800\" rIns=\"76200\" bIns=\"50800\"/><a:lstStyle/>"@;
    let tail = "</p:txBody>\n</p:sp>"@;
    let c = "<a:p>"@ + r#"<a:pPr algn="ctr"/>"#@ + runs + "</a:p>"@;
    let r = "<a:p>"@ + r#"<a:pPr algn="r"/>"#@ + runs + "</a:p>"@;
    let l = "<a:p>"@ + runs + "</a:p>"@;
    assert(head + c + tail =~= table_cell_text(id, frame, TableAlignment::Center, is_header, runs));
    assert(head + r + tail =~= table_cell_text(id, frame, TableAlignment::Right, is_header, runs));
    assert(head + l + tail =~= table_cell_text(id, frame, TableAlignment::Left, is_header, runs));
    lemma_occurs_in_concat(head, c, tail);
    lemma_occurs_in_concat(head, r, tail);
    lemma_occurs_in_concat(head, l, tail);
    assert(c.len() == l.len() + 19);
    assert(r.len() == l.len() + 17);
}

/// A picture with id `id` at `frame`, named by its escaped alternative text,
/// showing the image of the slide's relationship `rId{rel_index + 1}`.
pub open spec fn image_shape_text(id: nat, frame: Frame, rel_index: nat, alt: Seq<char>) -> Seq<char> {
    "<p:pic>\n  <p:nvPicPr><p:cNvPr id=\""@ + decimal(id) + "\" name=\""@ + escape_text(alt)
        + "\"/><p:cNvPicPr/><p:nvPr/></p:nvPicPr>\n  <p:blipFill><a:blip "@ + embed_reference(
        rel_index + 1,
    ) + "/><a:stretch><a:fillRect/></a:stretch></p:blipFill>\n  <p:spPr>"@ + frame_xml(frame)
        + "<a:prstGeom prst=\"rect\"><a:avLst/></a:prstGeom></p:spPr>\n</p:pic>"@
}

/// The embedding attribute of a picture that shows relationship `rId{n}`.
pub open spec fn embed_reference(n: nat) -> Seq<char> {
    r#"r:embed="rId"#@ + decimal(n) + r#"""#@
}

/// The picture of the slide's image number `rel_index` (counting from 1).
pub fn image_shape(id: usize, frame: &Frame, rel_index: usize, alt: &str) -> (res: String)
    requires
        rel_index < usize::MAX,
    ensures
        res@ == image_shape_text(id as nat, *frame, rel_index as nat, alt@),
{
    let mut out = String::from_str("<p:pic>\n  <p:nvPicPr><p:cNvPr id=\"");
    out.append(decimal_string(id).as_str());
    out.append("\" name=\"");
    out.append(escape(alt).as_str());
    out.append("\"/><p:cNvPicPr/><p:nvPr/></p:nvPicPr>\n  <p:blipFill><a:blip ");
    out.append(r#"r:embed="rId"#);
    out.append(decimal_string(rel_index + 1).as_str());
    out.append(r#"""#);
    out.append("/><a:stretch><a:fillRect/></a:stretch></p:blipFill>\n  <p:spPr>");
    out.append(frame_string(frame).as_str());
    out.append("<a:prstGeom prst=\"rect\"><a:avLst/></a:prstGeom></p:spPr>\n</p:pic>");
    out
}

/// A slide part: the background color and the shapes.
pub open spec fn slide_xml_text(background: Seq<char>, shapes: Seq<char>) -> Seq<char> {
    "<?xml version=\"1.0\" encoding=\"UTF-8\" standalone=\"yes\"?>\n<p:sld xmlns:a=\"http://schemas.openxmlformats.org/drawingml/2006/main\" xmlns:r=\"http://schemas.openxmlformats.org/officeDocument/2006/relationships\" xmlns:p=\"http://schemas.openxmlformats.org/presentationml/2006/main\">\n  <p:cSld>\n    <p:bg><p:bgPr><a:solidFill><a:srgbClr val=\""@
        + color_code(background)
        + "\"/></a:solidFill><a:effectLst/></p:bgPr></p:bg>\n    <p:spTree>\n      <p:nvGrpSpPr><p:cNvPr id=\"1\" name=\"\"/><p:cNvGrpSpPr/><p:nvPr/></p:nvGrpSpPr>\n      <p:grpSpPr><a:xfrm><a:off x=\"0\" y=\"0\"/><a:ext cx=\"0\" cy=\"0\"/><a:chOff x=\"0\" y=\"0\"/><a:chExt cx=\"0\" cy=\"0\"/></a:xfrm></p:grpSpPr>\n      "@
        + shapes
        + "\n    </p:spTree>\n  </p:cSld>\n  <p:clrMapOvr><a:masterClrMapping/></p:clrMapOvr>\n</p:sld>"@
}

/// The XML of a slide with the given background color and shapes.
pub fn slide_xml(background: &str, shapes: &str) -> (res: String)
    ensures
        res@ == slide_xml_text(background@, shapes@),
{
    let mut out = String::from_str(
        "<?xml version=\"1.0\" encoding=\"UTF-8\" standalone=\"yes\"?>\n<p:sld xmlns:a=\"http://schemas.openxmlformats.org/drawingml/2006/main\" xmlns:r=\"http://schemas.openxmlformats.org/officeDocument/2006/relationships\" xmlns:p=\"http://schemas.openxmlformats.org/presentationml/2006/main\">\n  <p:cSld>\n    <p:bg><p:bgPr><a:solidFill><a:srgbClr val=\"",
    );
    out.append(color(background).as_str());
    out.append(
        "\"/></a:solidFill><a:effectLst/></p:bgPr></p:bg>\n    <p:spTree>\n      <p:nvGrpSpPr><p:cNvPr id=\"1\" name=\"\"/><p:cNvGrpSpPr/><p:nvPr/></p:nvGrpSpPr>\n      <p:grpSpPr><a:xfrm><a:off x=\"0\" y=\"0\"/><a:ext cx=\"0\" cy=\"0\"/><a:chOff x=\"0\" y=\"0\"/><a:chExt cx=\"0\" cy=\"0\"/></a:xfrm></p:grpSpPr>\n      ",
    );
    out.append(shapes);
    out.append(
        "\n    </p:spTree>\n  </p:cSld>\n  <p:clrMapOvr><a:masterClrMapping/></p:clrMapOvr>\n</p:sld>",
    );
    out
}

/// Inline math is drawn as inline code is: in the code format when there is
/// one, with only the forced emphasis.
pub proof fn law_inline_math_is_drawn_as_code(
    text: Seq<char>,
    style: RunFormat,
    code: Option<RunFormat>,
    force_bold: bool,
    force_italic: bool,
)
    ensures
        inline_run(InlineView::Math(text), style, code, force_bold, force_italic) == inline_run(
            InlineView::Code(text),
            style,
            code,
            force_bold,
            force_italic,
        ),
{
}

/// `x` occurs somewhere in `s`.
pub open spec fn occurs_in(x: Seq<char>, s: Seq<char>) -> bool {
    exists|k: int| 0 <= k && k + x.len() <= s.len() && #[trigger] s.subrange(k, k + x.len()) == x
}

proof fn lemma_occurs_in_concat(a: Seq<char>, x: Seq<char>, b: Seq<char>)
    ensures
        occurs_in(x, a + x + b),
{
    let s = a + x + b;
    assert(s.subrange(a.len() as int, (a.len() + x.len()) as int) =~= x);
}

proof fn lemma_occurs_in_extend(x: Seq<char>, s: Seq<char>, a: Seq<char>, b: Seq<char>)
    requires
        occurs_in(x, s),
    ensures
        occurs_in(x, a + s + b),
{
    let k = choose|k: int|
        0 <= k && k + x.len() <= s.len() && #[trigger] s.subrange(k, k + x.len()) == x;
    let t = a + s + b;
    assert(t.subrange(a.len() + k, a.len() + k + x.len()) =~= s.subrange(k, k + x.len()));
}

proof fn lemma_numbered_holds(f: spec_fn(nat) -> Seq<char>, n: nat, i: nat)
    requires
        1 <= i <= n,
    ensures
        occurs_in(f(i), numbered(f, n)),
    decreases n,
{
    if i == n {
        lemma_occurs_in_concat(numbered(f, (n - 1) as nat), f(n), seq![]);
        assert(numbered(f, (n - 1) as nat) + f(n) + seq![] =~= numbered(f, n));
    } else {
        lemma_numbered_holds(f, (n - 1) as nat, i);
        lemma_occurs_in_extend(f(i), numbered(f, (n - 1) as nat), seq![], f(n));
        assert(seq![] + numbered(f, (n - 1) as nat) + f(n) =~= numbered(f, n));
    }
}

/// Every slide of a deck of `n` slides is listed in `presentation.xml` by
/// relationship `rId{i}`, that relationship leads to the slide's part, and
/// the slide's part has its content type.
pub proof fn law_every_slide_is_listed(
    n: nat,
    size: SlideSize,
    png: bool,
    jpeg: bool,
    svg: bool,
    i: nat,
)
    requires
        1 <= i <= n,
    ensures
        occurs_in(slide_id_entry(i), presentation_xml_text(n, size)),
        occurs_in(slide_relationship(i), presentation_rels_xml(n)),
        occurs_in(slide_override(i), content_types_xml(n, png, jpeg, svg)),
{
    let fe = |j: nat| slide_id_entry(j);
    let fr = |j: nat| slide_relationship(j);
    let fo = |j: nat| slide_override(j);
    lemma_numbered_holds(fe, n, i);
    lemma_numbered_holds(fr, n, i);
    lemma_numbered_holds(fo, n, i);
    let p = presentation_xml_text(n, size);
    let head = r#"<?xml version="1.0" encoding="UTF-8" standalone="yes"?><p:presentation xmlns:a="http://schemas.openxmlformats.org/drawingml/2006/main" xmlns:r="http://schemas.openxmlformats.org/officeDocument/2006/relationships" xmlns:p="http://schemas.openxmlformats.org/presentationml/2006/main"><p:sldMasterIdLst>"#@
        + master_reference(master_rel_id(n)) + r#"</p:sldMasterIdLst><p:sldIdLst>"#@;
    let tail = r#"</p:sldIdLst><p:sldSz cx=""#@ + decimal(size_emu(size).0) + r#"" cy=""#@
        + decimal(size_emu(size).1)
        + r#"" type="screen16x9"/><p:notesSz cx="6858000" cy="9144000"/></p:presentation>"#@;
    lemma_occurs_in_extend(slide_id_entry(i), slide_id_entries(n), head, tail);
    assert(head + slide_id_entries(n) + tail =~= p);
    let rhead = r#"<?xml version="1.0" encoding="UTF-8" standalone="yes"?><Relationships xmlns="http://schemas.openxmlformats.org/package/2006/relationships">"#@;
    let rtail = master_relationship(master_rel_id(n)) + "</Relationships>"@;
    lemma_occurs_in_extend(slide_relationship(i), slide_relationships(n), rhead, rtail);
    assert(rhead + slide_relationships(n) + rtail =~= presentation_rels_xml(n));
    let chead = r#"<?xml version="1.0" encoding="UTF-8" standalone="yes"?><Types xmlns="http://schemas.openxmlformats.org/package/2006/content-types">"#@
        + content_defaults(png, jpeg, svg)
        + r#"<Override PartName="/docProps/app.xml" ContentType="application/vnd.openxmlformats-officedocument.extended-properties+xml"/><Override PartName="/docProps/core.xml" ContentType="application/vnd.openxmlformats-package.core-properties+xml"/><Override PartName="/ppt/presentation.xml" ContentType="application/vnd.openxmlformats-officedocument.presentationml.presentation.main+xml"/><Override PartName="/ppt/slideMasters/slideMaster1.xml" ContentType="application/vnd.openxmlformats-officedocument.presentationml.slideMaster+xml"/><Override PartName="/ppt/slideLayouts/slideLayout1.xml" ContentType="application/vnd.openxmlformats-officedocument.presentationml.slideLayout+xml"/><Override PartName="/ppt/theme/theme1.xml" ContentType="application/vnd.openxmlformats-officedocument.theme+xml"/>"#@;
    lemma_occurs_in_extend(slide_override(i), slide_overrides(n), chead, "</Types>"@);
    assert(chead + slide_overrides(n) + "</Types>"@ =~= content_types_xml(n, png, jpeg, svg));
}

/// `presentation.xml` refers to the slide master through the relationship id
/// that its relationships part gives the master, and that id comes after the
/// ids `1..=n` of the slides.
pub proof fn law_master_relationship_matches(n: nat, size: SlideSize)
    ensures
        occurs_in(master_reference(master_rel_id(n)), presentation_xml_text(n, size)),
        occurs_in(master_relationship(master_rel_id(n)), presentation_rels_xml(n)),
        n < master_rel_id(n),
{
    let head = r#"<?xml version="1.0" encoding="UTF-8" standalone="yes"?><p:presentation xmlns:a="http://schemas.openxmlformats.org/drawingml/2006/main" xmlns:r="http://schemas.openxmlformats.org/officeDocument/2006/relationships" xmlns:p="http://schemas.openxmlformats.org/presentationml/2006/main"><p:sldMasterIdLst>"#@;
    let tail = r#"</p:sldMasterIdLst><p:sldIdLst>"#@ + slide_id_entries(n)
        + r#"</p:sldIdLst><p:sldSz cx=""#@ + decimal(size_emu(size).0) + r#"" cy=""#@
        + decimal(size_emu(size).1)
        + r#"" type="screen16x9"/><p:notesSz cx="6858000" cy="9144000"/></p:presentation>"#@;
    lemma_occurs_in_concat(head, master_reference(master_rel_id(n)), tail);
    assert(head + master_reference(master_rel_id(n)) + tail =~= presentation_xml_text(n, size));
    let rhead = r#"<?xml version="1.0" encoding="UTF-8" standalone="yes"?><Relationships xmlns="http://schemas.openxmlformats.org/package/2006/relationships">"#@
        + slide_relationships(n);
    lemma_occurs_in_concat(rhead, master_relationship(master_rel_id(n)), "</Relationships>"@);
    assert(rhead + master_relationship(master_rel_id(n)) + "</Relationships>"@ =~= presentation_rels_xml(n));
}

proof fn lemma_occurs_in_trans(x: Seq<char>, y: Seq<char>, z: Seq<char>)
    requires
        occurs_in(x, y),
        occurs_in(y, z),
    ensures
        occurs_in(x, z),
{
    let k1 = choose|k: int| 0 <= k && k + x.len() <= y.len() && #[trigger] y.subrange(k, k + x.len()) == x;
    let k2 = choose|k: int| 0 <= k && k + y.len() <= z.len() && #[trigger] z.subrange(k, k + y.len()) == y;
    assert(z.subrange(k2 + k1, k2 + k1 + x.len()) =~= y.subrange(k1, k1 + x.len()));
}

proof fn lemma_image_relationships_hold(media: Seq<MediaFile>, k: nat)
    requires
        k < media.len(),
    ensures
        occurs_in(
            image_relationship(k, media[k as int].media_number as nat, media[k as int].extension@),
            image_relationships(media),
        ),
    decreases media.len(),
{
    let x = image_relationship(k, media[k as int].media_number as nat, media[k as int].extension@);
    if k == media.len() - 1 {
        lemma_occurs_in_concat(image_relationships(media.drop_last()), x, seq![]);
        assert(image_relationships(media.drop_last()) + x + seq![] =~= image_relationships(media));
    } else {
        lemma_image_relationships_hold(media.drop_last(), k);
        assert(media.drop_last()[k as int] == media[k as int]);
        let last = image_relationship(
            (media.len() - 1) as nat,
            media.last().media_number as nat,
            media.last().extension@,
        );
        lemma_occurs_in_extend(x, image_relationships(media.drop_last()), seq![], last);
        assert(seq![] + image_relationships(media.drop_last()) + last =~= image_relationships(media));
    }
}

/// The picture of a slide's image `k + 1` embeds relationship `rId{k + 2}`,
/// and the slide's relationships give that id to the slide's image `k + 1`.
pub proof fn law_pictures_embed_their_images(
    id: nat,
    frame: Frame,
    alt: Seq<char>,
    media: Seq<MediaFile>,
    k: nat,
)
    requires
        k < media.len(),
    ensures
        occurs_in(embed_reference(k + 2), image_shape_text(id, frame, k + 1, alt)),
        occurs_in(
            relationship_id(k + 2),
            image_relationship(k, media[k as int].media_number as nat, media[k as int].extension@),
        ),
        occurs_in(
            image_relationship(k, media[k as int].media_number as nat, media[k as int].extension@),
            slide_rels_xml(media),
        ),
{
    let head = "<p:pic>\n  <p:nvPicPr><p:cNvPr id=\""@ + decimal(id) + "\" name=\""@ + escape_text(alt)
        + "\"/><p:cNvPicPr/><p:nvPr/></p:nvPicPr>\n  <p:blipFill><a:blip "@;
    let tail = "/><a:stretch><a:fillRect/></a:stretch></p:blipFill>\n  <p:spPr>"@ + frame_xml(frame)
        + "<a:prstGeom prst=\"rect\"><a:avLst/></a:prstGeom></p:spPr>\n</p:pic>"@;
    lemma_occurs_in_concat(head, embed_reference(k + 2), tail);
    assert(head + embed_reference(k + 2) + tail =~= image_shape_text(id, frame, k + 1, alt));
    let ext = media[k as int].extension@;
    let number = media[k as int].media_number as nat;
    let rtail = r#" Type="http://schemas.openxmlformats.org/officeDocument/2006/relationships/image" Target=""#@
        + image_target(number, ext) + r#""/>"#@;
    lemma_occurs_in_concat("<Relationship "@, relationship_id(k + 2), rtail);
    assert("<Relationship "@ + relationship_id(k + 2) + rtail =~= image_relationship(k, number, ext));
    lemma_image_relationships_hold(media, k);
    let shead = r#"<?xml version="1.0" encoding="UTF-8" standalone="yes"?><Relationships xmlns="http://schemas.openxmlformats.org/package/2006/relationships"><Relationship Id="rId1" Type="http://schemas.openxmlformats.org/officeDocument/2006/relationships/slideLayout" Target="../slideLayouts/slideLayout1.xml"/>"#@;
    lemma_occurs_in_extend(
        image_relationship(k, number, ext),
        image_relationships(media),
        shead,
        "</Relationships>"@,
    );
    assert(shead + image_relationships(media) + "</Relationships>"@ =~= slide_rels_xml(media));
}

/// The path of a relationship target written in a slide's relationships,
/// taken from the slide's folder `ppt/slides/`.
pub open spec fn resolve_from_slides(target: Seq<char>) -> Seq<char> {
    if target.len() >= 3 && target.take(3) == "../"@ {
        "ppt/"@ + target.skip(3)
    } else {
        "ppt/slides/"@ + target
    }
}

/// The target of an image's relationship leads to the part where the image is stored.
pub proof fn law_image_targets_resolve(number: nat, extension: Seq<char>)
    ensures
        resolve_from_slides(image_target(number, extension)) == media_part(number, extension),
{
    reveal_strlit("../media/image");
    reveal_strlit("../");
    reveal_strlit("ppt/");
    reveal_strlit("ppt/media/image");
    let t = image_target(number, extension);
    assert(t.take(3) =~= "../"@);
    assert("ppt/"@ + t.skip(3) =~= media_part(number, extension));
}

/// Escaped text holds none of the characters `<`, `>`, `"` and `'`.
pub proof fn law_escaped_text_has_no_markup(s: Seq<char>)
    ensures
        forall|i: int|
            0 <= i < escape_text(s).len() ==> {
                let c = #[trigger] escape_text(s)[i];
                c != '<' && c != '>' && c != '"' && c != '\''
            },
    decreases s.len(),
{
    if s.len() > 0 {
        law_escaped_text_has_no_markup(s.drop_last());
        let a = escape_text(s.drop_last());
        let b = escape_char(s.last());
        assert forall|i: int| 0 <= i < escape_text(s).len() implies {
            let c = #[trigger] escape_text(s)[i];
            c != '<' && c != '>' && c != '"' && c != '\''
        } by {
            if i < a.len() {
                assert(escape_text(s)[i] == a[i]);
            } else {
                assert(escape_text(s)[i] == b[i - a.len()]);
            }
        }
    }
}

/// Text with none of `&`, `<`, `>`, `"` and `'` is written as it is.
pub proof fn law_plain_text_is_unchanged(s: Seq<char>)
    requires
        forall|i: int|
            0 <= i < s.len() ==> {
                let c = #[trigger] s[i];
                c != '&' && c != '<' && c != '>' && c != '"' && c != '\''
            },
    ensures
        escape_text(s) == s,
    decreases s.len(),
{
    if s.len() > 0 {
        law_plain_text_is_unchanged(s.drop_last());
        assert(s.drop_last().push(s.last()) =~= s);
    }
}

/// A size read from an image header is never zero in either direction.
pub proof fn law_image_dimensions_are_positive(extension: Seq<char>, bytes: Seq<u8>)
    ensures
        image_dims(extension, bytes) matches Some(d) ==> d.width > 0 && d.height > 0,
{
    if jpeg_dims(bytes) is Some {
        lemma_jpeg_scan_positive(bytes, 2);
    }
}

proof fn lemma_jpeg_scan_positive(b: Seq<u8>, index: int)
    ensures
        jpeg_scan(b, index) matches Some(d) ==> d.width > 0 && d.height > 0,
    decreases b.len() - index,
{
    if 0 <= index && index + 4 <= b.len() {
        let at = skip_ff(b, skip_to_ff(b, index));
        if index <= at < b.len() {
            let seg = at + 1;
            if seg + 2 <= b.len() {
                let length = be16(b, seg);
                if 2 <= length && seg + length <= b.len() && !is_sof(b[at]) {
                    lemma_jpeg_scan_positive(b, seg + length);
                }
            }
        }
    }
}

proof fn lemma_slide_part_injective(a: nat, b: nat)
    requires
        slide_part(a) == slide_part(b),
    ensures
        a == b,
{
    reveal_strlit("ppt/slides/slide");
    reveal_strlit(".xml");
    let p = "ppt/slides/slide"@;
    assert(slide_part(a).len() == p.len() + decimal(a).len() + 4);
    assert(slide_part(b).len() == p.len() + decimal(b).len() + 4);
    assert(slide_part(a).subrange(p.len() as int, (p.len() + decimal(a).len()) as int) =~= decimal(a));
    assert(slide_part(b).subrange(p.len() as int, (p.len() + decimal(b).len()) as int) =~= decimal(b));
    lemma_decimal_injective(a, b);
}

proof fn lemma_slide_rels_part_injective(a: nat, b: nat)
    requires
        slide_rels_part(a) == slide_rels_part(b),
    ensures
        a == b,
{
    reveal_strlit("ppt/slides/_rels/slide");
    reveal_strlit(".xml.rels");
    let p = "ppt/slides/_rels/slide"@;
    assert(slide_rels_part(a).len() == p.len() + decimal(a).len() + 9);
    assert(slide_rels_part(b).len() == p.len() + decimal(b).len() + 9);
    assert(slide_rels_part(a).subrange(p.len() as int, (p.len() + decimal(a).len()) as int) =~= decimal(a));
    assert(slide_rels_part(b).subrange(p.len() as int, (p.len() + decimal(b).len()) as int) =~= decimal(b));
    lemma_decimal_injective(a, b);
}

proof fn lemma_media_part_injective(a: nat, ea: Seq<char>, b: nat, eb: Seq<char>)
    requires
        media_part(a, ea) == media_part(b, eb),
    ensures
        a == b,
{
    reveal_strlit("ppt/media/image");
    reveal_strlit(".");
    let p = "ppt/media/image"@;
    let x = media_part(a, ea);
    let da = decimal(a);
    let db = decimal(b);
    lemma_decimal_digits(a);
    lemma_decimal_digits(b);
    assert(x[(p.len() + da.len()) as int] == '.');
    assert(media_part(b, eb)[(p.len() + db.len()) as int] == '.');
    if da.len() < db.len() {
        assert(media_part(b, eb)[(p.len() + da.len()) as int] == db[da.len() as int]);
    } else if db.len() < da.len() {
        assert(x[(p.len() + db.len()) as int] == da[db.len() as int]);
    }
    assert(x.subrange(p.len() as int, (p.len() + da.len()) as int) =~= da);
    assert(media_part(b, eb).subrange(p.len() as int, (p.len() + db.len()) as int) =~= db);
    lemma_decimal_injective(a, b);
}

/// The characters that tell the kinds of package part names apart.
proof fn lemma_part_name_chars(n: nat, m: nat, e: Seq<char>)
    ensures
        slide_part(n).len() > 11,
        slide_part(n)[0] == 'p' && slide_part(n)[4] == 's' && slide_part(n)[9] == 's'
            && slide_part(n)[11] == 's',
        slide_rels_part(n).len() > 11,
        slide_rels_part(n)[0] == 'p' && slide_rels_part(n)[4] == 's' && slide_rels_part(n)[9]
            == 's' && slide_rels_part(n)[11] == '_',
        media_part(m, e).len() > 11,
        media_part(m, e)[0] == 'p' && media_part(m, e)[4] == 'm',
{
    reveal_strlit("ppt/slides/slide");
    reveal_strlit(".xml");
    reveal_strlit("ppt/slides/_rels/slide");
    reveal_strlit(".xml.rels");
    reveal_strlit("ppt/media/image");
    reveal_strlit(".");
    lemma_decimal_digits(n);
    lemma_decimal_digits(m);
}

/// No two images of the package share a number.
pub open spec fn distinct_media_numbers(media: Seq<Seq<MediaFile>>) -> bool {
    forall|g1: int, i1: int, g2: int, i2: int|
        0 <= g1 < media.len() && 0 <= i1 < media[g1].len() && 0 <= g2 < media.len() && 0 <= i2
            < media[g2].len() && (g1 != g2 || i1 != i2) ==> #[trigger] media[g1][i1].media_number
            != #[trigger] media[g2][i2].media_number
}

/// No two entries share a name.
pub open spec fn distinct_names(entries: Seq<(Seq<char>, Seq<u8>)>) -> bool {
    forall|i: int, j: int| 0 <= i < j < entries.len() ==> #[trigger] entries[i].0 != #[trigger] entries[j].0
}

/// `x` names the part or the relationships of one of slides `1..=k`.
pub open spec fn slide_family(x: Seq<char>, k: nat) -> bool {
    exists|j: int| 1 <= j <= k && #[trigger] names_slide(x, j)
}

/// `x` names the part or the relationships of slide `j`.
pub open spec fn names_slide(x: Seq<char>, j: int) -> bool {
    x == slide_part(j as nat) || x == slide_rels_part(j as nat)
}

/// `x` names an image of one of the first `k` slides.
pub open spec fn media_family(x: Seq<char>, media: Seq<Seq<MediaFile>>, k: int) -> bool {
    exists|g: int, i: int|
        0 <= g < k && 0 <= i < media[g].len() && x == media_part(
            (#[trigger] media[g][i]).media_number as nat,
            media[g][i].extension@,
        )
}

proof fn lemma_media_entries_index(media: Seq<MediaFile>)
    ensures
        media_entries(media).len() == media.len(),
        forall|i: int|
            0 <= i < media.len() ==> (#[trigger] media_entries(media)[i]).0 == media_part(
                media[i].media_number as nat,
                media[i].extension@,
            ),
    decreases media.len(),
{
    if media.len() > 0 {
        lemma_media_entries_index(media.drop_last());
        assert forall|i: int| 0 <= i < media.len() implies (#[trigger] media_entries(media)[i]).0
            == media_part(media[i].media_number as nat, media[i].extension@) by {
            if i < media.len() - 1 {
                assert(media_entries(media)[i] == media_entries(media.drop_last())[i]);
                assert(media.drop_last()[i] == media[i]);
            }
        }
    }
}

proof fn slide_family_witness(x: Seq<char>, k: nat) -> (jj: nat)
    requires
        slide_family(x, k),
    ensures
        1 <= jj <= k,
        x == slide_part(jj) || x == slide_rels_part(jj),
{
    let jj = choose|jj: int| 1 <= jj <= k && #[trigger] names_slide(x, jj);
    jj as nat
}

proof fn media_family_witness(x: Seq<char>, media: Seq<Seq<MediaFile>>, k: int) -> (gi: (int, int))
    requires
        media_family(x, media, k),
    ensures
        0 <= gi.0 < k,
        0 <= gi.1 < media[gi.0].len(),
        x == media_part(media[gi.0][gi.1].media_number as nat, media[gi.0][gi.1].extension@),
{
    let (g, i) = choose|g: int, i: int|
        0 <= g < k && 0 <= i < media[g].len() && x == media_part(
            (#[trigger] media[g][i]).media_number as nat,
            media[g][i].extension@,
        );
    (g, i)
}

proof fn lemma_family_name_differs(x: Seq<char>, media: Seq<Seq<MediaFile>>, k: nat, y: Seq<char>, j: nat)
    requires
        slide_family(x, k) || media_family(x, media, k as int),
        k < j,
        y == slide_part(j) || y == slide_rels_part(j),
    ensures
        x != y,
{
    if slide_family(x, k) {
        let jj = slide_family_witness(x, k);
        lemma_part_name_chars(jj, 0, seq![]);
        lemma_part_name_chars(j, 0, seq![]);
        if x == y {
            if x == slide_part(jj) && y == slide_part(j) {
                lemma_slide_part_injective(jj, j);
            } else if x == slide_rels_part(jj) && y == slide_rels_part(j) {
                lemma_slide_rels_part_injective(jj, j);
            } else if x == slide_part(jj) {
                assert(x[11] != y[11]);
            } else {
                assert(x[11] != y[11]);
            }
        }
    } else {
        let (g, i) = media_family_witness(x, media, k as int);
        lemma_part_name_chars(j, media[g][i].media_number as nat, media[g][i].extension@);
        assert(x[4] != y[4]);
    }
}

proof fn lemma_media_name_differs(
    x: Seq<char>,
    media: Seq<Seq<MediaFile>>,
    k: nat,
    t: int,
)
    requires
        slide_family(x, k) || media_family(x, media, k as int),
        k < media.len(),
        0 <= t < media[k as int].len(),
        distinct_media_numbers(media),
    ensures
        x != media_part(media[k as int][t].media_number as nat, media[k as int][t].extension@),
{
    let y = media_part(media[k as int][t].media_number as nat, media[k as int][t].extension@);
    if slide_family(x, k) {
        let jj = slide_family_witness(x, k);
        assert(x == slide_part(jj) || x == slide_rels_part(jj));
        lemma_part_name_chars(jj, media[k as int][t].media_number as nat, media[k as int][t].extension@);
        assert(y[4] == 'm');
        assert(x[4] == 's');
    } else {
        let (g, i) = media_family_witness(x, media, k as int);
        if x == y {
            lemma_media_part_injective(
                media[g][i].media_number as nat,
                media[g][i].extension@,
                media[k as int][t].media_number as nat,
                media[k as int][t].extension@,
            );
            assert(media[g][i].media_number != media[k as int][t].media_number);
        }
    }
}

proof fn lemma_slides_entries_names(slides: Seq<Seq<char>>, media: Seq<Seq<MediaFile>>, k: nat)
    requires
        k <= slides.len(),
        k <= media.len(),
        distinct_media_numbers(media),
    ensures
        distinct_names(slides_entries(slides, media, k)),
        forall|i: int|
            0 <= i < slides_entries(slides, media, k).len() ==> slide_family(
                #[trigger] slides_entries(slides, media, k)[i].0,
                k,
            ) || media_family(slides_entries(slides, media, k)[i].0, media, k as int),
    decreases k,
{
    if k > 0 {
        let k0 = (k - 1) as nat;
        lemma_slides_entries_names(slides, media, k0);
        let e = slides_entries(slides, media, k0);
        let group = media[k0 as int];
        lemma_media_entries_index(group);
        let heads = seq![
            text_entry(slide_part(k), slides[k0 as int]),
            text_entry(slide_rels_part(k), slide_rels_xml(group)),
        ];
        let e2 = slides_entries(slides, media, k);
        assert(e2 =~= e + heads + media_entries(group));
        let base = e.len() as int;
        lemma_part_name_chars(k, 0, seq![]);
        assert forall|i: int| 0 <= i < e2.len() implies slide_family(#[trigger] e2[i].0, k)
            || media_family(e2[i].0, media, k as int) by {
            if i < base {
                assert(e2[i] == e[i]);
                if slide_family(e[i].0, k0) {
                    let jj = slide_family_witness(e[i].0, k0);
                    assert(names_slide(e2[i].0, jj as int));
                    assert(slide_family(e2[i].0, k));
                } else {
                    let (g, t) = media_family_witness(e[i].0, media, k0 as int);
                    assert(0 <= g < k && 0 <= t < media[g].len() && e2[i].0 == media_part(
                        media[g][t].media_number as nat,
                        media[g][t].extension@,
                    ));
                    assert(media_family(e2[i].0, media, k as int));
                }
            } else if i == base {
                assert(names_slide(e2[i].0, k as int));
                assert(slide_family(e2[i].0, k));
            } else if i == base + 1 {
                assert(names_slide(e2[i].0, k as int));
                assert(slide_family(e2[i].0, k));
            } else {
                let t = i - base - 2;
                assert(e2[i] == media_entries(group)[t]);
                assert(0 <= k0 < k && e2[i].0 == media_part(
                    media[k0 as int][t].media_number as nat,
                    media[k0 as int][t].extension@,
                ));
                assert(media_family(e2[i].0, media, k as int));
            }
        }
        assert forall|i: int, j: int| 0 <= i < j < e2.len() implies #[trigger] e2[i].0
            != #[trigger] e2[j].0 by {
            if j < base {
                assert(e2[i] == e[i] && e2[j] == e[j]);
            } else if i < base {
                assert(e2[i] == e[i]);
                if j == base {
                    lemma_family_name_differs(e[i].0, media, k0, slide_part(k), k);
                } else if j == base + 1 {
                    lemma_family_name_differs(e[i].0, media, k0, slide_rels_part(k), k);
                } else {
                    let t = j - base - 2;
                    assert(e2[j] == media_entries(group)[t]);
                    lemma_media_name_differs(e[i].0, media, k0, t);
                }
            } else if i == base {
                if j > base + 1 {
                    let t = j - base - 2;
                    assert(e2[j] == media_entries(group)[t]);
                    lemma_part_name_chars(k, group[t].media_number as nat, group[t].extension@);
                }
            } else if i == base + 1 {
                let t = j - base - 2;
                assert(e2[j] == media_entries(group)[t]);
                lemma_part_name_chars(k, group[t].media_number as nat, group[t].extension@);
            } else {
                let t1 = i - base - 2;
                let t2 = j - base - 2;
                assert(e2[i] == media_entries(group)[t1]);
                assert(e2[j] == media_entries(group)[t2]);
                if e2[i].0 == e2[j].0 {
                    lemma_media_part_injective(
                        group[t1].media_number as nat,
                        group[t1].extension@,
                        group[t2].media_number as nat,
                        group[t2].extension@,
                    );
                    assert(media[k0 as int][t1].media_number != media[k0 as int][t2].media_number);
                }
            }
        }
    }
}

/// The names of the parts that every package has, in the order they are written.
pub open spec fn fixed_part_names() -> Seq<Seq<char>> {
    seq![
        "[Content_Types].xml"@,
        "_rels/.rels"@,
        "docProps/app.xml"@,
        "docProps/core.xml"@,
        "ppt/presentation.xml"@,
        "ppt/_rels/presentation.xml.rels"@,
        "ppt/slideMasters/slideMaster1.xml"@,
        "ppt/slideMasters/_rels/slideMaster1.xml.rels"@,
        "ppt/slideLayouts/slideLayout1.xml"@,
        "ppt/slideLayouts/_rels/slideLayout1.xml.rels"@,
        "ppt/theme/theme1.xml"@,
    ]
}

proof fn lemma_fixed_names_distinct()
    ensures
        forall|i: int, j: int|
            0 <= i < j < fixed_part_names().len() ==> #[trigger] fixed_part_names()[i]
                != #[trigger] fixed_part_names()[j],
{
    reveal_strlit("[Content_Types].xml");
    reveal_strlit("_rels/.rels");
    reveal_strlit("docProps/app.xml");
    reveal_strlit("docProps/core.xml");
    reveal_strlit("ppt/presentation.xml");
    reveal_strlit("ppt/_rels/presentation.xml.rels");
    reveal_strlit("ppt/slideMasters/slideMaster1.xml");
    reveal_strlit("ppt/slideMasters/_rels/slideMaster1.xml.rels");
    reveal_strlit("ppt/slideLayouts/slideLayout1.xml");
    reveal_strlit("ppt/slideLayouts/_rels/slideLayout1.xml.rels");
    reveal_strlit("ppt/theme/theme1.xml");
    let f = fixed_part_names();
    assert(f[4][4] != f[10][4]);
    assert(f[6][9] != f[8][9]);
    assert(f[7][9] != f[9][9]);
    assert forall|i: int, j: int| 0 <= i < j < f.len() implies #[trigger] f[i] != #[trigger] f[j] by {
        if !(i == 4 && j == 10) && !(i == 6 && j == 8) && !(i == 7 && j == 9) {
            assert(f[i].len() != f[j].len());
        }
    }
}

proof fn lemma_fixed_not_family(x: Seq<char>, media: Seq<Seq<MediaFile>>, k: nat)
    requires
        slide_family(x, k) || media_family(x, media, k as int),
    ensures
        forall|i: int| 0 <= i < fixed_part_names().len() ==> #[trigger] fixed_part_names()[i] != x,
{
    reveal_strlit("[Content_Types].xml");
    reveal_strlit("_rels/.rels");
    reveal_strlit("docProps/app.xml");
    reveal_strlit("docProps/core.xml");
    reveal_strlit("ppt/presentation.xml");
    reveal_strlit("ppt/_rels/presentation.xml.rels");
    reveal_strlit("ppt/slideMasters/slideMaster1.xml");
    reveal_strlit("ppt/slideMasters/_rels/slideMaster1.xml.rels");
    reveal_strlit("ppt/slideLayouts/slideLayout1.xml");
    reveal_strlit("ppt/slideLayouts/_rels/slideLayout1.xml.rels");
    reveal_strlit("ppt/theme/theme1.xml");
    let f = fixed_part_names();
    if slide_family(x, k) {
        let j = slide_family_witness(x, k);
        lemma_part_name_chars(j, 0, seq![]);
        assert(x[0] == 'p' && x[4] == 's' && x[9] == 's');
    } else {
        let (g, t) = media_family_witness(x, media, k as int);
        lemma_part_name_chars(0, media[g][t].media_number as nat, media[g][t].extension@);
        assert(x[0] == 'p' && x[4] == 'm');
    }
    assert forall|i: int| 0 <= i < f.len() implies #[trigger] f[i] != x by {
        if i < 4 {
            assert(f[i][0] != x[0]);
        } else if i == 6 || i == 7 || i == 8 || i == 9 {
            assert(f[i][4] != x[4] || f[i][9] != x[9]);
        } else {
            assert(f[i][4] != x[4]);
        }
    }
}

/// A package names no two parts alike when no two images share a number,
/// so the archive writer is never handed a name twice.
pub proof fn law_package_part_names_are_distinct(
    slides: Seq<Seq<char>>,
    size: SlideSize,
    media: Seq<Seq<MediaFile>>,
)
    requires
        slides.len() == media.len(),
        distinct_media_numbers(media),
    ensures
        distinct_names(package_entries(slides, size, media)),
{
    let n = slides.len();
    lemma_slides_entries_names(slides, media, n);
    lemma_fixed_names_distinct();
    let e = slides_entries(slides, media, n);
    let p = package_entries(slides, size, media);
    let f = fixed_part_names();
    assert forall|i: int| 0 <= i < 11 implies #[trigger] p[i].0 == f[i] by {}
    assert forall|i: int, j: int| 0 <= i < j < p.len() implies #[trigger] p[i].0
        != #[trigger] p[j].0 by {
        if j < 11 {
            assert(p[i].0 == f[i] && p[j].0 == f[j]);
        } else if i < 11 {
            assert(p[j] == e[j - 11]);
            lemma_fixed_not_family(e[j - 11].0, media, n);
            assert(p[i].0 == f[i]);
        } else {
            assert(p[i] == e[i - 11] && p[j] == e[j - 11]);
        }
    }
}

/// The package relationships: the presentation and the document properties.
pub const ROOT_RELS: &'static str = r#"<?xml version="1.0" encoding="UTF-8" standalone="yes"?><Relationships xmlns="http://schemas.openxmlformats.org/package/2006/relationships"><Relationship Id="rId1" Type="http://schemas.openxmlformats.org/officeDocument/2006/relationships/officeDocument" Target="ppt/presentation.xml"/><Relationship Id="rId2" Type="http://schemas.openxmlformats.org/package/2006/relationships/metadata/core-properties" Target="docProps/core.xml"/><Relationship Id="rId3" Type="http://schemas.openxmlformats.org/officeDocument/2006/relationships/extended-properties" Target="docProps/app.xml"/></Relationships>"#;

/// The extended document properties.
pub const APP_PROPS: &'static str = r#"<?xml version="1.0" encoding="UTF-8" standalone="yes"?><Properties xmlns="http://schemas.openxmlformats.org/officeDocument/2006/extended-properties" xmlns:vt="http://schemas.openxmlformats.org/officeDocument/2006/docPropsVTypes"><Application>md2pptx</Application></Properties>"#;

/// The core document properties.
pub const CORE_PROPS: &'static str = r#"<?xml version="1.0" encoding="UTF-8" standalone="yes"?><cp:coreProperties xmlns:cp="http://schemas.openxmlformats.org/package/2006/metadata/core-properties" xmlns:dc="http://purl.org/dc/elements/1.1/" xmlns:dcterms="http://purl.org/dc/terms/" xmlns:dcmitype="http://purl.org/dc/dcmitype/" xmlns:xsi="http://www.w3.org/2001/XMLSchema-instance"><dc:creator>md2pptx</dc:creator><cp:lastModifiedBy>md2pptx</cp:lastModifiedBy></cp:coreProperties>"#;

/// The one slide master, with no placeholder shapes.
pub const SLIDE_MASTER: &'static str = r#"<?xml version="1.0" encoding="UTF-8" standalone="yes"?><p:sldMaster xmlns:a="http://schemas.openxmlformats.org/drawingml/2006/main" xmlns:r="http://schemas.openxmlformats.org/officeDocument/2006/relationships" xmlns:p="http://schemas.openxmlformats.org/presentationml/2006/main"><p:cSld><p:spTree><p:nvGrpSpPr><p:cNvPr id="1" name=""/><p:cNvGrpSpPr/><p:nvPr/></p:nvGrpSpPr><p:grpSpPr><a:xfrm><a:off x="0" y="0"/><a:ext cx="0" cy="0"/><a:chOff x="0" y="0"/><a:chExt cx="0" cy="0"/></a:xfrm></p:grpSpPr></p:spTree></p:cSld><p:clrMap bg1="lt1" tx1="dk1" bg2="lt2" tx2="dk2" accent1="accent1" accent2="accent2" accent3="accent3" accent4="accent4" accent5="accent5" accent6="accent6" hlink="hlink" folHlink="folHlink"/><p:sldLayoutIdLst><p:sldLayoutId id="2147483649" r:id="rId1"/></p:sldLayoutIdLst><p:txStyles><p:titleStyle/><p:bodyStyle/><p:otherStyle/></p:txStyles></p:sldMaster>"#;

/// The slide master's relationships: its layout and its theme.
pub const SLIDE_MASTER_RELS: &'static str = r#"<?xml version="1.0" encoding="UTF-8" standalone="yes"?><Relationships xmlns="http://schemas.openxmlformats.org/package/2006/relationships"><Relationship Id="rId1" Type="http://schemas.openxmlformats.org/officeDocument/2006/relationships/slideLayout" Target="../slideLayouts/slideLayout1.xml"/><Relationship Id="rId2" Type="http://schemas.openxmlformats.org/officeDocument/2006/relationships/theme" Target="../theme/theme1.xml"/></Relationships>"#;

/// The one blank slide layout.
pub const SLIDE_LAYOUT: &'static str = r#"<?xml version="1.0" encoding="UTF-8" standalone="yes"?><p:sldLayout xmlns:a="http://schemas.openxmlformats.org/drawingml/2006/main" xmlns:r="http://schemas.openxmlformats.org/officeDocument/2006/relationships" xmlns:p="http://schemas.openxmlformats.org/presentationml/2006/main" type="blank" preserve="1"><p:cSld name="Blank"><p:spTree><p:nvGrpSpPr><p:cNvPr id="1" name=""/><p:cNvGrpSpPr/><p:nvPr/></p:nvGrpSpPr><p:grpSpPr><a:xfrm><a:off x="0" y="0"/><a:ext cx="0" cy="0"/><a:chOff x="0" y="0"/><a:chExt cx="0" cy="0"/></a:xfrm></p:grpSpPr></p:spTree></p:cSld><p:clrMapOvr><a:masterClrMapping/></p:clrMapOvr></p:sldLayout>"#;

/// The slide layout's relationship to the slide master.
pub const SLIDE_LAYOUT_RELS: &'static str = r#"<?xml version="1.0" encoding="UTF-8" standalone="yes"?><Relationships xmlns="http://schemas.openxmlformats.org/package/2006/relationships"><Relationship Id="rId1" Type="http://schemas.openxmlformats.org/officeDocument/2006/relationships/slideMaster" Target="../slideMasters/slideMaster1.xml"/></Relationships>"#;

/// The theme: colors, fonts and formatting schemes.
pub const THEME: &'static str = r#"<?xml version="1.0" encoding="UTF-8" standalone="yes"?><a:theme xmlns:a="http://schemas.openxmlformats.org/drawingml/2006/main" name="md2pptx"><a:themeElements><a:clrScheme name="md2pptx"><a:dk1><a:sysClr val="windowText" lastClr="000000"/></a:dk1><a:lt1><a:sysClr val="window" lastClr="FFFFFF"/></a:lt1><a:dk2><a:srgbClr val="1F1F1F"/></a:dk2><a:lt2><a:srgbClr val="F2F2F2"/></a:lt2><a:accent1><a:srgbClr val="4472C4"/></a:accent1><a:accent2><a:srgbClr val="ED7D31"/></a:accent2><a:accent3><a:srgbClr val="A5A5A5"/></a:accent3><a:accent4><a:srgbClr val="FFC000"/></a:accent4><a:accent5><a:srgbClr val="5B9BD5"/></a:accent5><a:accent6><a:srgbClr val="70AD47"/></a:accent6><a:hlink><a:srgbClr val="0563C1"/></a:hlink><a:folHlink><a:srgbClr val="954F72"/></a:folHlink></a:clrScheme><a:fontScheme name="md2pptx"><a:majorFont><a:latin typeface="Arial"/><a:ea typeface=""/><a:cs typeface=""/></a:majorFont><a:minorFont><a:latin typeface="Arial"/><a:ea typeface=""/><a:cs typeface=""/></a:minorFont></a:fontScheme><a:fmtScheme name="md2pptx"><a:fillStyleLst><a:solidFill><a:schemeClr val="phClr"/></a:solidFill><a:gradFill rotWithShape="1"><a:gsLst><a:gs pos="0"><a:schemeClr val="phClr"/></a:gs><a:gs pos="100000"><a:schemeClr val="phClr"/></a:gs></a:gsLst><a:lin ang="5400000" scaled="0"/></a:gradFill><a:gradFill rotWithShape="1"><a:gsLst><a:gs pos="0"><a:schemeClr val="phClr"/></a:gs><a:gs pos="100000"><a:schemeClr val="phClr"/></a:gs></a:gsLst><a:lin ang="5400000" scaled="0"/></a:gradFill></a:fillStyleLst><a:lnStyleLst><a:ln w="9525" cap="flat" cmpd="sng" algn="ctr"><a:solidFill><a:schemeClr val="phClr"/></a:solidFill><a:prstDash val="solid"/></a:ln><a:ln w="25400" cap="flat" cmpd="sng" algn="ctr"><a:solidFill><a:schemeClr val="phClr"/></a:solidFill><a:prstDash val="solid"/></a:ln><a:ln w="38100" cap="flat" cmpd="sng" algn="ctr"><a:solidFill><a:schemeClr val="phClr"/></a:solidFill><a:prstDash val="solid"/></a:ln></a:lnStyleLst><a:effectStyleLst><a:effectStyle><a:effectLst/></a:effectStyle><a:effectStyle><a:effectLst/></a:effectStyle><a:effectStyle><a:effectLst/></a:effectStyle></a:effectStyleLst><a:bgFillStyleLst><a:solidFill><a:schemeClr val="phClr"/></a:solidFill><a:solidFill><a:schemeClr val="phClr"/></a:solidFill><a:solidFill><a:schemeClr val="phClr"/></a:solidFill></a:bgFillStyleLst></a:fmtScheme></a:themeElements><a:objectDefaults/><a:extraClrSchemeLst/></a:theme>"#;

} // verus!
