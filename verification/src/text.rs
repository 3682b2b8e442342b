//! Character-level text utilities shared by the Markdown, style and package code.
//!
//! Text is handled as sequences of `char`; the spec functions here say what
//! whitespace trimming, line splitting and joining mean on `Seq<char>`.
use vstd::prelude::*;

verus! {

/// The Unicode `White_Space` property, as used by `char::is_whitespace`.
pub open spec fn is_space(c: char) -> bool {
    ||| c == ' '
    ||| ('\t' <= c && c <= '\r')
    ||| c == '\u{85}'
    ||| c == '\u{a0}'
    ||| c == '\u{1680}'
    ||| ('\u{2000}' <= c && c <= '\u{200a}')
    ||| c == '\u{2028}'
    ||| c == '\u{2029}'
    ||| c == '\u{202f}'
    ||| c == '\u{205f}'
    ||| c == '\u{3000}'
}

pub fn char_is_space(c: char) -> (res: bool)
    ensures
        res == is_space(c),
{
    c == ' ' || ('\t' <= c && c <= '\r') || c == '\u{85}' || c == '\u{a0}' || c == '\u{1680}'
        || ('\u{2000}' <= c && c <= '\u{200a}') || c == '\u{2028}' || c == '\u{2029}'
        || c == '\u{202f}' || c == '\u{205f}' || c == '\u{3000}'
}

/// `s` without its leading whitespace.
pub open spec fn trim_start(s: Seq<char>) -> Seq<char>
    decreases s.len(),
{
    if s.len() > 0 && is_space(s[0]) {
        trim_start(s.drop_first())
    } else {
        s
    }
}

/// `s` without its trailing whitespace.
pub open spec fn trim_end(s: Seq<char>) -> Seq<char>
    decreases s.len(),
{
    if s.len() > 0 && is_space(s.last()) {
        trim_end(s.drop_last())
    } else {
        s
    }
}

/// `s` without leading and trailing whitespace, as `str::trim`.
pub open spec fn trim(s: Seq<char>) -> Seq<char> {
    trim_end(trim_start(s))
}

/// The characters of a string slice, in order.
pub fn chars_of(s: &str) -> (res: Vec<char>)
    ensures
        res@ == s@,
{
    let mut res: Vec<char> = Vec::new();
    for c in it: s.chars()
        invariant
            res@ == it.seq().take(it.index() as int),
    {
        res.push(c);
    }
    res
}


/// Seq equality of two char slices.
pub fn chars_eq(a: &[char], b: &[char]) -> (res: bool)
    ensures
        res == (a@ == b@),
{
    if a.len() != b.len() {
        return false;
    }
    let mut i: usize = 0;
    while i < a.len()
        invariant
            a@.len() == b@.len(),
            i <= a@.len(),
            forall|k: int| 0 <= k < i ==> a@[k] == b@[k],
        decreases a.len() - i,
    {
        if a[i] != b[i] {
            return false;
        }
        i = i + 1;
    }
    assert(a@ =~= b@);
    true
}

/// A copy of `s[lo..hi]`.
pub fn slice_chars(s: &[char], lo: usize, hi: usize) -> (res: Vec<char>)
    requires
        lo <= hi <= s@.len(),
    ensures
        res@ == s@.subrange(lo as int, hi as int),
{
    let mut res: Vec<char> = Vec::new();
    let mut i = lo;
    while i < hi
        invariant
            lo <= i <= hi <= s@.len(),
            res@ == s@.subrange(lo as int, i as int),
        decreases hi - i,
    {
        res.push(s[i]);
        i = i + 1;
        assert(res@ =~= s@.subrange(lo as int, i as int));
    }
    res
}

/// Index of the first character that is not whitespace in `s[lo..hi]`, or `hi`.
pub fn skip_spaces(s: &[char], lo: usize, hi: usize) -> (res: usize)
    requires
        lo <= hi <= s@.len(),
    ensures
        lo <= res <= hi,
        trim_start(s@.subrange(lo as int, hi as int)) == s@.subrange(res as int, hi as int),
{
    let mut i = lo;
    while i < hi && char_is_space(s[i])
        invariant
            lo <= i <= hi <= s@.len(),
            trim_start(s@.subrange(lo as int, hi as int)) == trim_start(
                s@.subrange(i as int, hi as int),
            ),
        decreases hi - i,
    {
        assert(s@.subrange(i as int, hi as int).drop_first() =~= s@.subrange(i + 1, hi as int));
        i = i + 1;
    }
    i
}

/// End of `s[lo..hi]` once its trailing whitespace is dropped.
pub fn skip_spaces_back(s: &[char], lo: usize, hi: usize) -> (res: usize)
    requires
        lo <= hi <= s@.len(),
    ensures
        lo <= res <= hi,
        trim_end(s@.subrange(lo as int, hi as int)) == s@.subrange(lo as int, res as int),
{
    let mut j = hi;
    while j > lo && char_is_space(s[j - 1])
        invariant
            lo <= j <= hi <= s@.len(),
            trim_end(s@.subrange(lo as int, hi as int)) == trim_end(
                s@.subrange(lo as int, j as int),
            ),
        decreases j - lo,
    {
        assert(s@.subrange(lo as int, j as int).drop_last() =~= s@.subrange(lo as int, j - 1));
        j = j - 1;
    }
    j
}

/// `s` with leading and trailing whitespace removed.
pub fn trimmed(s: &[char]) -> (res: Vec<char>)
    ensures
        res@ == trim(s@),
{
    let lo = skip_spaces(s, 0, s.len());
    let hi = skip_spaces_back(s, lo, s.len());
    assert(s@.subrange(0, s@.len() as int) =~= s@);
    slice_chars(s, lo, hi)
}

/// `s` with leading whitespace removed.
pub fn trimmed_start(s: &[char]) -> (res: Vec<char>)
    ensures
        res@ == trim_start(s@),
{
    let lo = skip_spaces(s, 0, s.len());
    assert(s@.subrange(0, s@.len() as int) =~= s@);
    slice_chars(s, lo, s.len())
}

pub proof fn lemma_trim_start_len(s: Seq<char>)
    ensures
        trim_start(s).len() <= s.len(),
    decreases s.len(),
{
    if s.len() > 0 && is_space(s[0]) {
        lemma_trim_start_len(s.drop_first());
    }
}

pub proof fn lemma_trim_end_len(s: Seq<char>)
    ensures
        trim_end(s).len() <= s.len(),
    decreases s.len(),
{
    if s.len() > 0 && is_space(s.last()) {
        lemma_trim_end_len(s.drop_last());
    }
}

/// A string trims to nothing exactly when every character is whitespace.
pub proof fn lemma_trim_empty(s: Seq<char>)
    ensures
        (trim(s).len() == 0) == (forall|i: int| 0 <= i < s.len() ==> is_space(#[trigger] s[i])),
    decreases s.len(),
{
    lemma_trim_start_all(s);
    lemma_trim_end_empty(trim_start(s));
}

proof fn lemma_trim_start_all(s: Seq<char>)
    ensures
        (trim_start(s).len() == 0) == (forall|i: int| 0 <= i < s.len() ==> is_space(#[trigger] s[i])),
        trim_start(s).len() == 0 || !is_space(trim_start(s)[0]),
    decreases s.len(),
{
    if s.len() > 0 && is_space(s[0]) {
        lemma_trim_start_all(s.drop_first());
        if trim_start(s).len() == 0 {
            assert forall|i: int| 0 <= i < s.len() implies is_space(#[trigger] s[i]) by {
                if i > 0 {
                    assert(s[i] == s.drop_first()[i - 1]);
                }
            }
        } else {
            let k = choose|k: int| 0 <= k < s.drop_first().len() && !is_space(s.drop_first()[k]);
            assert(!is_space(s[k + 1]));
        }
    } else if s.len() > 0 {
        assert(!is_space(s[0]));
    }
}

proof fn lemma_trim_end_empty(s: Seq<char>)
    requires
        s.len() == 0 || !is_space(s[0]),
    ensures
        (trim_end(s).len() == 0) == (s.len() == 0),
    decreases s.len(),
{
    if s.len() > 0 && is_space(s.last()) {
        lemma_trim_end_empty(s.drop_last());
    }
}

/// Whether every character of `s` is whitespace, i.e. `s.trim().is_empty()`.
pub fn is_blank(s: &[char]) -> (res: bool)
    ensures
        res == (trim(s@).len() == 0),
{
    let mut i: usize = 0;
    while i < s.len()
        invariant
            i <= s@.len(),
            forall|k: int| 0 <= k < i ==> is_space(#[trigger] s@[k]),
        decreases s.len() - i,
    {
        if !char_is_space(s[i]) {
            proof {
                lemma_trim_empty(s@);
                assert(!is_space(s@[i as int]));
            }
            return false;
        }
        i = i + 1;
    }
    proof {
        lemma_trim_empty(s@);
    }
    true
}


/// `s` without one trailing carriage return.
pub open spec fn strip_cr(s: Seq<char>) -> Seq<char> {
    if s.len() > 0 && s.last() == '\r' {
        s.drop_last()
    } else {
        s
    }
}

/// The lines of `s[start..]`, scanning from `pos`: lines end at `\n` (a `\r`
/// just before it is dropped) and an unterminated last line is kept only when
/// it is not empty.
pub open spec fn lines_from(s: Seq<char>, start: int, pos: int) -> Seq<Seq<char>>
    decreases s.len() - pos,
{
    if pos >= s.len() {
        if start < s.len() {
            seq![s.subrange(start, s.len() as int)]
        } else {
            seq![]
        }
    } else if s[pos] == '\n' {
        seq![strip_cr(s.subrange(start, pos))] + lines_from(s, pos + 1, pos + 1)
    } else {
        lines_from(s, start, pos + 1)
    }
}

/// The lines of `s`, as `str::lines`.
pub open spec fn lines(s: Seq<char>) -> Seq<Seq<char>> {
    lines_from(s, 0, 0)
}

/// The views of a sequence of character vectors.
pub open spec fn texts_view(v: Seq<Vec<char>>) -> Seq<Seq<char>> {
    v.map_values(|l: Vec<char>| l@)
}

/// The lines of `s`.
pub fn split_lines(s: &[char]) -> (res: Vec<Vec<char>>)
    ensures
        texts_view(res@) == lines(s@),
{
    let mut res: Vec<Vec<char>> = Vec::new();
    let mut start: usize = 0;
    let mut pos: usize = 0;
    while pos < s.len()
        invariant
            start <= pos <= s@.len(),
            texts_view(res@) + lines_from(s@, start as int, pos as int) == lines(s@),
        decreases s.len() - pos,
    {
        if s[pos] == '\n' {
            let mut line = slice_chars(s, start, pos);
            if line.len() > 0 && line[line.len() - 1] == '\r' {
                line.pop();
            }
            assert(line@ == strip_cr(s@.subrange(start as int, pos as int)));
            let ghost before = texts_view(res@);
            res.push(line);
            assert(texts_view(res@) =~= before.push(line@));
            assert(texts_view(res@) + lines_from(s@, pos + 1, pos + 1) =~= before + lines_from(
                s@,
                start as int,
                pos as int,
            ));
            start = pos + 1;
        }
        pos = pos + 1;
    }
    if start < s.len() {
        let line = slice_chars(s, start, s.len());
        let ghost before = texts_view(res@);
        res.push(line);
        assert(texts_view(res@) =~= before.push(line@));
    }
    assert(texts_view(res@) =~= lines(s@));
    res
}

/// `ls` joined with `\n` between consecutive lines.
pub open spec fn join_lines(ls: Seq<Seq<char>>) -> Seq<char>
    decreases ls.len(),
{
    if ls.len() == 0 {
        seq![]
    } else if ls.len() == 1 {
        ls[0]
    } else {
        join_lines(ls.drop_last()) + seq!['\n'] + ls.last()
    }
}

/// The lines joined with `\n`.
pub fn join_with_newlines(ls: &Vec<Vec<char>>) -> (res: Vec<char>)
    ensures
        res@ == join_lines(texts_view(ls@)),
{
    let mut res: Vec<char> = Vec::new();
    let mut i: usize = 0;
    while i < ls.len()
        invariant
            i <= ls@.len(),
            res@ == join_lines(texts_view(ls@).take(i as int)),
        decreases ls.len() - i,
    {
        let ghost prefix = texts_view(ls@).take(i as int);
        assert(texts_view(ls@).take(i + 1).drop_last() =~= prefix);
        if i > 0 {
            res.push('\n');
        }
        let line = &ls[i];
        let mut k: usize = 0;
        let ghost base = res@;
        while k < line.len()
            invariant
                k <= line@.len(),
                res@ == base + line@.take(k as int),
            decreases line.len() - k,
        {
            res.push(line[k]);
            k = k + 1;
            assert(res@ =~= base + line@.take(k as int));
        }
        assert(line@.take(k as int) =~= line@);
        assert(texts_view(ls@).take(i + 1).last() == line@);
        if i == 0 {
            assert(res@ =~= join_lines(texts_view(ls@).take(i + 1)));
        }
        i = i + 1;
    }
    assert(texts_view(ls@).take(i as int) =~= texts_view(ls@));
    res
}

/// Whether `s` begins with `p`.
pub open spec fn starts_with(s: Seq<char>, p: Seq<char>) -> bool {
    p.len() <= s.len() && s.subrange(0, p.len() as int) == p
}

pub fn chars_start_with(s: &[char], p: &[char]) -> (res: bool)
    ensures
        res == starts_with(s@, p@),
{
    if p.len() > s.len() {
        return false;
    }
    let mut i: usize = 0;
    while i < p.len()
        invariant
            p@.len() <= s@.len(),
            i <= p@.len(),
            forall|k: int| 0 <= k < i ==> s@[k] == p@[k],
        decreases p.len() - i,
    {
        if s[i] != p[i] {
            assert(s@.subrange(0, p@.len() as int)[i as int] != p@[i as int]);
            return false;
        }
        i = i + 1;
    }
    assert(s@.subrange(0, p@.len() as int) =~= p@);
    true
}

/// First index at or after `i` where `s` holds `c`.
pub open spec fn find_char_from(s: Seq<char>, c: char, i: int) -> Option<int>
    decreases s.len() - i,
{
    if i < 0 || i >= s.len() {
        None
    } else if s[i] == c {
        Some(i)
    } else {
        find_char_from(s, c, i + 1)
    }
}

/// First index where `s` holds `c`, as `str::find` with a char pattern.
pub open spec fn find_char(s: Seq<char>, c: char) -> Option<int> {
    find_char_from(s, c, 0)
}

pub proof fn lemma_find_char_from(s: Seq<char>, c: char, i: int)
    requires
        0 <= i,
    ensures
        find_char_from(s, c, i) matches Some(k) ==> i <= k < s.len() && s[k] == c && forall|
            j: int,
        |
            i <= j < k ==> s[j] != c,
        find_char_from(s, c, i) is None ==> forall|j: int| i <= j < s.len() ==> s[j] != c,
    decreases s.len() - i,
{
    if i < s.len() && s[i] != c {
        lemma_find_char_from(s, c, i + 1);
    }
}

pub fn find_char_in(s: &[char], c: char) -> (res: Option<usize>)
    ensures
        res matches Some(k) ==> find_char(s@, c) == Some(k as int),
        res is None ==> find_char(s@, c) is None,
{
    let mut i: usize = 0;
    while i < s.len()
        invariant
            i <= s@.len(),
            find_char(s@, c) == find_char_from(s@, c, i as int),
        decreases s.len() - i,
    {
        if s[i] == c {
            return Some(i);
        }
        i = i + 1;
    }
    None
}

/// First index at or after `i` where `s` holds whitespace.
pub open spec fn find_space_from(s: Seq<char>, i: int) -> Option<int>
    decreases s.len() - i,
{
    if i < 0 || i >= s.len() {
        None
    } else if is_space(s[i]) {
        Some(i)
    } else {
        find_space_from(s, i + 1)
    }
}

/// First index of a whitespace character, as `str::find(char::is_whitespace)`.
pub open spec fn find_space(s: Seq<char>) -> Option<int> {
    find_space_from(s, 0)
}

pub proof fn lemma_find_space_from(s: Seq<char>, i: int)
    requires
        0 <= i,
    ensures
        find_space_from(s, i) matches Some(k) ==> i <= k < s.len() && is_space(s[k]),
    decreases s.len() - i,
{
    if i < s.len() && !is_space(s[i]) {
        lemma_find_space_from(s, i + 1);
    }
}

pub fn find_space_in(s: &[char]) -> (res: Option<usize>)
    ensures
        res matches Some(k) ==> find_space(s@) == Some(k as int),
        res is None ==> find_space(s@) is None,
{
    let mut i: usize = 0;
    while i < s.len()
        invariant
            i <= s@.len(),
            find_space(s@) == find_space_from(s@, i as int),
        decreases s.len() - i,
    {
        if char_is_space(s[i]) {
            return Some(i);
        }
        i = i + 1;
    }
    None
}

/// The decimal digit `d` as a character.
pub open spec fn digit_char(d: nat) -> char {
    ((d + 48) as u32) as char
}

/// Decimal notation of `n`, without leading zeros.
pub open spec fn decimal(n: nat) -> Seq<char>
    decreases n,
{
    if n < 10 {
        seq![digit_char(n)]
    } else {
        decimal(n / 10).push(digit_char(n % 10))
    }
}

pub fn decimal_chars(n: u64) -> (res: Vec<char>)
    ensures
        res@ == decimal(n as nat),
    decreases n,
{
    let d = (n % 10) as u8;
    let c = (d + 48) as char;
    assert(c == digit_char((n % 10) as nat));
    if n < 10 {
        vec![c]
    } else {
        let mut v = decimal_chars(n / 10);
        v.push(c);
        v
    }
}

/// A `String` holding exactly the given characters.
#[verifier::external_body]
pub(crate) fn string_from_chars(chars: &[char]) -> (res: String)
    ensures
        res@ == chars@,
{
    chars.iter().collect()
}

/// Whether `c` is an ASCII letter or digit.
pub open spec fn is_ascii_alnum(c: char) -> bool {
    ('0' <= c && c <= '9') || ('a' <= c && c <= 'z') || ('A' <= c && c <= 'Z')
}

/// Whether `c` is an ASCII hexadecimal digit.
pub open spec fn is_ascii_hex(c: char) -> bool {
    ('0' <= c && c <= '9') || ('a' <= c && c <= 'f') || ('A' <= c && c <= 'F')
}

/// `c` with ASCII upper-case letters mapped to lower case.
pub open spec fn ascii_lower(c: char) -> char {
    if 'A' <= c && c <= 'Z' {
        ((c as u32) + 32) as char
    } else {
        c
    }
}

/// `c` with ASCII lower-case letters mapped to upper case.
pub open spec fn ascii_upper(c: char) -> char {
    if 'a' <= c && c <= 'z' {
        ((c as u32) - 32) as char
    } else {
        c
    }
}

/// Case-insensitive ASCII equality, as `str::eq_ignore_ascii_case`.
pub open spec fn eq_ignore_ascii_case(a: Seq<char>, b: Seq<char>) -> bool {
    a.len() == b.len() && forall|i: int| 0 <= i < a.len() ==> ascii_lower(a[i]) == ascii_lower(b[i])
}


pub fn char_ascii_lower(c: char) -> (res: char)
    ensures
        res == ascii_lower(c),
{
    if 'A' <= c && c <= 'Z' {
        ((c as u8) + 32) as char
    } else {
        c
    }
}

pub fn char_ascii_upper(c: char) -> (res: char)
    ensures
        res == ascii_upper(c),
{
    if 'a' <= c && c <= 'z' {
        ((c as u8) - 32) as char
    } else {
        c
    }
}

/// Case-insensitive ASCII comparison of two character slices.
pub fn chars_eq_ignore_ascii_case(a: &[char], b: &[char]) -> (res: bool)
    ensures
        res == eq_ignore_ascii_case(a@, b@),
{
    if a.len() != b.len() {
        return false;
    }
    let mut i: usize = 0;
    while i < a.len()
        invariant
            a@.len() == b@.len(),
            i <= a@.len(),
            forall|k: int| 0 <= k < i ==> ascii_lower(a@[k]) == ascii_lower(b@[k]),
        decreases a.len() - i,
    {
        if char_ascii_lower(a[i]) != char_ascii_lower(b[i]) {
            return false;
        }
        i = i + 1;
    }
    true
}


/// Whether `t` holds no newline.
pub open spec fn no_newline(t: Seq<char>) -> bool {
    forall|i: int| 0 <= i < t.len() ==> t[i] != '\n'
}

/// The number of newlines of `s` at or after `pos`.
pub open spec fn newlines_from(s: Seq<char>, pos: int) -> nat
    decreases s.len() - pos,
{
    if pos < 0 || pos >= s.len() {
        0
    } else if s[pos] == '\n' {
        newlines_from(s, pos + 1) + 1
    } else {
        newlines_from(s, pos + 1)
    }
}

proof fn lemma_lines_from_count(s: Seq<char>, start: int, pos: int)
    requires
        0 <= pos,
    ensures
        lines_from(s, start, pos).len() <= newlines_from(s, pos) + 1,
    decreases s.len() - pos,
{
    if pos < s.len() {
        if s[pos] == '\n' {
            lemma_lines_from_count(s, pos + 1, pos + 1);
        } else {
            lemma_lines_from_count(s, start, pos + 1);
        }
    }
}

proof fn lemma_lines_from_no_newline(s: Seq<char>, start: int, pos: int)
    requires
        0 <= start <= pos,
        forall|k: int| start <= k < pos && k < s.len() ==> s[k] != '\n',
    ensures
        forall|i: int|
            0 <= i < lines_from(s, start, pos).len() ==> no_newline(
                #[trigger] lines_from(s, start, pos)[i],
            ),
    decreases s.len() - pos,
{
    if pos < s.len() {
        if s[pos] == '\n' {
            lemma_lines_from_no_newline(s, pos + 1, pos + 1);
            let rest = lines_from(s, pos + 1, pos + 1);
            let first = strip_cr(s.subrange(start, pos));
            assert(no_newline(first)) by {
                assert forall|i: int| 0 <= i < first.len() implies first[i] != '\n' by {
                    assert(first[i] == s[start + i]);
                }
            }
            assert(lines_from(s, start, pos) == seq![first] + rest);
            assert forall|i: int|
                0 <= i < lines_from(s, start, pos).len() implies no_newline(
                #[trigger] lines_from(s, start, pos)[i],
            ) by {
                if i > 0 {
                    assert(lines_from(s, start, pos)[i] == rest[i - 1]);
                }
            }
        } else {
            lemma_lines_from_no_newline(s, start, pos + 1);
            assert(lines_from(s, start, pos) == lines_from(s, start, pos + 1));
        }
    } else if start < s.len() {
        let last = s.subrange(start, s.len() as int);
        assert(no_newline(last)) by {
            assert forall|i: int| 0 <= i < last.len() implies last[i] != '\n' by {
                assert(last[i] == s[start + i]);
            }
        }
        assert(lines_from(s, start, pos) == seq![last]);
        assert forall|i: int|
            0 <= i < lines_from(s, start, pos).len() implies no_newline(
            #[trigger] lines_from(s, start, pos)[i],
        ) by {
            assert(lines_from(s, start, pos)[i] == last);
        }
    }
}

/// Every line of a text is free of newlines.
pub proof fn lemma_lines_no_newline(s: Seq<char>)
    ensures
        forall|i: int| 0 <= i < lines(s).len() ==> no_newline(#[trigger] lines(s)[i]),
{
    lemma_lines_from_no_newline(s, 0, 0);
}

proof fn lemma_newlines_shift(a: Seq<char>, b: Seq<char>, j: int)
    requires
        0 <= j,
    ensures
        newlines_from(a + b, a.len() + j) == newlines_from(b, j),
    decreases b.len() - j,
{
    if j < b.len() {
        lemma_newlines_shift(a, b, j + 1);
        assert((a + b)[a.len() + j] == b[j]);
    }
}

proof fn lemma_newlines_concat(a: Seq<char>, b: Seq<char>, i: int)
    requires
        0 <= i <= a.len(),
    ensures
        newlines_from(a + b, i) == newlines_from(a, i) + newlines_from(b, 0),
    decreases a.len() - i,
{
    if i < a.len() {
        lemma_newlines_concat(a, b, i + 1);
        assert((a + b)[i] == a[i]);
    } else {
        lemma_newlines_shift(a, b, 0);
    }
}

proof fn lemma_no_newline_count(t: Seq<char>, i: int)
    requires
        0 <= i,
        no_newline(t),
    ensures
        newlines_from(t, i) == 0,
    decreases t.len() - i,
{
    if i < t.len() {
        lemma_no_newline_count(t, i + 1);
    }
}

proof fn lemma_join_newlines(ls: Seq<Seq<char>>)
    requires
        ls.len() > 0,
        forall|i: int| 0 <= i < ls.len() ==> no_newline(#[trigger] ls[i]),
    ensures
        newlines_from(join_lines(ls), 0) == ls.len() - 1,
    decreases ls.len(),
{
    if ls.len() == 1 {
        lemma_no_newline_count(ls[0], 0);
    } else {
        let init = ls.drop_last();
        assert forall|i: int| 0 <= i < init.len() implies no_newline(#[trigger] init[i]) by {
            assert(init[i] == ls[i]);
        }
        lemma_join_newlines(init);
        let j = join_lines(init);
        lemma_newlines_concat(j + seq!['\n'], ls.last(), 0);
        lemma_newlines_concat(j, seq!['\n'], 0);
        lemma_no_newline_count(ls.last(), 0);
        assert(newlines_from(seq!['\n'], 0) == 1) by {
            assert(newlines_from(seq!['\n'], 1) == 0);
        }
    }
}

/// Joining newline-free lines and splitting again gives at most as many lines.
pub proof fn lemma_lines_of_join(ls: Seq<Seq<char>>)
    requires
        forall|i: int| 0 <= i < ls.len() ==> no_newline(#[trigger] ls[i]),
    ensures
        lines(join_lines(ls)).len() <= ls.len(),
{
    if ls.len() == 0 {
        assert(lines(join_lines(ls)) =~= seq![]);
    } else {
        lemma_join_newlines(ls);
        lemma_lines_from_count(join_lines(ls), 0, 0);
    }
}


proof fn lemma_lines_from_shift(p: Seq<char>, q: Seq<char>, start: int, pos: int)
    requires
        0 <= start <= pos,
    ensures
        lines_from(p + q, p.len() + start, p.len() + pos) == lines_from(q, start, pos),
    decreases q.len() - pos,
{
    let s = p + q;
    if pos < q.len() {
        assert(s[p.len() + pos] == q[pos]);
        if q[pos] == '\n' {
            lemma_lines_from_shift(p, q, pos + 1, pos + 1);
            assert(s.subrange(p.len() + start, p.len() + pos) =~= q.subrange(start, pos));
        } else {
            lemma_lines_from_shift(p, q, start, pos + 1);
        }
    } else if start < q.len() {
        assert(s.subrange(p.len() + start, s.len() as int) =~= q.subrange(start, q.len() as int));
    }
}

proof fn lemma_lines_from_concat(p: Seq<char>, q: Seq<char>, start: int, pos: int)
    requires
        p.len() > 0,
        p.last() == '\n',
        0 <= start <= pos < p.len(),
    ensures
        lines_from(p + q, start, pos) == lines_from(p, start, pos) + lines(q),
    decreases p.len() - pos,
{
    let s = p + q;
    assert(s[pos] == p[pos]);
    if p[pos] == '\n' {
        assert(s.subrange(start, pos) =~= p.subrange(start, pos));
        if pos + 1 < p.len() {
            lemma_lines_from_concat(p, q, pos + 1, pos + 1);
        } else {
            lemma_lines_from_shift(p, q, 0, 0);
            assert(lines_from(p, pos + 1, pos + 1) =~= seq![]);
        }
        assert(seq![strip_cr(p.subrange(start, pos))] + (lines_from(p, pos + 1, pos + 1) + lines(q))
            =~= (seq![strip_cr(p.subrange(start, pos))] + lines_from(p, pos + 1, pos + 1)) + lines(q));
    } else {
        lemma_lines_from_concat(p, q, start, pos + 1);
    }
}

/// The lines of a text that ends with a newline, followed by another text,
/// are the lines of the first followed by those of the second.
pub proof fn lemma_lines_concat(p: Seq<char>, q: Seq<char>)
    requires
        p.len() > 0,
        p.last() == '\n',
    ensures
        lines(p + q) == lines(p) + lines(q),
{
    lemma_lines_from_concat(p, q, 0, 0);
}

proof fn lemma_lines_from_newline_end(x: Seq<char>, start: int, pos: int)
    requires
        x.len() > 0,
        x.last() != '\n',
        x.last() != '\r',
        0 <= start <= pos <= x.len(),
        start < x.len(),
    ensures
        lines_from(x + seq!['\n'], start, pos) == lines_from(x, start, pos),
    decreases x.len() - pos,
{
    let s = x + seq!['\n'];
    if pos < x.len() {
        assert(s[pos] == x[pos]);
        if x[pos] == '\n' {
            assert(s.subrange(start, pos) =~= x.subrange(start, pos));
            lemma_lines_from_newline_end(x, pos + 1, pos + 1);
        } else {
            lemma_lines_from_newline_end(x, start, pos + 1);
        }
    } else {
        assert(s[pos] == '\n');
        assert(s.subrange(start, pos) =~= x.subrange(start, x.len() as int));
        assert(lines_from(s, pos + 1, pos + 1) =~= seq![]);
        assert(strip_cr(x.subrange(start, x.len() as int)) == x.subrange(start, x.len() as int));
        assert(seq![x.subrange(start, x.len() as int)] + seq![] =~= seq![
            x.subrange(start, x.len() as int),
        ]);
    }
}

/// A final newline after a last line that ends in neither a newline nor a
/// carriage return adds no line.
pub proof fn lemma_lines_newline_end(x: Seq<char>)
    requires
        x.len() > 0,
        x.last() != '\n',
        x.last() != '\r',
    ensures
        lines(x + seq!['\n']) == lines(x),
{
    lemma_lines_from_newline_end(x, 0, 0);
}


/// Every character of a decimal numeral is a digit, and numbers from ten on
/// take at least two of them.
pub proof fn lemma_decimal_digits(n: nat)
    ensures
        decimal(n).len() >= 1,
        n >= 10 ==> decimal(n).len() >= 2,
        forall|i: int| 0 <= i < decimal(n).len() ==> '0' <= #[trigger] decimal(n)[i] <= '9',
    decreases n,
{
    if n >= 10 {
        lemma_decimal_digits(n / 10);
        let d = decimal(n / 10);
        assert forall|i: int| 0 <= i < decimal(n).len() implies '0' <= #[trigger] decimal(n)[i]
            <= '9' by {
            if i < d.len() {
                assert(decimal(n)[i] == d[i]);
            }
        }
    }
}

proof fn lemma_digit_char_injective(a: nat, b: nat)
    requires
        a < 10,
        b < 10,
        digit_char(a) == digit_char(b),
    ensures
        a == b,
{
    assert(digit_char(a) as u32 == a + 48);
    assert(digit_char(b) as u32 == b + 48);
}

/// Different numbers have different numerals.
pub proof fn lemma_decimal_injective(a: nat, b: nat)
    requires
        decimal(a) == decimal(b),
    ensures
        a == b,
    decreases a,
{
    lemma_decimal_digits(a);
    lemma_decimal_digits(b);
    if a >= 10 && b >= 10 {
        let da = decimal(a / 10);
        let db = decimal(b / 10);
        assert(decimal(a).drop_last() =~= da);
        assert(decimal(b).drop_last() =~= db);
        lemma_decimal_injective(a / 10, b / 10);
        assert(decimal(a).last() == digit_char(a % 10));
        assert(decimal(b).last() == digit_char(b % 10));
        lemma_digit_char_injective(a % 10, b % 10);
    } else if a < 10 && b < 10 {
        assert(decimal(a)[0] == digit_char(a));
        assert(decimal(b)[0] == digit_char(b));
        lemma_digit_char_injective(a, b);
    }
}

} // verus!
