//! Character-level text helpers with exact specifications.
//!
//! Strings are handled as sequences of `char`s (`String::view`). The helpers
//! here mirror the `str` operations the rest of the library relies on
//! (`trim`, `lines`, `split`, `contains`, `starts_with`, `parse::<u64>`) and
//! state each of them as a spec function over `Seq<char>`.

use vstd::prelude::*;

verus! {

// ---------------------------------------------------------------------------
// Conversions between `str`/`String` and character vectors
// ---------------------------------------------------------------------------

/// The characters of a string slice, in order.
pub fn chars_of(s: &str) -> (v: Vec<char>)
    ensures
        v@ == s@,
{
    let mut v: Vec<char> = Vec::new();
    for c in it: s.chars()
        invariant
            v@ == it.seq().take(it.index() as int),
    {
        v.push(c);
    }
    v
}

/// Appends one character to a string.
///
/// Trusted: calls `String::push`, which its documentation describes as
/// appending the given `char` to the end of the string.
#[verifier::external_body]
fn push_char(s: &mut String, c: char)
    ensures
        final(s)@ == old(s)@.push(c),
{
    s.push(c);
}

/// A string holding exactly the given characters.
pub fn string_of(v: &[char]) -> (s: String)
    ensures
        s@ == v@,
{
    let mut s = String::new();
    for i in 0..v.len()
        invariant
            s@ == v@.take(i as int),
    {
        push_char(&mut s, v[i]);
        assert(v@.take(i + 1) == v@.take(i as int).push(v@[i as int]));
    }
    assert(v@.take(v@.len() as int) == v@);
    s
}

/// A copy of the characters `v[from..to]`.
pub fn copy_range(v: &[char], from: usize, to: usize) -> (r: Vec<char>)
    requires
        from <= to <= v@.len(),
    ensures
        r@ == v@.subrange(from as int, to as int),
{
    let mut r: Vec<char> = Vec::new();
    let mut k = from;
    while k < to
        invariant
            from <= k <= to <= v@.len(),
            r@ == v@.subrange(from as int, k as int),
        decreases to - k,
    {
        r.push(v[k]);
        assert(v@.subrange(from as int, k + 1) == v@.subrange(from as int, k as int).push(
            v@[k as int],
        ));
        k = k + 1;
    }
    r
}

/// The characters of an optional string.
pub open spec fn opt_string_view(o: Option<String>) -> Option<Seq<char>> {
    match o {
        Some(s) => Some(s@),
        None => None,
    }
}

/// The characters of an optional string slice.
pub open spec fn opt_str_view(o: Option<&str>) -> Option<Seq<char>> {
    match o {
        Some(s) => Some(s@),
        None => None,
    }
}

// ---------------------------------------------------------------------------
// Unicode properties
// ---------------------------------------------------------------------------

/// Whether a character has the Unicode `White_Space` property (as
/// `char::is_whitespace`): U+0009–U+000D, U+0020, U+0085, U+00A0, U+1680,
/// U+2000–U+200A, U+2028, U+2029, U+202F, U+205F and U+3000.
pub open spec fn is_white_space(c: char) -> bool {
    ||| '\u{9}' <= c && c <= '\u{d}'
    ||| c == ' '
    ||| c == '\u{85}'
    ||| c == '\u{a0}'
    ||| c == '\u{1680}'
    ||| '\u{2000}' <= c && c <= '\u{200a}'
    ||| c == '\u{2028}'
    ||| c == '\u{2029}'
    ||| c == '\u{202f}'
    ||| c == '\u{205f}'
    ||| c == '\u{3000}'
}

/// The Unicode lowercase mapping of a whole string.
pub uninterp spec fn unicode_lowercase(s: Seq<char>) -> Seq<char>;

/// Whether a character is white space.
pub fn char_is_whitespace(c: char) -> (r: bool)
    ensures
        r == is_white_space(c),
{
    ('\u{9}' <= c && c <= '\u{d}') || c == ' ' || c == '\u{85}' || c == '\u{a0}' || c
        == '\u{1680}' || ('\u{2000}' <= c && c <= '\u{200a}') || c == '\u{2028}' || c
        == '\u{2029}' || c == '\u{202f}' || c == '\u{205f}' || c == '\u{3000}'
}

/// Trusted: calls `str::to_lowercase`, documented as returning the lowercase
/// equivalent of the slice as a new `String`. The mapping is a function of the
/// characters alone; its table is not restated here.
#[verifier::external_body]
pub(crate) fn to_lowercase(s: &str) -> (r: String)
    ensures
        r@ == unicode_lowercase(s@),
{
    s.to_lowercase()
}

// ---------------------------------------------------------------------------
// Trimming
// ---------------------------------------------------------------------------

/// `s` without its leading white space.
pub open spec fn trim_start_spec(s: Seq<char>) -> Seq<char>
    decreases s.len(),
{
    if s.len() > 0 && is_white_space(s[0]) {
        trim_start_spec(s.drop_first())
    } else {
        s
    }
}

/// `s` without its trailing white space.
pub open spec fn trim_end_spec(s: Seq<char>) -> Seq<char>
    decreases s.len(),
{
    if s.len() > 0 && is_white_space(s.last()) {
        trim_end_spec(s.drop_last())
    } else {
        s
    }
}

/// `s` without leading and trailing white space (as `str::trim`).
pub open spec fn trimmed(s: Seq<char>) -> Seq<char> {
    trim_end_spec(trim_start_spec(s))
}

/// The characters of `v` without leading and trailing white space.
pub fn trim(v: &[char]) -> (r: Vec<char>)
    ensures
        r@ == trimmed(v@),
{
    let mut i: usize = 0;
    assert(v@.skip(0) == v@);
    while i < v.len() && char_is_whitespace(v[i])
        invariant
            i <= v@.len(),
            trim_start_spec(v@) == trim_start_spec(v@.skip(i as int)),
        decreases v@.len() - i,
    {
        assert(v@.skip(i as int).drop_first() == v@.skip(i + 1));
        i = i + 1;
    }
    assert(trim_start_spec(v@) == v@.subrange(i as int, v@.len() as int));
    let mut j: usize = v.len();
    while j > i && char_is_whitespace(v[j - 1])
        invariant
            i <= j <= v@.len(),
            trimmed(v@) == trim_end_spec(v@.subrange(i as int, j as int)),
        decreases j,
    {
        assert(v@.subrange(i as int, j as int).drop_last() == v@.subrange(i as int, j - 1));
        j = j - 1;
    }
    copy_range(v, i, j)
}

// ---------------------------------------------------------------------------
// Searching
// ---------------------------------------------------------------------------

/// `needle` occurs in `hay` starting at index `i`.
pub open spec fn occurs_at(hay: Seq<char>, needle: Seq<char>, i: int) -> bool {
    0 <= i && i + needle.len() <= hay.len() && hay.subrange(i, i + needle.len()) == needle
}

/// `needle` occurs somewhere in `hay` (as `str::contains`).
pub open spec fn has_substring(hay: Seq<char>, needle: Seq<char>) -> bool {
    exists|i: int| occurs_at(hay, needle, i)
}

/// `hay` begins with `needle` (as `str::starts_with`).
pub open spec fn has_prefix(hay: Seq<char>, needle: Seq<char>) -> bool {
    occurs_at(hay, needle, 0)
}

/// Whether `needle` occurs in `hay` at index `i`.
pub fn matches_at(hay: &[char], needle: &[char], i: usize) -> (r: bool)
    ensures
        r == occurs_at(hay@, needle@, i as int),
{
    if i > hay.len() || needle.len() > hay.len() - i {
        return false;
    }
    let mut k: usize = 0;
    while k < needle.len()
        invariant
            i + needle@.len() <= hay@.len(),
            hay@.len() == hay.len(),
            needle@.len() == needle.len(),
            k <= needle@.len(),
            forall|m: int| 0 <= m < k ==> hay@[i + m] == needle@[m],
        decreases needle@.len() - k,
    {
        if hay[i + k] != needle[k] {
            assert(hay@.subrange(i as int, i + needle@.len())[k as int] != needle@[k as int]);
            return false;
        }
        k = k + 1;
    }
    assert(hay@.subrange(i as int, i + needle@.len()) == needle@);
    true
}

/// Whether `hay` begins with `needle`.
pub fn starts_with(hay: &[char], needle: &[char]) -> (r: bool)
    ensures
        r == has_prefix(hay@, needle@),
{
    matches_at(hay, needle, 0)
}

/// Whether `needle` occurs anywhere in `hay`.
pub fn contains(hay: &[char], needle: &[char]) -> (r: bool)
    ensures
        r == has_substring(hay@, needle@),
{
    if needle.len() > hay.len() {
        return false;
    }
    if needle.len() == 0 {
        assert(hay@.subrange(0, 0) == needle@);
        assert(occurs_at(hay@, needle@, 0));
        return true;
    }
    let last = hay.len() - needle.len();
    let mut i: usize = 0;
    while i <= last
        invariant
            last == hay@.len() - needle@.len(),
            last < hay@.len(),
            hay@.len() == hay.len(),
            i <= last + 1,
            forall|m: int| 0 <= m < i ==> !occurs_at(hay@, needle@, m),
        decreases last + 1 - i,
    {
        if matches_at(hay, needle, i) {
            return true;
        }
        i = i + 1;
    }
    false
}

// ---------------------------------------------------------------------------
// ASCII case folding
// ---------------------------------------------------------------------------

/// The ASCII lowercase form of one character (others unchanged).
pub open spec fn ascii_lower_char(c: char) -> char {
    if 'A' <= c && c <= 'Z' {
        ((c as u32) + 32) as char
    } else {
        c
    }
}

/// The ASCII lowercase form of a string (as `str::to_ascii_lowercase`).
pub open spec fn ascii_lowercase(s: Seq<char>) -> Seq<char> {
    s.map_values(|c: char| ascii_lower_char(c))
}

/// ASCII-lowercases every character of `v`.
pub fn to_ascii_lowercase(v: &[char]) -> (r: Vec<char>)
    ensures
        r@ == ascii_lowercase(v@),
{
    let mut r: Vec<char> = Vec::new();
    for i in 0..v.len()
        invariant
            r@ == ascii_lowercase(v@.take(i as int)),
    {
        let c = v[i];
        let d = if 'A' <= c && c <= 'Z' {
            ((c as u8) + 32) as char
        } else {
            c
        };
        r.push(d);
        assert(ascii_lowercase(v@.take(i + 1)) == ascii_lowercase(v@.take(i as int)).push(
            ascii_lower_char(c),
        ));
    }
    assert(v@.take(v@.len() as int) == v@);
    r
}

// ---------------------------------------------------------------------------
// Splitting into segments
// ---------------------------------------------------------------------------

/// The length of the longest prefix of `s` holding no character that `stop` accepts.
pub open spec fn segment_len(s: Seq<char>, stop: spec_fn(char) -> bool) -> nat
    decreases s.len(),
{
    if s.len() == 0 || stop(s[0]) {
        0
    } else {
        1 + segment_len(s.drop_first(), stop)
    }
}

/// `segment_len` is the index of the first stop character (or the length).
pub proof fn lemma_segment_len(s: Seq<char>, stop: spec_fn(char) -> bool, m: int)
    requires
        0 <= m <= s.len(),
        forall|k: int| 0 <= k < m ==> !stop(#[trigger] s[k]),
        m == s.len() || stop(s[m]),
    ensures
        segment_len(s, stop) == m,
    decreases s.len(),
{
    if s.len() > 0 && m > 0 {
        assert forall|k: int| 0 <= k < m - 1 implies !stop(#[trigger] s.drop_first()[k]) by {
            assert(s.drop_first()[k] == s[k + 1]);
        }
        lemma_segment_len(s.drop_first(), stop, m - 1);
    }
}

/// `segment_len` never exceeds the length.
pub proof fn lemma_segment_len_bound(s: Seq<char>, stop: spec_fn(char) -> bool)
    ensures
        segment_len(s, stop) <= s.len(),
        segment_len(s, stop) < s.len() ==> stop(s[segment_len(s, stop) as int]),
    decreases s.len(),
{
    if s.len() > 0 && !stop(s[0]) {
        lemma_segment_len_bound(s.drop_first(), stop);
    }
}

/// The character sequences held by a list of character vectors.
pub open spec fn views(v: Seq<Vec<char>>) -> Seq<Seq<char>> {
    v.map_values(|x: Vec<char>| x@)
}

/// The line-feed character.
pub open spec fn is_line_feed(c: char) -> bool {
    c == '\n'
}

/// A line without its carriage return, when it ended with `\r\n`.
pub open spec fn strip_cr(line: Seq<char>) -> Seq<char> {
    if line.len() > 0 && line.last() == '\r' {
        line.drop_last()
    } else {
        line
    }
}

/// The lines of `s` (as `str::lines`): split at `\n`, dropping a `\r` that
/// precedes the `\n`; a final line ending is optional and yields no empty line.
pub open spec fn lines_spec(s: Seq<char>) -> Seq<Seq<char>>
    decreases s.len(),
{
    let n = segment_len(s, |c: char| is_line_feed(c));
    if s.len() == 0 {
        Seq::empty()
    } else if n >= s.len() {
        seq![s]
    } else {
        seq![strip_cr(s.take(n as int))] + lines_spec(s.skip(n as int + 1))
    }
}

/// The lines of `text` (as `str::lines`).
pub fn lines(text: &[char]) -> (r: Vec<Vec<char>>)
    ensures
        views(r@) == lines_spec(text@),
{
    let ghost lf = |c: char| is_line_feed(c);
    let mut out: Vec<Vec<char>> = Vec::new();
    let mut start: usize = 0;
    let mut i: usize = 0;
    assert(text@.skip(0) == text@);
    while i < text.len()
        invariant
            start <= i <= text@.len(),
            lf == (|c: char| is_line_feed(c)),
            forall|k: int| start <= k < i ==> text@[k] != '\n',
            lines_spec(text@) == views(out@) + lines_spec(text@.skip(start as int)),
        decreases text@.len() - i,
    {
        if text[i] == '\n' {
            let ghost rest = text@.skip(start as int);
            proof {
                assert forall|k: int| 0 <= k < i - start implies !lf(#[trigger] rest[k]) by {
                    assert(rest[k] == text@[start + k]);
                }
                lemma_segment_len(rest, lf, i - start);
                assert(rest.take(i - start) == text@.subrange(start as int, i as int));
                assert(rest.skip(i - start + 1) == text@.skip(i + 1));
            }
            let line = copy_range(text, start, i);
            let line = if line.len() > 0 && line[line.len() - 1] == '\r' {
                copy_range(&line, 0, line.len() - 1)
            } else {
                line
            };
            proof {
                if line@.len() > 0 {
                    assert(line@ == strip_cr(text@.subrange(start as int, i as int)));
                }
            }
            let ghost before = views(out@);
            out.push(line);
            assert(views(out@) == before.push(strip_cr(text@.subrange(start as int, i as int))));
            assert(lines_spec(rest) == seq![strip_cr(rest.take(i - start))] + lines_spec(text@.skip(i + 1)));
            start = i + 1;
        }
        i = i + 1;
    }
    if start < text.len() {
        let ghost rest = text@.skip(start as int);
        proof {
            assert forall|k: int| 0 <= k < rest.len() implies !lf(#[trigger] rest[k]) by {
                assert(rest[k] == text@[start + k]);
            }
            lemma_segment_len(rest, lf, rest.len() as int);
        }
        let line = copy_range(text, start, text.len());
        let ghost before = views(out@);
        out.push(line);
        assert(views(out@) == before.push(rest));
    } else {
        assert(text@.skip(start as int).len() == 0);
    }
    out
}

/// A version separator: `.`, `-` or `+`.
pub open spec fn is_version_separator(c: char) -> bool {
    c == '.' || c == '-' || c == '+'
}

/// The pieces of `s` between version separators (as `str::split(['.', '-', '+'])`);
/// every separator yields a boundary, so empty pieces are kept.
pub open spec fn version_parts_spec(s: Seq<char>) -> Seq<Seq<char>>
    decreases s.len(),
{
    let n = segment_len(s, |c: char| is_version_separator(c));
    if n >= s.len() {
        seq![s]
    } else {
        seq![s.take(n as int)] + version_parts_spec(s.skip(n as int + 1))
    }
}

/// The pieces of `text` between version separators.
pub fn version_parts(text: &[char]) -> (r: Vec<Vec<char>>)
    ensures
        views(r@) == version_parts_spec(text@),
{
    let ghost sep = |c: char| is_version_separator(c);
    let mut out: Vec<Vec<char>> = Vec::new();
    let mut start: usize = 0;
    let mut i: usize = 0;
    assert(text@.skip(0) == text@);
    while i < text.len()
        invariant
            start <= i <= text@.len(),
            sep == (|c: char| is_version_separator(c)),
            forall|k: int| start <= k < i ==> !is_version_separator(#[trigger] text@[k]),
            version_parts_spec(text@) == views(out@) + version_parts_spec(
                text@.skip(start as int),
            ),
        decreases text@.len() - i,
    {
        let c = text[i];
        if c == '.' || c == '-' || c == '+' {
            let ghost rest = text@.skip(start as int);
            proof {
                assert forall|k: int| 0 <= k < i - start implies !sep(#[trigger] rest[k]) by {
                    assert(rest[k] == text@[start + k]);
                }
                assert(rest[i - start] == c);
                lemma_segment_len(rest, sep, i - start);
                assert(rest.take(i - start) == text@.subrange(start as int, i as int));
                assert(rest.skip(i - start + 1) == text@.skip(i + 1));
            }
            let piece = copy_range(text, start, i);
            let ghost before = views(out@);
            out.push(piece);
            assert(views(out@) == before.push(text@.subrange(start as int, i as int)));
            start = i + 1;
        }
        i = i + 1;
    }
    let ghost rest = text@.skip(start as int);
    proof {
        assert forall|k: int| 0 <= k < rest.len() implies !sep(#[trigger] rest[k]) by {
            assert(rest[k] == text@[start + k]);
        }
        lemma_segment_len(rest, sep, rest.len() as int);
    }
    let piece = copy_range(text, start, text.len());
    let ghost before = views(out@);
    out.push(piece);
    assert(views(out@) == before.push(rest));
    out
}

// ---------------------------------------------------------------------------
// Unsigned integer parsing
// ---------------------------------------------------------------------------

/// An ASCII decimal digit.
pub open spec fn is_digit(c: char) -> bool {
    '0' <= c && c <= '9'
}

/// The numeric value of a decimal digit.
pub open spec fn digit_value(c: char) -> nat {
    (c as int - '0' as int) as nat
}

/// The value of a string of decimal digits (most significant first).
pub open spec fn digits_value(s: Seq<char>) -> nat
    decreases s.len(),
{
    if s.len() == 0 {
        0
    } else {
        digits_value(s.drop_last()) * 10 + digit_value(s.last())
    }
}

/// `s` with one leading `+` removed, if present.
pub open spec fn unsigned_digits(s: Seq<char>) -> Seq<char> {
    if s.len() > 0 && s[0] == '+' {
        s.drop_first()
    } else {
        s
    }
}

/// The result of `str::parse::<u64>`: an optional `+`, then at least one
/// decimal digit and nothing else, with a value that fits in 64 bits.
pub open spec fn parse_u64_spec(s: Seq<char>) -> Option<u64> {
    let d = unsigned_digits(s);
    if d.len() > 0 && (forall|i: int| 0 <= i < d.len() ==> is_digit(#[trigger] d[i]))
        && digits_value(d) <= u64::MAX {
        Some(digits_value(d) as u64)
    } else {
        None
    }
}

/// A prefix of a digit string never has a larger value than the whole.
pub proof fn lemma_digits_value_prefix(s: Seq<char>, m: int)
    requires
        0 <= m <= s.len(),
    ensures
        digits_value(s.take(m)) <= digits_value(s),
    decreases s.len() - m,
{
    if m < s.len() {
        lemma_digits_value_prefix(s, m + 1);
        assert(s.take(m + 1).drop_last() == s.take(m));
    } else {
        assert(s.take(m) == s);
    }
}

/// Parses `text` as an unsigned 64-bit decimal number (as `str::parse::<u64>`).
pub fn parse_u64(text: &[char]) -> (r: Option<u64>)
    ensures
        r == parse_u64_spec(text@),
{
    let start: usize = if text.len() > 0 && text[0] == '+' {
        1
    } else {
        0
    };
    let ghost d = unsigned_digits(text@);
    assert(d == text@.skip(start as int));
    if start >= text.len() {
        return None;
    }
    let mut acc: u64 = 0;
    let mut k: usize = start;
    assert(d.take(0) == Seq::<char>::empty());
    while k < text.len()
        invariant
            start <= k <= text@.len(),
            start < text@.len(),
            d == text@.skip(start as int),
            d == unsigned_digits(text@),
            acc as nat == digits_value(d.take(k - start)),
            forall|i: int| 0 <= i < k - start ==> is_digit(#[trigger] d[i]),
        decreases text@.len() - k,
    {
        let c = text[k];
        assert(d[k - start] == c);
        if !('0' <= c && c <= '9') {
            assert(!is_digit(d[k - start]));
            return None;
        }
        let digit: u64 = ((c as u32) - ('0' as u32)) as u64;
        assert(d.take(k - start + 1).drop_last() == d.take(k - start));
        assert(d.take(k - start + 1).last() == c);
        assert(digit_value(c) == digit);
        assert(digits_value(d.take(k - start + 1)) == acc * 10 + digit);
        if acc > (u64::MAX - digit) / 10 {
            proof {
                assert(acc * 10 + digit > u64::MAX) by (nonlinear_arith)
                    requires
                        acc > (u64::MAX - digit) / 10,
                        digit <= 9,
                ;
                lemma_digits_value_prefix(d, k - start + 1);
            }
            return None;
        }
        assert(acc * 10 + digit <= u64::MAX) by (nonlinear_arith)
            requires
                acc <= (u64::MAX - digit) / 10,
                digit <= 9,
        ;
        acc = acc * 10 + digit;
        k = k + 1;
    }
    assert(d.take(k - start) == d);
    Some(acc)
}

} // verus!
