//! Characters and character sequences: white space, trimming, splitting and
//! reading of decimal numbers, and positions in UTF-8 text.

use vstd::prelude::*;
use vstd::string::StringSliceAdditionalSpecFns;
use vstd::utf8::{encode_scalar, encode_utf8};

verus! {

/// [`String::push`] appends one character.
pub assume_specification[ String::push ](s: &mut String, c: char)
    ensures
        final(s)@ == old(s)@.push(c),
;

/// [`String::pop`] removes the last character and returns it; of an empty
/// string it returns `None` and leaves it empty.
pub assume_specification[ String::pop ](s: &mut String) -> (r: Option<char>)
    ensures
        old(s)@.len() == 0 ==> r is None && final(s)@ == old(s)@,
        old(s)@.len() > 0 ==> r == Some(old(s)@.last()) && final(s)@ == old(s)@.drop_last(),
;

/// The characters with the Unicode property `White_Space`.
pub open spec fn white_space(c: char) -> bool {
    ||| '\u{9}' <= c <= '\u{d}'
    ||| c == '\u{20}'
    ||| c == '\u{85}'
    ||| c == '\u{a0}'
    ||| c == '\u{1680}'
    ||| '\u{2000}' <= c <= '\u{200a}'
    ||| c == '\u{2028}'
    ||| c == '\u{2029}'
    ||| c == '\u{202f}'
    ||| c == '\u{205f}'
    ||| c == '\u{3000}'
}

/// Whether `c` is white space.
pub fn is_whitespace(c: char) -> (r: bool)
    ensures
        r == white_space(c),
{
    ('\u{9}' <= c && c <= '\u{d}') || c == '\u{20}' || c == '\u{85}' || c == '\u{a0}' || c
        == '\u{1680}' || ('\u{2000}' <= c && c <= '\u{200a}') || c == '\u{2028}' || c == '\u{2029}'
        || c == '\u{202f}' || c == '\u{205f}' || c == '\u{3000}'
}

/// The characters of a string.
pub fn chars_of(s: &str) -> (r: Vec<char>)
    ensures
        r@ == s@,
{
    let mut r: Vec<char> = Vec::new();
    for c in it: s.chars()
        invariant
            it.seq() == s@,
            r@ == s@.take(it.index() as int),
    {
        r.push(c);
        assert(s@.take(it.index() + 1) =~= s@.take(it.index() as int).push(c));
    }
    assert(s@.take(s@.len() as int) =~= s@);
    r
}

/// The string of a list of characters.
pub fn string_of(chars: &Vec<char>) -> (r: String)
    ensures
        r@ == chars@,
{
    let mut r = String::new();
    let n = chars.len();
    let mut i: usize = 0;
    while i < n
        invariant
            n == chars.len(),
            i <= n,
            r@ == chars@.take(i as int),
        decreases n - i,
    {
        r.push(chars[i]);
        assert(chars@.take(i + 1) =~= chars@.take(i as int).push(chars[i as int]));
        i += 1;
    }
    assert(chars@.take(n as int) =~= chars@);
    r
}

/// The characters from `lo` up to `hi`.
pub fn slice_of(chars: &Vec<char>, lo: usize, hi: usize) -> (r: Vec<char>)
    requires
        lo <= hi <= chars.len(),
    ensures
        r@ == chars@.subrange(lo as int, hi as int),
{
    let mut r: Vec<char> = Vec::new();
    let mut i: usize = lo;
    while i < hi
        invariant
            lo <= i <= hi <= chars.len(),
            r@ == chars@.subrange(lo as int, i as int),
        decreases hi - i,
    {
        r.push(chars[i]);
        assert(chars@.subrange(lo as int, i + 1) =~= chars@.subrange(lo as int, i as int).push(
            chars[i as int],
        ));
        i += 1;
    }
    r
}

// ---------------------------------------------------------------------------
// Trimming and splitting
// ---------------------------------------------------------------------------

/// `s` without its leading white space.
pub open spec fn trimmed_start(s: Seq<char>) -> Seq<char>
    decreases s.len(),
{
    if s.len() > 0 && white_space(s[0]) {
        trimmed_start(s.drop_first())
    } else {
        s
    }
}

/// `s` without its trailing white space.
pub open spec fn trimmed_end(s: Seq<char>) -> Seq<char>
    decreases s.len(),
{
    if s.len() > 0 && white_space(s.last()) {
        trimmed_end(s.drop_last())
    } else {
        s
    }
}

/// `s` without leading and trailing white space.
pub open spec fn trimmed(s: Seq<char>) -> Seq<char> {
    trimmed_end(trimmed_start(s))
}

/// Remove leading and trailing white space.
pub fn trim(chars: &Vec<char>) -> (r: Vec<char>)
    ensures
        r@ == trimmed(chars@),
{
    let n = chars.len();
    let mut lo: usize = 0;
    assert(chars@.skip(0) =~= chars@);
    while lo < n && is_whitespace(chars[lo])
        invariant
            n == chars.len(),
            lo <= n,
            trimmed_start(chars@) == trimmed_start(chars@.skip(lo as int)),
        decreases n - lo,
    {
        assert(chars@.skip(lo as int).drop_first() =~= chars@.skip(lo + 1));
        lo += 1;
    }
    let ghost front = chars@.skip(lo as int);
    assert(trimmed_start(chars@) == front);
    let mut hi: usize = n;
    assert(front.take(hi - lo) =~= front);
    while hi > lo && is_whitespace(chars[hi - 1])
        invariant
            n == chars.len(),
            lo <= hi <= n,
            front == chars@.skip(lo as int),
            trimmed_end(front) == trimmed_end(front.take(hi - lo)),
        decreases hi,
    {
        assert(front.take(hi - lo).drop_last() =~= front.take(hi - 1 - lo));
        assert(front.take(hi - lo).last() == chars[hi - 1]);
        hi -= 1;
    }
    if hi > lo {
        assert(front.take(hi - lo).last() == chars[hi - 1]);
    }
    assert(chars@.subrange(lo as int, hi as int) =~= front.take(hi - lo));
    slice_of(chars, lo, hi)
}

/// The parts of `s` between the separators; a text without one is one part.
pub open spec fn parts_of(s: Seq<char>, sep: char) -> Seq<Seq<char>>
    decreases s.len(),
{
    if s.len() == 0 {
        seq![seq![]]
    } else {
        let front = parts_of(s.drop_last(), sep);
        if s.last() == sep {
            front.push(seq![])
        } else {
            front.drop_last().push(front.last().push(s.last()))
        }
    }
}

/// Parts put together again, with the separator between them.
pub open spec fn joined(parts: Seq<Seq<char>>, sep: char) -> Seq<char>
    decreases parts.len(),
{
    if parts.len() == 0 {
        seq![]
    } else if parts.len() == 1 {
        parts[0]
    } else {
        joined(parts.drop_last(), sep).push(sep) + parts.last()
    }
}

/// Splitting loses nothing: no part holds a separator, and joined by it they
/// give the text again.
pub proof fn split_then_join(s: Seq<char>, sep: char)
    ensures
        parts_of(s, sep).len() > 0,
        joined(parts_of(s, sep), sep) == s,
        forall|i: int|
            0 <= i < parts_of(s, sep).len() ==> !(#[trigger] parts_of(s, sep)[i]).contains(sep),
    decreases s.len(),
{
    let parts = parts_of(s, sep);
    if s.len() == 0 {
        assert(parts[0] =~= s);
    } else {
        split_then_join(s.drop_last(), sep);
        let front = parts_of(s.drop_last(), sep);
        if s.last() == sep {
            assert(parts.drop_last() =~= front);
            assert(joined(front, sep).push(sep) + seq![] =~= s);
        } else {
            assert(parts.drop_last() =~= front.drop_last());
            if front.len() == 1 {
                assert(parts[0] =~= s);
            } else {
                assert(joined(front, sep) == joined(front.drop_last(), sep).push(sep)
                    + front.last());
                assert(parts.last() == front.last().push(s.last()));
                assert(parts.drop_last() == front.drop_last());
                assert(parts.len() == front.len());
                assert(joined(parts, sep) == joined(parts.drop_last(), sep).push(sep)
                    + parts.last());
                assert(joined(parts, sep) =~= joined(front, sep).push(s.last()));
                assert(s.drop_last().push(s.last()) =~= s);
            }
            assert forall|i: int| 0 <= i < parts.len() implies !(#[trigger] parts[i]).contains(
                sep,
            ) by {
                if i == parts.len() - 1 {
                    assert(!front.last().contains(sep));
                    assert(parts[i] == front.last().push(s.last()));
                } else {
                    assert(parts[i] == front[i]);
                }
            }
        }
    }
}

/// The views of a list of character lists.
pub open spec fn part_views(parts: Seq<Vec<char>>) -> Seq<Seq<char>> {
    parts.map_values(|p: Vec<char>| p@)
}

/// Split at every separator.
pub fn split(chars: &Vec<char>, sep: char) -> (r: Vec<Vec<char>>)
    ensures
        part_views(r@) == parts_of(chars@, sep),
        r.len() > 0,
{
    let mut done: Vec<Vec<char>> = Vec::new();
    let mut current: Vec<char> = Vec::new();
    let n = chars.len();
    let mut i: usize = 0;
    assert(part_views(done@).push(current@) =~= parts_of(chars@.take(0), sep));
    while i < n
        invariant
            n == chars.len(),
            i <= n,
            part_views(done@).push(current@) == parts_of(chars@.take(i as int), sep),
        decreases n - i,
    {
        let ghost before = part_views(done@).push(current@);
        assert(chars@.take(i + 1).drop_last() =~= chars@.take(i as int));
        assert(before.drop_last() =~= part_views(done@));
        let c = chars[i];
        if c == sep {
            done.push(current);
            current = Vec::new();
            assert(part_views(done@) =~= before);
            assert(current@ =~= seq![]);
        } else {
            current.push(c);
        }
        i += 1;
    }
    assert(chars@.take(n as int) =~= chars@);
    let ghost before = part_views(done@).push(current@);
    done.push(current);
    assert(part_views(done@) =~= before);
    done
}

/// The text before and after the first `sep`, if it occurs.
pub open spec fn split_first(s: Seq<char>, sep: char) -> Option<(Seq<char>, Seq<char>)>
    decreases s.len(),
{
    if s.len() == 0 {
        None
    } else if s[0] == sep {
        Some((seq![], s.drop_first()))
    } else {
        match split_first(s.drop_first(), sep) {
            Some((a, b)) => Some((seq![s[0]] + a, b)),
            None => None,
        }
    }
}

proof fn lemma_split_first_at(s: Seq<char>, sep: char, i: int)
    requires
        0 <= i < s.len(),
        s[i] == sep,
        forall|k: int| 0 <= k < i ==> s[k] != sep,
    ensures
        split_first(s, sep) == Some((s.take(i), s.skip(i + 1))),
    decreases s.len(),
{
    if i > 0 {
        lemma_split_first_at(s.drop_first(), sep, i - 1);
        assert(seq![s[0]] + s.drop_first().take(i - 1) =~= s.take(i));
        assert(s.drop_first().skip(i) =~= s.skip(i + 1));
    } else {
        assert(s.take(0) =~= seq![]);
        assert(s.skip(1) =~= s.drop_first());
    }
}

proof fn lemma_split_first_none(s: Seq<char>, sep: char)
    requires
        forall|k: int| 0 <= k < s.len() ==> s[k] != sep,
    ensures
        split_first(s, sep) is None,
    decreases s.len(),
{
    if s.len() > 0 {
        lemma_split_first_none(s.drop_first(), sep);
    }
}

/// Split at the first separator.
pub fn split_once(chars: &Vec<char>, sep: char) -> (r: Option<(Vec<char>, Vec<char>)>)
    ensures
        r matches Some((a, b)) ==> split_first(chars@, sep) == Some((a@, b@)),
        r is None ==> split_first(chars@, sep) is None,
{
    let n = chars.len();
    let mut i: usize = 0;
    while i < n
        invariant
            n == chars.len(),
            i <= n,
            forall|k: int| 0 <= k < i ==> chars@[k] != sep,
        decreases n - i,
    {
        if chars[i] == sep {
            proof {
                lemma_split_first_at(chars@, sep, i as int);
            }
            let a = slice_of(chars, 0, i);
            let b = slice_of(chars, i + 1, n);
            assert(a@ =~= chars@.take(i as int));
            assert(b@ =~= chars@.skip(i + 1));
            return Some((a, b));
        }
        i += 1;
    }
    proof {
        lemma_split_first_none(chars@, sep);
    }
    None
}

// ---------------------------------------------------------------------------
// Decimal numbers
// ---------------------------------------------------------------------------

/// An ASCII digit.
pub open spec fn digit(c: char) -> bool {
    '0' <= c <= '9'
}

/// The value of a digit.
pub open spec fn digit_value(c: char) -> nat {
    (c as int - '0' as int) as nat
}

/// All characters are ASCII digits.
pub open spec fn all_digits(s: Seq<char>) -> bool {
    forall|i: int| 0 <= i < s.len() ==> digit(#[trigger] s[i])
}

/// The number that a sequence of digits writes.
pub open spec fn decimal_value(s: Seq<char>) -> nat
    decreases s.len(),
{
    if s.len() == 0 {
        0
    } else {
        decimal_value(s.drop_last()) * 10 + digit_value(s.last())
    }
}

/// The number that a text writes: at least one digit, after an optional plus
/// sign, and no more than a `usize` holds.
pub open spec fn number_of(s: Seq<char>) -> Option<nat> {
    let digits = if s.len() > 0 && s[0] == '+' {
        s.drop_first()
    } else {
        s
    };
    if digits.len() > 0 && all_digits(digits) && decimal_value(digits) <= usize::MAX {
        Some(decimal_value(digits))
    } else {
        None
    }
}

/// Whether `c` is an ASCII digit.
pub fn is_digit(c: char) -> (r: bool)
    ensures
        r == digit(c),
{
    '0' <= c && c <= '9'
}

proof fn lemma_decimal_value_grows(s: Seq<char>, i: int)
    requires
        0 <= i <= s.len(),
    ensures
        decimal_value(s.take(i)) <= decimal_value(s),
    decreases s.len() - i,
{
    if i < s.len() {
        lemma_decimal_value_grows(s, i + 1);
        assert(s.take(i + 1).drop_last() =~= s.take(i));
    } else {
        assert(s.take(i) =~= s);
    }
}

/// Read a number.
pub fn parse_number(chars: &Vec<char>) -> (r: Option<usize>)
    ensures
        r matches Some(v) ==> number_of(chars@) == Some(v as nat),
        r is None ==> number_of(chars@) is None,
{
    let n = chars.len();
    let start: usize = if n > 0 && chars[0] == '+' {
        1
    } else {
        0
    };
    let ghost digits = chars@.skip(start as int);
    proof {
        if start == 1 {
            assert(digits =~= chars@.drop_first());
        } else {
            assert(digits =~= chars@);
        }
    }
    if start == n {
        return None;
    }
    let mut value: usize = 0;
    let mut i: usize = start;
    assert(digits.take(0) =~= seq![]);
    while i < n
        invariant
            n == chars.len(),
            start <= i <= n,
            digits == chars@.skip(start as int),
            value == decimal_value(digits.take(i - start)),
            all_digits(digits.take(i - start)),
            digits.len() > 0,
            number_of(chars@) == (if all_digits(digits) && decimal_value(digits) <= usize::MAX {
                Some(decimal_value(digits))
            } else {
                None
            }),
        decreases n - i,
    {
        let c = chars[i];
        assert(digits[i - start] == c);
        if !is_digit(c) {
            return None;
        }
        let d: usize = (c as u32 - '0' as u32) as usize;
        proof {
            lemma_decimal_value_grows(digits, i - start + 1);
            assert(digits.take(i - start + 1).drop_last() =~= digits.take(i - start));
        }
        match value.checked_mul(10) {
            Some(v) => match v.checked_add(d) {
                Some(v) => {
                    value = v;
                },
                None => {
                    return None;
                },
            },
            None => {
                return None;
            },
        }
        i += 1;
    }
    assert(digits.take(n - start) =~= digits);
    Some(value)
}

// ---------------------------------------------------------------------------
// Positions in UTF-8 text
// ---------------------------------------------------------------------------

/// Bytes that the first `n` characters of a text take in UTF-8.
pub open spec fn byte_offset(s: Seq<char>, n: int) -> nat {
    encode_utf8(s.take(n)).len()
}

proof fn lemma_encode_concat(a: Seq<char>, b: Seq<char>)
    ensures
        encode_utf8(a + b) == encode_utf8(a) + encode_utf8(b),
    decreases a.len(),
{
    if a.len() == 0 {
        assert(a + b =~= b);
        assert(encode_utf8(a) + encode_utf8(b) =~= encode_utf8(b));
    } else {
        lemma_encode_concat(a.drop_first(), b);
        assert((a + b).drop_first() =~= a.drop_first() + b);
        assert(encode_utf8(a + b) =~= encode_utf8(a) + encode_utf8(b));
    }
}

/// The UTF-8 form of a text followed by one character.
proof fn lemma_encode_push(a: Seq<char>, c: char)
    ensures
        encode_utf8(a.push(c)) == encode_utf8(a) + encode_scalar(c as u32),
{
    lemma_encode_concat(a, seq![c]);
    assert(a.push(c) =~= a + seq![c]);
    assert(seq![c].drop_first() =~= seq![]);
    reveal_with_fuel(encode_utf8, 2);
    assert(encode_utf8(seq![c]) =~= encode_scalar(c as u32));
}

/// Offsets grow with the number of characters, strictly where there are more.
pub proof fn byte_offsets_increase(s: Seq<char>, i: int, j: int)
    requires
        0 <= i <= j <= s.len(),
    ensures
        byte_offset(s, i) <= byte_offset(s, j),
        i < j ==> byte_offset(s, i) < byte_offset(s, j),
        byte_offset(s, j) <= encode_utf8(s).len(),
    decreases s.len() - i,
{
    lemma_encode_concat(s.take(i), s.subrange(i, j));
    assert(s.take(i) + s.subrange(i, j) =~= s.take(j));
    lemma_encode_concat(s.take(j), s.skip(j));
    assert(s.take(j) + s.skip(j) =~= s);
    if i < j {
        assert(encode_utf8(s.subrange(i, j)).len() > 0);
    }
}

/// Bytes that one character takes in UTF-8.
pub fn char_len(c: char) -> (r: usize)
    ensures
        r == encode_scalar(c as u32).len(),
        1 <= r <= 4,
{
    let v = c as u32;
    if v <= 0x7f {
        1
    } else if v <= 0x7ff {
        2
    } else if v <= 0xffff {
        3
    } else {
        4
    }
}

/// Byte index of the character with the given index in a UTF-8 string. Out of
/// range gives the length of the string, one past the end.
pub fn char_to_byte(s: &str, char_idx: usize) -> (r: usize)
    ensures
        char_idx < s@.len() ==> r == byte_offset(s@, char_idx as int),
        char_idx >= s@.len() ==> r == encode_utf8(s@).len(),
{
    let len = s.as_bytes().len();
    let mut seen: usize = 0;
    let mut offset: usize = 0;
    assert(s@.take(0) =~= seq![]);
    for c in it: s.chars()
        invariant
            it.seq() == s@,
            seen == it.index(),
            seen <= char_idx,
            offset == byte_offset(s@, seen as int),
            encode_utf8(s@).len() == len,
    {
        if seen == char_idx {
            return offset;
        }
        proof {
            byte_offsets_increase(s@, seen + 1, seen + 1);
            lemma_encode_push(s@.take(seen as int), c);
            assert(s@.take(seen + 1) =~= s@.take(seen as int).push(c));
        }
        seen += 1;
        offset += char_len(c);
    }
    assert(s@.take(s@.len() as int) =~= s@);
    offset
}

/// The two ends of a cursor range in ascending order; `None` where they meet.
pub open spec fn span_of(primary: usize, secondary: usize) -> Option<(usize, usize)> {
    if primary < secondary {
        Some((primary, secondary))
    } else if secondary < primary {
        Some((secondary, primary))
    } else {
        None
    }
}

/// The two ends of a cursor range in ascending order; `None` where they meet.
pub fn selection_span(primary: usize, secondary: usize) -> (r: Option<(usize, usize)>)
    ensures
        r == span_of(primary, secondary),
        r is None <==> primary == secondary,
        primary < secondary ==> r == Some((primary, secondary)),
        secondary < primary ==> r == Some((secondary, primary)),
{
    let (lo, hi) = if primary < secondary {
        (primary, secondary)
    } else {
        (secondary, primary)
    };
    if lo != hi {
        Some((lo, hi))
    } else {
        None
    }
}

/// A stretch of bytes of a text, and whether it is part of the selection.
#[derive(Clone, Copy, Debug, PartialEq, Eq, Structural)]
pub struct Section {
    pub start: usize,
    pub end: usize,
    pub selected: bool,
}

/// Byte index of character `n`, or the length of the text.
pub open spec fn byte_index(s: Seq<char>, n: int) -> nat {
    if n < s.len() {
        byte_offset(s, n)
    } else {
        encode_utf8(s).len()
    }
}

/// The sections that a text is painted in: before, inside and after the
/// selected characters, each where it is not empty. A text without a
/// selection is one section, even when it is empty.
pub open spec fn sections_of(s: Seq<char>, span: Option<(usize, usize)>) -> Seq<Section> {
    let len = encode_utf8(s).len();
    match span {
        None => seq![Section { start: 0, end: len as usize, selected: false }],
        Some((lo, hi)) => {
            let lo_b = byte_index(s, lo as int);
            let hi_b = byte_index(s, hi as int);
            let before = if lo_b > 0 {
                seq![Section { start: 0, end: lo_b as usize, selected: false }]
            } else {
                seq![]
            };
            let inside = if hi_b > lo_b {
                seq![Section { start: lo_b as usize, end: hi_b as usize, selected: true }]
            } else {
                seq![]
            };
            let after = if hi_b < len {
                seq![Section { start: hi_b as usize, end: len as usize, selected: false }]
            } else {
                seq![]
            };
            before + inside + after
        },
    }
}

/// The sections of a text follow one another without a gap, from its start to
/// its end.
pub proof fn sections_partition_text(s: Seq<char>, span: Option<(usize, usize)>)
    requires
        encode_utf8(s).len() <= usize::MAX,
        span matches Some((lo, hi)) ==> lo < hi,
    ensures
        ({
            let parts = sections_of(s, span);
            &&& s.len() > 0 ==> parts.len() > 0
            &&& parts.len() > 0 ==> parts[0].start == 0 && parts.last().end == encode_utf8(s).len()
            &&& forall|i: int|
                0 <= i < parts.len() - 1 ==> (#[trigger] parts[i]).end == parts[i + 1].start
            &&& forall|i: int| 0 <= i < parts.len() ==> (#[trigger] parts[i]).start <= parts[i].end
        }),
{
    if let Some((lo, hi)) = span {
        if s.len() > 0 {
            byte_offsets_increase(s, 0, s.len() as int);
            assert(s.take(s.len() as int) =~= s);
        }
        if lo < s.len() {
            let h = if hi < s.len() {
                hi as int
            } else {
                s.len() as int
            };
            byte_offsets_increase(s, lo as int, h);
            assert(s.take(s.len() as int) =~= s);
        }
    }
}

/// Cut a text into the sections before, inside and after the selected range of
/// characters.
pub fn selection_sections(s: &str, span: Option<(usize, usize)>) -> (r: Vec<Section>)
    ensures
        r@ == sections_of(s@, span),
{
    let len = s.as_bytes().len();
    let mut r: Vec<Section> = Vec::new();
    match span {
        None => {
            r.push(Section { start: 0, end: len, selected: false });
        },
        Some((lo, hi)) => {
            let lo_b = char_to_byte(s, lo);
            let hi_b = char_to_byte(s, hi);
            if lo_b > 0 {
                r.push(Section { start: 0, end: lo_b, selected: false });
            }
            if hi_b > lo_b {
                r.push(Section { start: lo_b, end: hi_b, selected: true });
            }
            if hi_b < len {
                r.push(Section { start: hi_b, end: len, selected: false });
            }
        },
    }
    assert(r@ =~= sections_of(s@, span));
    r
}

} // verus!
