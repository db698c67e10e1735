//! How numbers are written: plain decimals, decimals with four places, and
//! four-digit hexadecimals.

use vstd::prelude::*;

use crate::text::{all_digits, chars_of, decimal_value, digit, is_digit, split_first, split_once};
use crate::units::{limit, limited, COORD_LIMIT, TICKS_PER_PT};

verus! {

/// The character of a decimal digit.
pub open spec fn digit_char(d: int) -> char {
    ('0' as int + d) as char
}

/// A number in decimal, without leading zeros.
pub open spec fn decimal_text(n: nat) -> Seq<char>
    decreases n,
{
    if n < 10 {
        seq![digit_char(n as int)]
    } else {
        decimal_text(n / 10).push(digit_char((n % 10) as int))
    }
}

/// A number of ticks in points, with four decimal places.
pub open spec fn fixed4_text(n: int) -> Seq<char> {
    if n < 0 {
        seq!['-'] + unsigned_fixed4((-n) as nat)
    } else {
        unsigned_fixed4(n as nat)
    }
}

pub open spec fn unsigned_fixed4(n: nat) -> Seq<char> {
    decimal_text(n / 10_000) + seq![
        '.',
        digit_char((n / 1000 % 10) as int),
        digit_char((n / 100 % 10) as int),
        digit_char((n / 10 % 10) as int),
        digit_char((n % 10) as int),
    ]
}

/// The character of an upper-case hexadecimal digit.
pub open spec fn hex_char(d: int) -> char {
    if d < 10 {
        digit_char(d)
    } else {
        ('A' as int + (d - 10)) as char
    }
}

/// A number below 65536 as four hexadecimal digits.
pub open spec fn hex4_text(n: int) -> Seq<char> {
    seq![
        hex_char(n / 4096 % 16),
        hex_char(n / 256 % 16),
        hex_char(n / 16 % 16),
        hex_char(n % 16),
    ]
}

/// A decimal text is made of digits and gives its number when it is read.
pub proof fn decimal_text_reads_back(n: nat)
    ensures
        decimal_text(n).len() > 0,
        all_digits(decimal_text(n)),
        decimal_value(decimal_text(n)) == n,
    decreases n,
{
    reveal_with_fuel(decimal_value, 2);
    let text = decimal_text(n);
    if n < 10 {
        assert(text.drop_last() =~= seq![]);
    } else {
        decimal_text_reads_back(n / 10);
        assert(text.drop_last() =~= decimal_text(n / 10));
    }
}

/// Different numbers have different decimal texts.
pub proof fn decimal_text_is_injective(a: nat, b: nat)
    requires
        decimal_text(a) == decimal_text(b),
    ensures
        a == b,
{
    decimal_text_reads_back(a);
    decimal_text_reads_back(b);
}

fn digit_of(d: u128) -> (c: char)
    requires
        d < 10,
    ensures
        c == digit_char(d as int),
{
    (48u8 + d as u8) as char
}

/// Append a number in decimal.
pub fn push_decimal(out: &mut String, n: u128)
    ensures
        final(out)@ == old(out)@ + decimal_text(n as nat),
    decreases n,
{
    if n >= 10 {
        push_decimal(out, n / 10);
    }
    out.push(digit_of(n % 10));
    assert(out@ =~= old(out)@ + decimal_text(n as nat));
}

/// Append a number of ticks in points, with four decimal places.
pub fn push_fixed4(out: &mut String, v: i64)
    requires
        v > i64::MIN,
    ensures
        final(out)@ == old(out)@ + fixed4_text(v as int),
{
    let n: u128 = if v < 0 {
        out.push('-');
        (-v) as u128
    } else {
        v as u128
    };
    push_decimal(out, n / 10_000);
    out.push('.');
    out.push(digit_of(n / 1000 % 10));
    out.push(digit_of(n / 100 % 10));
    out.push(digit_of(n / 10 % 10));
    out.push(digit_of(n % 10));
    assert(out@ =~= old(out)@ + fixed4_text(v as int));
}

fn hex_digit_of(d: u16) -> (c: char)
    requires
        d < 16,
    ensures
        c == hex_char(d as int),
{
    if d < 10 {
        (48u8 + d as u8) as char
    } else {
        (55u8 + d as u8) as char
    }
}

/// Append a number as four hexadecimal digits.
pub fn push_hex4(out: &mut String, v: u16)
    ensures
        final(out)@ == old(out)@ + hex4_text(v as int),
{
    out.push(hex_digit_of(v / 4096 % 16));
    out.push(hex_digit_of(v / 256 % 16));
    out.push(hex_digit_of(v / 16 % 16));
    out.push(hex_digit_of(v % 16));
    assert(out@ =~= old(out)@ + hex4_text(v as int));
}

// ---------------------------------------------------------------------------
// Reading numbers with four decimal places
// ---------------------------------------------------------------------------

/// Ticks written by a text of the form `[-]digits.dddd`, kept within the range
/// of coordinates; `None` for any other text.
pub open spec fn ticks_of(s: Seq<char>) -> Option<int> {
    let negative = s.len() > 0 && s[0] == '-';
    let rest = if negative {
        s.drop_first()
    } else {
        s
    };
    match split_first(rest, '.') {
        Some((whole, places)) => if whole.len() > 0 && places.len() == 4 && all_digits(whole)
            && all_digits(places) {
            let n = decimal_value(whole) * TICKS_PER_PT + decimal_value(places);
            Some(
                limited(
                    if negative {
                        -n
                    } else {
                        n
                    },
                ),
            )
        } else {
            None
        },
        None => None,
    }
}

proof fn lemma_split_first_of_concat(a: Seq<char>, b: Seq<char>, sep: char)
    requires
        !a.contains(sep),
    ensures
        split_first(a + seq![sep] + b, sep) == Some((a, b)),
    decreases a.len(),
{
    let s = a + seq![sep] + b;
    if a.len() == 0 {
        assert(s[0] == sep);
        assert(s.drop_first() =~= b);
        assert(a =~= seq![]);
    } else {
        assert(a.contains(a[0]));
        assert(s[0] == a[0]);
        assert(!a.drop_first().contains(sep)) by {
            if a.drop_first().contains(sep) {
                let i = choose|i: int| 0 <= i < a.drop_first().len() && a.drop_first()[i] == sep;
                assert(a[i + 1] == sep);
            }
        }
        lemma_split_first_of_concat(a.drop_first(), b, sep);
        assert(s.drop_first() =~= a.drop_first() + seq![sep] + b);
        assert(seq![a[0]] + a.drop_first() =~= a);
    }
}

proof fn lemma_four_digits(a: int, b: int, c: int, d: int)
    requires
        0 <= a < 10,
        0 <= b < 10,
        0 <= c < 10,
        0 <= d < 10,
    ensures
        ({
            let s = seq![digit_char(a), digit_char(b), digit_char(c), digit_char(d)];
            all_digits(s) && decimal_value(s) == 1000 * a + 100 * b + 10 * c + d
        }),
{
    let s = seq![digit_char(a), digit_char(b), digit_char(c), digit_char(d)];
    reveal_with_fuel(decimal_value, 5);
    assert(s.drop_last() =~= seq![digit_char(a), digit_char(b), digit_char(c)]);
    assert(s.drop_last().drop_last() =~= seq![digit_char(a), digit_char(b)]);
    assert(s.drop_last().drop_last().drop_last() =~= seq![digit_char(a)]);
    assert(s.drop_last().drop_last().drop_last().drop_last() =~= seq![]);
}

proof fn lemma_places_of(m: nat)
    ensures
        m == (m / 10_000) * 10_000 + (1000 * (m / 1000 % 10) + 100 * (m / 100 % 10) + 10 * (m / 10
            % 10) + m % 10),
{
    assert(m / 10 / 10 == m / 100);
    assert(m / 100 / 10 == m / 1000);
    assert(m / 1000 / 10 == m / 10_000);
}

proof fn lemma_unsigned_fixed4_splits(m: nat)
    ensures
        ({
            let (whole, places) = split_first(unsigned_fixed4(m), '.')->0;
            &&& split_first(unsigned_fixed4(m), '.') is Some
            &&& whole.len() > 0
            &&& places.len() == 4
            &&& all_digits(whole)
            &&& all_digits(places)
            &&& decimal_value(whole) * 10_000 + decimal_value(places) == m
        }),
        unsigned_fixed4(m).len() > 0,
        unsigned_fixed4(m)[0] != '-',
{
    let whole = decimal_text(m / 10_000);
    let a = (m / 1000 % 10) as int;
    let b = (m / 100 % 10) as int;
    let c = (m / 10 % 10) as int;
    let d = (m % 10) as int;
    let places = seq![digit_char(a), digit_char(b), digit_char(c), digit_char(d)];
    decimal_text_reads_back(m / 10_000);
    lemma_four_digits(a, b, c, d);
    lemma_places_of(m);
    assert(!whole.contains('.')) by {
        if whole.contains('.') {
            let i = choose|i: int| 0 <= i < whole.len() && whole[i] == '.';
            assert(digit(whole[i]));
        }
    }
    lemma_split_first_of_concat(whole, places, '.');
    assert(unsigned_fixed4(m) =~= whole + seq!['.'] + places);
    assert(digit(whole[0]));
}

/// Ticks that are written with four places are read back unchanged.
pub proof fn fixed4_reads_back(n: int)
    requires
        -COORD_LIMIT <= n <= COORD_LIMIT,
    ensures
        ticks_of(fixed4_text(n)) == Some(n),
{
    if n < 0 {
        let m = (-n) as nat;
        lemma_unsigned_fixed4_splits(m);
        assert(fixed4_text(n).drop_first() =~= unsigned_fixed4(m));
    } else {
        lemma_unsigned_fixed4_splits(n as nat);
    }
}

/// The value of a list of digits; beyond the range of coordinates it is only
/// told that it lies beyond.
fn digits_value(chars: &Vec<char>) -> (r: Option<i64>)
    ensures
        r is None <==> !all_digits(chars@),
        r matches Some(v) ==> v == if decimal_value(chars@) <= 2 * COORD_LIMIT {
            decimal_value(chars@) as int
        } else {
            2 * COORD_LIMIT
        },
{
    let cap: i64 = 2 * COORD_LIMIT;
    let n = chars.len();
    let mut i: usize = 0;
    let mut v: i64 = 0;
    assert(chars@.take(0) =~= seq![]);
    while i < n
        invariant
            n == chars.len(),
            i <= n,
            cap == 2 * COORD_LIMIT,
            all_digits(chars@.take(i as int)),
            0 <= v <= cap,
            v == if decimal_value(chars@.take(i as int)) <= cap {
                decimal_value(chars@.take(i as int)) as int
            } else {
                cap as int
            },
        decreases n - i,
    {
        let c = chars[i];
        if !is_digit(c) {
            return None;
        }
        let d: i64 = (c as u32 - '0' as u32) as i64;
        assert(chars@.take(i + 1).drop_last() =~= chars@.take(i as int));
        v = v * 10 + d;
        if v > cap {
            v = cap;
        }
        i += 1;
    }
    assert(chars@.take(n as int) =~= chars@);
    Some(v)
}

/// Read ticks from a text with four decimal places.
pub fn parse_ticks(s: &str) -> (r: Option<i64>)
    ensures
        r matches Some(v) ==> ticks_of(s@) == Some(v as int) && -COORD_LIMIT <= v <= COORD_LIMIT,
        r is None ==> ticks_of(s@) is None,
{
    let chars = chars_of(s);
    let n = chars.len();
    let negative = n > 0 && chars[0] == '-';
    let rest = if negative {
        crate::text::slice_of(&chars, 1, n)
    } else {
        crate::text::slice_of(&chars, 0, n)
    };
    proof {
        if negative {
            assert(rest@ =~= s@.drop_first());
        } else {
            assert(rest@ =~= s@);
        }
    }
    match split_once(&rest, '.') {
        Some((whole, places)) => {
            if whole.len() == 0 || places.len() != 4 {
                return None;
            }
            match digits_value(&whole) {
                Some(w) => match digits_value(&places) {
                    Some(p) => {
                        proof {
                            lemma_four_places_small(places@);
                        }
                        let t: i128 = w as i128 * TICKS_PER_PT as i128 + p as i128;
                        if negative {
                            Some(limit(-t))
                        } else {
                            Some(limit(t))
                        }
                    },
                    None => None,
                },
                None => None,
            }
        },
        None => None,
    }
}

proof fn lemma_four_places_small(s: Seq<char>)
    requires
        s.len() == 4,
        all_digits(s),
    ensures
        decimal_value(s) < 10_000,
{
    reveal_with_fuel(decimal_value, 5);
    assert(digit(s[0]) && digit(s[1]) && digit(s[2]) && digit(s[3]));
}

} // verus!
