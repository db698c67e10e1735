//! Page filters, by the texts that are written.

use vstd::prelude::*;

use crate::numtext::{decimal_text, decimal_text_reads_back};
use crate::pages::{pages_of, pages_of_parts, range_of, with_page, with_range};
use crate::text::{
    all_digits, decimal_value, digit, number_of, parts_of, split_first, trimmed, trimmed_end,
    trimmed_start, white_space,
};

verus! {

/// All characters are blanks, tabs or line breaks.
pub open spec fn all_blank(s: Seq<char>) -> bool {
    forall|i: int|
        0 <= i < s.len() ==> (#[trigger] s[i] == ' ' || s[i] == '\t' || s[i] == '\n' || s[i]
            == '\r')
}

/// A text that writes a number: one or more digits.
pub open spec fn writes(s: Seq<char>, n: nat) -> bool {
    s.len() > 0 && (forall|i: int| 0 <= i < s.len() ==> '0' <= #[trigger] s[i] <= '9')
        && decimal_value(s) == n
}

/// The pages from `lo` to `hi` that a document of `total` pages has, ascending.
pub open spec fn pages_between(lo: int, hi: int, total: int) -> Seq<usize> {
    let first = if lo < 1 {
        1
    } else {
        lo
    };
    let last = if hi > total {
        total
    } else {
        hi
    };
    Seq::new(
        (if first <= last {
            last - first + 1
        } else {
            0
        }) as nat,
        |i: int| (first + i) as usize,
    )
}

proof fn lemma_blank_is_white(s: Seq<char>)
    requires
        all_blank(s),
    ensures
        forall|i: int| 0 <= i < s.len() ==> white_space(#[trigger] s[i]),
{
}

proof fn lemma_trim_start(front: Seq<char>, s: Seq<char>)
    requires
        all_blank(front),
        s.len() > 0 ==> !white_space(s[0]),
    ensures
        trimmed_start(front + s) == s,
    decreases front.len(),
{
    lemma_blank_is_white(front);
    if front.len() > 0 {
        assert((front + s)[0] == front[0]);
        assert((front + s).drop_first() =~= front.drop_first() + s);
        lemma_trim_start(front.drop_first(), s);
    } else {
        assert(front + s =~= s);
    }
}

proof fn lemma_trim_end(s: Seq<char>, back: Seq<char>)
    requires
        all_blank(back),
        s.len() > 0 ==> !white_space(s.last()),
    ensures
        trimmed_end(s + back) == s,
    decreases back.len(),
{
    lemma_blank_is_white(back);
    if back.len() > 0 {
        assert((s + back).last() == back.last());
        assert((s + back).drop_last() =~= s + back.drop_last());
        lemma_trim_end(s, back.drop_last());
    } else {
        assert(s + back =~= s);
    }
}

/// Blanks around a text are taken off, and nothing else.
pub proof fn trimming_takes_blanks_off(front: Seq<char>, s: Seq<char>, back: Seq<char>)
    requires
        all_blank(front),
        all_blank(back),
        s.len() > 0,
        !white_space(s[0]),
        !white_space(s.last()),
    ensures
        trimmed(front + s + back) == s,
{
    assert((front + s + back) =~= front + (s + back));
    assert((s + back)[0] == s[0]);
    lemma_trim_start(front, s + back);
    lemma_trim_end(s, back);
}

/// Of the characters below 128 the tab, the line breaks and the blank are white space;
/// digits, letters and signs are not.
pub proof fn plain_white_space(c: char)
    requires
        (c as int) < 128,
    ensures
        white_space(c) == (c as int == 32 || 9 <= c as int <= 13),
{
}

/// Each digit more makes a number ten times as large, and adds the digit.
pub proof fn digits_count_tens(s: Seq<char>, c: char)
    requires
        '0' <= c <= '9',
    ensures
        decimal_value(s.push(c)) == 10 * decimal_value(s) + (c as int - 48),
        decimal_value(Seq::<char>::empty()) == 0,
{
    assert(s.push(c).drop_last() =~= s);
}

proof fn lemma_split_at_dash(a: Seq<char>, b: Seq<char>)
    requires
        forall|i: int| 0 <= i < a.len() ==> #[trigger] a[i] != '-',
    ensures
        split_first(a + seq!['-'] + b, '-') == Some((a, b)),
    decreases a.len(),
{
    let s = a + seq!['-'] + b;
    if a.len() == 0 {
        assert(s[0] == '-');
        assert(s.drop_first() =~= b);
        assert(a =~= seq![]);
    } else {
        assert(s[0] == a[0]);
        assert(s.drop_first() =~= a.drop_first() + seq!['-'] + b);
        lemma_split_at_dash(a.drop_first(), b);
        assert(seq![s[0]] + a.drop_first() =~= a);
    }
}

proof fn lemma_no_dash(s: Seq<char>)
    requires
        forall|i: int| 0 <= i < s.len() ==> #[trigger] s[i] != '-',
    ensures
        split_first(s, '-') is None,
    decreases s.len(),
{
    if s.len() > 0 {
        lemma_no_dash(s.drop_first());
    }
}

proof fn lemma_no_comma(s: Seq<char>)
    requires
        forall|i: int| 0 <= i < s.len() ==> #[trigger] s[i] != ',',
    ensures
        parts_of(s, ',') == seq![s],
    decreases s.len(),
{
    if s.len() > 0 {
        let front = s.drop_last();
        assert forall|i: int| 0 <= i < front.len() implies #[trigger] front[i] != ',' by {
            assert(front[i] == s[i]);
        }
        lemma_no_comma(front);
        assert(s.last() == s[s.len() - 1]);
        assert(seq![front].drop_last() =~= seq![]);
        assert(front.push(s.last()) =~= s);
        assert(seq![front].last() == front);
        assert(parts_of(s, ',') =~= seq![s]);
    } else {
        assert(s =~= seq![]);
        assert(parts_of(s, ',') =~= seq![s]);
    }
}

proof fn lemma_range_from_nothing(lo: int, hi: int, total: int)
    requires
        0 <= total <= usize::MAX,
    ensures
        with_range(seq![], lo, hi, total) == pages_between(lo, hi, total),
    decreases hi - lo + 1,
{
    let all = pages_between(lo, hi, total);
    if lo > hi {
        assert(all =~= seq![]);
    } else {
        lemma_range_from_nothing(lo, hi - 1, total);
        let front = pages_between(lo, hi - 1, total);
        let first = if lo < 1 {
            1
        } else {
            lo
        };
        if 1 <= hi <= total {
            assert(!front.contains(hi as usize)) by {
                if front.contains(hi as usize) {
                    let i = choose|i: int| 0 <= i < front.len() && front[i] == hi as usize;
                    assert(front[i] == (first + i) as usize);
                }
            }
            assert(all =~= front.push(hi as usize));
        } else {
            assert(all =~= front);
        }
    }
}

proof fn lemma_one_part(s: Seq<char>, total: int)
    requires
        forall|i: int| 0 <= i < s.len() ==> #[trigger] s[i] != ',',
        0 <= total <= usize::MAX,
    ensures
        pages_of(s, total) == match range_of(s) {
            Some((lo, hi)) => pages_between(lo as int, hi as int, total),
            None => Seq::<usize>::empty(),
        },
{
    lemma_no_comma(s);
    let parts = seq![s];
    assert(parts.drop_last() =~= seq![]);
    assert(parts.last() == s);
    assert(pages_of_parts(parts.drop_last(), total) =~= seq![]);
    if let Some((lo, hi)) = range_of(s) {
        lemma_range_from_nothing(lo as int, hi as int, total);
    }
}

/// A filter `a-b`, with blanks wherever they may stand, selects every page from the
/// smaller to the larger number that the document has, and no other, in ascending order.
pub proof fn range_selects_its_pages(
    before: Seq<char>,
    a_text: Seq<char>,
    a_after: Seq<char>,
    b_before: Seq<char>,
    b_text: Seq<char>,
    after: Seq<char>,
    a: nat,
    b: nat,
    total: int,
)
    requires
        all_blank(before),
        all_blank(a_after),
        all_blank(b_before),
        all_blank(after),
        writes(a_text, a),
        writes(b_text, b),
        a <= usize::MAX,
        b <= usize::MAX,
        0 <= total <= usize::MAX,
    ensures
        ({
            let s = before + a_text + a_after + seq!['-'] + b_before + b_text + after;
            let lo = if a <= b {
                a as int
            } else {
                b as int
            };
            let hi = if a <= b {
                b as int
            } else {
                a as int
            };
            &&& forall|p: usize| #[trigger]
                pages_of(s, total).contains(p) <==> lo <= p <= hi && 1 <= p <= total
            &&& forall|i: int, j: int|
                0 <= i < j < pages_of(s, total).len() ==> pages_of(s, total)[i] < pages_of(
                    s,
                    total,
                )[j]
        }),
{
    let s = before + a_text + a_after + seq!['-'] + b_before + b_text + after;
    let left = a_text + a_after;
    let right = b_before + b_text;
    let inner = left + seq!['-'] + right;
    assert(s =~= before + inner + after);
    assert(inner[0] == a_text[0]);
    assert(inner.last() == b_text.last());
    trimming_takes_blanks_off(before, inner, after);
    assert forall|i: int| 0 <= i < left.len() implies #[trigger] left[i] != '-' by {
        if i < a_text.len() {
            assert(left[i] == a_text[i]);
        } else {
            assert(left[i] == a_after[i - a_text.len()]);
        }
    }
    lemma_split_at_dash(left, right);
    assert(Seq::<char>::empty() + a_text + a_after =~= left);
    trimming_takes_blanks_off(Seq::empty(), a_text, a_after);
    assert(b_before + b_text + Seq::<char>::empty() =~= right);
    trimming_takes_blanks_off(b_before, b_text, Seq::empty());
    assert(all_digits(a_text) && all_digits(b_text));
    assert forall|i: int| 0 <= i < s.len() implies #[trigger] s[i] != ',' by {
        let n1 = before.len();
        let n2 = n1 + a_text.len();
        let n3 = n2 + a_after.len();
        let n4 = n3 + 1;
        let n5 = n4 + b_before.len();
        let n6 = n5 + b_text.len();
        if i < n1 {
            assert(s[i] == before[i]);
        } else if i < n2 {
            assert(s[i] == a_text[i - n1]);
        } else if i < n3 {
            assert(s[i] == a_after[i - n2]);
        } else if i < n4 {
            assert(s[i] == '-');
        } else if i < n5 {
            assert(s[i] == b_before[i - n4]);
        } else if i < n6 {
            assert(s[i] == b_text[i - n5]);
        } else {
            assert(s[i] == after[i - n6]);
        }
    }
    lemma_one_part(s, total);
    let lo = if a <= b {
        a as int
    } else {
        b as int
    };
    let hi = if a <= b {
        b as int
    } else {
        a as int
    };
    assert(range_of(s) == Some((lo as nat, hi as nat)));
    lemma_between_members(lo, hi, total);
}

proof fn lemma_between_members(lo: int, hi: int, total: int)
    requires
        0 <= total <= usize::MAX,
    ensures
        forall|p: usize| #[trigger]
            pages_between(lo, hi, total).contains(p) <==> lo <= p <= hi && 1 <= p <= total,
{
    let pages = pages_between(lo, hi, total);
    let first = if lo < 1 {
        1
    } else {
        lo
    };
    assert forall|p: usize| #[trigger] pages.contains(p) <==> lo <= p <= hi && 1 <= p <= total by {
        if lo <= p <= hi && 1 <= p <= total {
            assert(pages[p - first] == p);
        }
        if pages.contains(p) {
            let i = choose|i: int| 0 <= i < pages.len() && pages[i] == p;
            assert(pages[i] == (first + i) as usize);
        }
    }
}

/// A filter that is one number, with blanks around it, selects that page, where the
/// document has it.
pub proof fn number_selects_its_page(
    before: Seq<char>,
    text: Seq<char>,
    after: Seq<char>,
    n: nat,
    total: int,
)
    requires
        all_blank(before),
        all_blank(after),
        writes(text, n),
        n <= usize::MAX,
        0 <= total <= usize::MAX,
    ensures
        pages_of(before + text + after, total) == if 1 <= n <= total {
            seq![n as usize]
        } else {
            Seq::<usize>::empty()
        },
{
    let s = before + text + after;
    trimming_takes_blanks_off(before, text, after);
    assert(all_digits(text));
    lemma_no_dash(text);
    assert forall|i: int| 0 <= i < s.len() implies #[trigger] s[i] != ',' by {
        if i < before.len() {
            assert(s[i] == before[i]);
        } else if i < before.len() + text.len() {
            assert(s[i] == text[i - before.len()]);
        } else {
            assert(s[i] == after[i - before.len() - text.len()]);
        }
    }
    lemma_one_part(s, total);
    assert(pages_of(s, total) =~= if 1 <= n <= total {
        seq![n as usize]
    } else {
        Seq::<usize>::empty()
    });
}

/// The filter `a-b` in plain decimals, of numbers in order that the document has, gives
/// the pages `a`, `a + 1` and so on up to `b`.
pub proof fn plain_range(a: nat, b: nat, total: int)
    requires
        1 <= a <= b <= total <= usize::MAX,
    ensures
        pages_of(decimal_text(a) + seq!['-'] + decimal_text(b), total) == Seq::new(
            (b - a + 1) as nat,
            |i: int| (a + i) as usize,
        ),
{
    decimal_text_reads_back(a);
    decimal_text_reads_back(b);
    let none = Seq::<char>::empty();
    let s = none + decimal_text(a) + none + seq!['-'] + none + decimal_text(b) + none;
    assert(s =~= decimal_text(a) + seq!['-'] + decimal_text(b));
    range_selects_its_pages(none, decimal_text(a), none, none, decimal_text(b), none, a, b, total);
    let pages = pages_of(s, total);
    let expected = Seq::new((b - a + 1) as nat, |i: int| (a + i) as usize);
    lemma_ascending_run(pages, a as int, b as int);
    assert(pages =~= expected);
}

/// An ascending list of exactly the numbers from `lo` to `hi` counts them up.
proof fn lemma_ascending_run(pages: Seq<usize>, lo: int, hi: int)
    requires
        0 <= lo <= hi + 1,
        forall|p: usize| #[trigger] pages.contains(p) <==> lo <= p <= hi,
        hi <= usize::MAX,
        forall|i: int, j: int| 0 <= i < j < pages.len() ==> pages[i] < pages[j],
    ensures
        pages.len() == hi - lo + 1,
        forall|i: int| 0 <= i < pages.len() ==> #[trigger] pages[i] == lo + i,
    decreases hi - lo + 1,
{
    if lo > hi {
        if pages.len() > 0 {
            assert(pages.contains(pages[0]));
        }
    } else {
        assert(pages.contains(hi as usize));
        let k = choose|k: int| 0 <= k < pages.len() && pages[k] == hi as usize;
        if k < pages.len() - 1 {
            assert(pages.contains(pages[pages.len() - 1]));
            assert(pages[k] < pages[pages.len() - 1]);
        }
        let front = pages.drop_last();
        assert forall|p: usize| #[trigger] front.contains(p) <==> lo <= p <= hi - 1 by {
            if front.contains(p) {
                let i = choose|i: int| 0 <= i < front.len() && front[i] == p;
                assert(pages[i] == p);
                assert(pages.contains(p));
                assert(pages[i] < pages[pages.len() - 1]);
            }
            if lo <= p <= hi - 1 {
                assert(pages.contains(p));
                let i = choose|i: int| 0 <= i < pages.len() && pages[i] == p;
                assert(front[i] == p);
            }
        }
        lemma_ascending_run(front, lo, hi - 1);
        assert forall|i: int| 0 <= i < pages.len() implies #[trigger] pages[i] == lo + i by {
            if i < front.len() {
                assert(front[i] == pages[i]);
            }
        }
    }
}

/// Two filters with a comma between them select the pages of the first, and behind them
/// those of the second that are not there yet.
pub proof fn comma_adds_pages(a: Seq<char>, b: Seq<char>, total: int)
    requires
        0 <= total <= usize::MAX,
    ensures
        forall|p: usize| #[trigger]
            pages_of(a + seq![','] + b, total).contains(p) <==> pages_of(a, total).contains(p)
                || pages_of(b, total).contains(p),
        pages_of(a + seq![','] + b, total).no_duplicates(),
        pages_of(a, total).is_prefix_of(pages_of(a + seq![','] + b, total)),
{
    lemma_parts_of_concat(a, b);
    let x = parts_of(a, ',');
    let y = parts_of(b, ',');
    lemma_pages_of_more(x, y, total);
    crate::pages::filter_selects_mentioned_pages(a, total);
    crate::pages::filter_selects_mentioned_pages(b, total);
    crate::pages::filter_selects_mentioned_pages(a + seq![','] + b, total);
    assert forall|p: usize| #[trigger]
        pages_of(a + seq![','] + b, total).contains(p) <==> pages_of(a, total).contains(p)
            || pages_of(b, total).contains(p) by {
        let all = x + y;
        if crate::pages::mentioned(all, p as int) {
            let i = choose|i: int|
                0 <= i < all.len() && (range_of(#[trigger] all[i]) matches Some((lo, hi)) && lo <= p
                    <= hi);
            if i < x.len() {
                assert(x[i] == all[i]);
            } else {
                assert(y[i - x.len()] == all[i]);
            }
        }
        if crate::pages::mentioned(x, p as int) {
            let i = choose|i: int|
                0 <= i < x.len() && (range_of(#[trigger] x[i]) matches Some((lo, hi)) && lo <= p
                    <= hi);
            assert(all[i] == x[i]);
        }
        if crate::pages::mentioned(y, p as int) {
            let i = choose|i: int|
                0 <= i < y.len() && (range_of(#[trigger] y[i]) matches Some((lo, hi)) && lo <= p
                    <= hi);
            assert(all[x.len() + i] == y[i]);
        }
    }
}

proof fn lemma_parts_of_concat(a: Seq<char>, b: Seq<char>)
    ensures
        parts_of(a + seq![','] + b, ',') == parts_of(a, ',') + parts_of(b, ','),
        parts_of(b, ',').len() > 0,
    decreases b.len(),
{
    let s = a + seq![','] + b;
    if b.len() == 0 {
        assert(s.drop_last() =~= a);
        assert(s.last() == ',');
        assert(parts_of(b, ',') =~= seq![seq![]]);
        assert(parts_of(s, ',') =~= parts_of(a, ',') + parts_of(b, ','));
    } else {
        assert(s.drop_last() =~= a + seq![','] + b.drop_last());
        assert(s.last() == b.last());
        lemma_parts_of_concat(a, b.drop_last());
        let x = parts_of(a, ',');
        let y = parts_of(b.drop_last(), ',');
        assert((x + y).last() == y.last());
        assert(parts_of(s, ',') =~= x + parts_of(b, ','));
    }
}

proof fn lemma_pages_of_more(x: Seq<Seq<char>>, y: Seq<Seq<char>>, total: int)
    ensures
        pages_of_parts(x, total).is_prefix_of(pages_of_parts(x + y, total)),
    decreases y.len(),
{
    if y.len() == 0 {
        assert(x + y =~= x);
    } else {
        assert((x + y).drop_last() =~= x + y.drop_last());
        lemma_pages_of_more(x, y.drop_last(), total);
        let front = pages_of_parts(x + y.drop_last(), total);
        if let Some((lo, hi)) = range_of((x + y).last()) {
            lemma_range_extends(front, lo as int, hi as int, total);
        }
    }
}

proof fn lemma_range_extends(out: Seq<usize>, lo: int, hi: int, total: int)
    ensures
        out.is_prefix_of(with_range(out, lo, hi, total)),
    decreases hi - lo + 1,
{
    if lo <= hi {
        lemma_range_extends(out, lo, hi - 1, total);
        let before = with_range(out, lo, hi - 1, total);
        assert(before.is_prefix_of(with_page(before, hi, total)));
    }
}

/// A filter without a comma that selects anything holds nothing but digits, white space,
/// a dash and plus signs, and a digit at least. So letters and other signs select nothing.
pub proof fn only_numbers_select(s: Seq<char>, total: int, i: int)
    requires
        forall|k: int| 0 <= k < s.len() ==> #[trigger] s[k] != ',',
        0 <= total <= usize::MAX,
        pages_of(s, total).len() > 0,
        0 <= i < s.len(),
    ensures
        '0' <= s[i] <= '9' || s[i] == '-' || s[i] == '+' || white_space(s[i]),
{
    lemma_one_part(s, total);
    lemma_trimmed_keeps(s, i);
    if !white_space(s[i]) {
        let p = trimmed(s);
        assert(p.contains(s[i]));
        match split_first(p, '-') {
            Some((a, b)) => {
                lemma_split_pieces(p);
                let k = choose|k: int| 0 <= k < p.len() && p[k] == s[i];
                if k < a.len() {
                    assert(a[k] == s[i]);
                    lemma_number_chars(a, k);
                } else if k > a.len() {
                    assert(b[k - a.len() - 1] == s[i]);
                    lemma_number_chars(b, k - a.len() - 1);
                }
            },
            None => {
                let k = choose|k: int| 0 <= k < p.len() && p[k] == s[i];
                assert(digits_or_plus(p, k));
            },
        }
    }
}

proof fn lemma_number_chars(a: Seq<char>, k: int)
    requires
        number_of(trimmed(a)) is Some,
        0 <= k < a.len(),
    ensures
        '0' <= a[k] <= '9' || a[k] == '+' || white_space(a[k]),
{
    lemma_trimmed_keeps(a, k);
    if !white_space(a[k]) {
        let t = trimmed(a);
        let m = choose|m: int| 0 <= m < t.len() && t[m] == a[k];
        assert(digits_or_plus(t, m));
    }
}

/// A character of a number is a digit, or the plus sign before it.
spec fn digits_or_plus(t: Seq<char>, m: int) -> bool {
    number_of(t) is Some && 0 <= m < t.len() ==> digit(t[m]) || t[m] == '+' || {
        let digits = t.drop_first();
        m > 0 && digit(digits[m - 1])
    }
}

proof fn lemma_split_pieces(p: Seq<char>)
    ensures
        split_first(p, '-') matches Some((a, b)) ==> p == a + seq!['-'] + b,
    decreases p.len(),
{
    if p.len() > 0 {
        lemma_split_pieces(p.drop_first());
        if p[0] == '-' {
            assert(p =~= Seq::<char>::empty() + seq!['-'] + p.drop_first());
        } else if let Some((a, b)) = split_first(p.drop_first(), '-') {
            assert(p =~= seq![p[0]] + p.drop_first());
            assert(p =~= (seq![p[0]] + a) + seq!['-'] + b);
        }
    }
}

proof fn lemma_trimmed_keeps(s: Seq<char>, i: int)
    requires
        0 <= i < s.len(),
    ensures
        white_space(s[i]) || trimmed(s).contains(s[i]),
{
    let c = s[i];
    if !white_space(c) {
        lemma_start_keeps(s, c);
        lemma_end_keeps(trimmed_start(s), c);
    }
}

proof fn lemma_start_keeps(s: Seq<char>, c: char)
    requires
        s.contains(c),
        !white_space(c),
    ensures
        trimmed_start(s).contains(c),
    decreases s.len(),
{
    if s.len() > 0 && white_space(s[0]) {
        let k = choose|k: int| 0 <= k < s.len() && s[k] == c;
        assert(s.drop_first()[k - 1] == c);
        lemma_start_keeps(s.drop_first(), c);
    }
}

proof fn lemma_end_keeps(s: Seq<char>, c: char)
    requires
        s.contains(c),
        !white_space(c),
    ensures
        trimmed_end(s).contains(c),
    decreases s.len(),
{
    if s.len() > 0 && white_space(s.last()) {
        let k = choose|k: int| 0 <= k < s.len() && s[k] == c;
        assert(s.drop_last()[k] == c);
        lemma_end_keeps(s.drop_last(), c);
    }
}

/// A plus sign before a number makes no difference.
pub proof fn plus_sign_makes_no_difference(text: Seq<char>, n: nat, total: int)
    requires
        writes(text, n),
        n <= usize::MAX,
        0 <= total <= usize::MAX,
    ensures
        pages_of(seq!['+'] + text, total) == pages_of(text, total),
{
    let s = seq!['+'] + text;
    let none = Seq::<char>::empty();
    assert(none + s + none =~= s);
    trimming_takes_blanks_off(none, s, none);
    assert(s.drop_first() =~= text);
    assert(all_digits(text));
    assert forall|i: int| 0 <= i < s.len() implies #[trigger] s[i] != ',' && s[i] != '-' by {
        if i > 0 {
            assert(s[i] == text[i - 1]);
        }
    }
    lemma_no_dash(s);
    lemma_one_part(s, total);
    number_selects_its_page(none, text, none, n, total);
    assert(none + text + none =~= text);
    assert(pages_of(s, total) =~= pages_of(text, total));
}

} // verus!
