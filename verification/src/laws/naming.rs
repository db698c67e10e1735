//! Names of outputs and resources, and kinds of files, by their texts.

use vstd::prelude::*;
use vstd::utf8::encode_utf8;

use crate::app::PageView;
use crate::files::{
    holds_at, kind_of, lower, lowered, name_le, picture_names, reports_error, FileKind, FoundFile,
};
use crate::laws::filter::writes;
use crate::names::{
    base_name, base_of, ends_with, first_free, first_free_output, free_name, free_name_is_free,
    output_name, trailing_digits, without_counter, without_suffix,
};
use crate::numtext::{decimal_text, decimal_text_reads_back};
use crate::panels::any_redact;

verus! {

// ---------------------------------------------------------------------------
// Outputs
// ---------------------------------------------------------------------------

/// The name of an output is the base with `_signed` behind it, or `_masked` where
/// something was blackened, then a counter from one on where the name without it is not
/// used, and `.pdf`.
pub proof fn outputs_are_called_signed_or_masked(base: Seq<char>, n: nat)
    ensures
        output_name(base, false, 0) == base + "_signed.pdf"@,
        output_name(base, true, 0) == base + "_masked.pdf"@,
        n > 0 ==> exists|d: Seq<char>| #[trigger]
            writes(d, n) && d[0] != '0' && output_name(base, false, n) == base + "_signed_"@ + d
                + ".pdf"@ && output_name(base, true, n) == base + "_masked_"@ + d + ".pdf"@,
{
    reveal_strlit("_signed");
    reveal_strlit("_masked");
    reveal_strlit("_signed_");
    reveal_strlit("_masked_");
    reveal_strlit("_signed.pdf");
    reveal_strlit("_masked.pdf");
    reveal_strlit(".pdf");
    assert("_signed"@ + ".pdf"@ =~= "_signed.pdf"@);
    assert("_masked"@ + ".pdf"@ =~= "_masked.pdf"@);
    assert(base + "_signed"@ + ".pdf"@ =~= base + ("_signed"@ + ".pdf"@));
    assert(base + "_masked"@ + ".pdf"@ =~= base + ("_masked"@ + ".pdf"@));
    if n > 0 {
        let d = decimal_text(n);
        decimal_text_reads_back(n);
        lemma_no_leading_zero(n);
        assert("_signed"@.push('_') =~= "_signed_"@);
        assert("_masked"@.push('_') =~= "_masked_"@);
        assert((base + "_signed"@).push('_') =~= base + "_signed_"@);
        assert((base + "_masked"@).push('_') =~= base + "_masked_"@);
        assert(writes(d, n));
    }
}

proof fn lemma_no_leading_zero(n: nat)
    requires
        n > 0,
    ensures
        decimal_text(n).len() > 0,
        decimal_text(n)[0] != '0',
    decreases n,
{
    if n >= 10 {
        lemma_no_leading_zero(n / 10);
    }
}

/// The name that is used is the first that no file has: the one without a counter where
/// that is free, and otherwise the one with the least counter.
pub proof fn output_is_the_first_free(
    taken: Seq<Seq<char>>,
    base: Seq<char>,
    masked: bool,
    n: nat,
    m: nat,
)
    requires
        first_free_output(taken, base, masked, n),
    ensures
        !taken.contains(output_name(base, masked, n)),
        m < n ==> taken.contains(output_name(base, masked, m)),
{
}

/// The base of an output is the name of the file that was opened, less a former `_signed`
/// or `_masked` with or without a counter of digits; a file without a name is called `out`.
pub proof fn base_is_the_name_less_a_mark(s: Seq<char>)
    ensures
        ({
            let b = base_name(s);
            ||| s == b
            ||| s == b + "_signed"@
            ||| s == b + "_masked"@
            ||| exists|d: Seq<char>|
                d.len() > 0 && (forall|i: int| 0 <= i < d.len() ==> '0' <= #[trigger] d[i] <= '9')
                    && (s == #[trigger] (b + "_signed_"@ + d) || s == b + "_masked_"@ + d)
        }),
        base_of(Some(s)) == base_name(s),
        base_of(None) == base_name("out"@),
{
    reveal_strlit("_signed");
    reveal_strlit("_masked");
    reveal_strlit("_signed_");
    reveal_strlit("_masked_");
    let b = base_name(s);
    lemma_suffix_back(s);
    if without_suffix(s) is None {
        if let Some(head) = without_counter(s) {
            lemma_suffix_back(head);
            lemma_trailing_are_digits(s);
            let n = trailing_digits(s) as int;
            let d = s.skip(s.len() - n);
            assert(s =~= head.push('_') + d);
            if without_suffix(head) is Some {
                assert("_signed"@.push('_') =~= "_signed_"@);
                assert("_masked"@.push('_') =~= "_masked_"@);
                if head == b + "_signed"@ {
                    assert(s =~= b + "_signed_"@ + d);
                } else {
                    assert(s =~= b + "_masked_"@ + d);
                    assert((b + "_signed_"@ + d).len() == s.len());
                }
            }
        }
    }
}

proof fn lemma_suffix_back(s: Seq<char>)
    ensures
        without_suffix(s) matches Some(b) ==> s == b + "_signed"@ || s == b + "_masked"@,
{
    if ends_with(s, "_signed"@) {
        assert(s =~= s.take(s.len() - "_signed"@.len()) + "_signed"@);
    } else if ends_with(s, "_masked"@) {
        assert(s =~= s.take(s.len() - "_masked"@.len()) + "_masked"@);
    }
}

proof fn lemma_trailing_are_digits(s: Seq<char>)
    ensures
        trailing_digits(s) <= s.len(),
        forall|i: int|
            s.len() - trailing_digits(s) <= i < s.len() ==> '0' <= #[trigger] s[i] <= '9',
    decreases s.len(),
{
    if s.len() > 0 && crate::text::digit(s.last()) {
        lemma_trailing_are_digits(s.drop_last());
        assert forall|i: int| s.len() - trailing_digits(s) <= i < s.len() implies '0'
            <= #[trigger] s[i] <= '9' by {
            if i < s.len() - 1 {
                assert(s.drop_last()[i] == s[i]);
            }
        }
    }
}

/// A name with a mark behind it, with or without a counter, has the name before the mark as
/// its base, and so every output of an output is called as the output of the source.
pub proof fn marks_are_not_piled_up(base: Seq<char>, masked: bool, n: nat, again: bool, m: nat)
    ensures
        base_name(crate::names::output_stem(base, masked, n)) == base,
        output_name(base_name(crate::names::output_stem(base, masked, n)), again, m)
            == output_name(base, again, m),
{
    crate::names::output_stem_gives_base_back(base, masked, n);
}

/// An output counts as masked exactly where some overlay of some page is a redaction.
pub proof fn masked_means_redacted(pages: Seq<PageView>, p: int, i: int)
    requires
        0 <= p < pages.len(),
        0 <= i < pages[p].overlays.len(),
    ensures
        pages[p].overlays[i] is Redact ==> any_redact(pages),
        !any_redact(pages) ==> !(pages[p].overlays[i] is Redact),
        any_redact(pages) ==> exists|q: int, k: int|
            0 <= q < pages.len() && 0 <= k < pages[q].overlays.len() && (
            #[trigger] pages[q].overlays[k]) is Redact,
{
}

// ---------------------------------------------------------------------------
// Resources
// ---------------------------------------------------------------------------

/// A new resource is called by its prefix and a number from one on, the least one that the
/// page has no resource for.
pub proof fn resources_are_numbered(taken: Set<Seq<u8>>, prefix: Seq<char>)
    requires
        taken.finite(),
    ensures
        exists|n: nat|
            n >= 1 && free_name(taken, prefix) == prefix + #[trigger] decimal_text(n)
                && !taken.contains(encode_utf8(prefix + decimal_text(n))) && forall|m: nat|
                1 <= m < n ==> taken.contains(encode_utf8(prefix + #[trigger] decimal_text(m))),
{
    free_name_is_free(taken, prefix);
    let n = choose|n: nat| #[trigger]
        first_free(taken, prefix, n) && free_name(taken, prefix) == prefix + decimal_text(n);
    assert forall|m: nat| 1 <= m < n implies taken.contains(
        encode_utf8(prefix + #[trigger] decimal_text(m)),
    ) by {
        assert(taken.contains(crate::names::resource_name(prefix, m)));
    }
}

// ---------------------------------------------------------------------------
// Files
// ---------------------------------------------------------------------------

/// A character is a letter, in capitals or not. The letter is given as it is small.
pub open spec fn is_letter(c: char, small: char) -> bool {
    c == small || (c as int) + 32 == small as int
}

proof fn lemma_lower(c: char, small: char)
    requires
        'a' <= small <= 'z',
    ensures
        lower(c) == small <==> is_letter(c, small),
{
}

/// A file is a document by the extension `pdf`, and a picture by `png`, `jpg` or `jpeg`, in
/// capitals or not; anything else, and a file without an extension, is neither.
pub proof fn kinds_go_by_extensions(e: Seq<char>)
    ensures
        kind_of(Some(e)) == FileKind::Pdf <==> e.len() == 3 && is_letter(e[0], 'p') && is_letter(
            e[1],
            'd',
        ) && is_letter(e[2], 'f'),
        kind_of(Some(e)) == FileKind::Image <==> (e.len() == 3 && is_letter(e[0], 'p')
            && is_letter(e[1], 'n') && is_letter(e[2], 'g')) || (e.len() == 3 && is_letter(
            e[0],
            'j',
        ) && is_letter(e[1], 'p') && is_letter(e[2], 'g')) || (e.len() == 4 && is_letter(e[0], 'j')
            && is_letter(e[1], 'p') && is_letter(e[2], 'e') && is_letter(e[3], 'g')),
        kind_of(None) == FileKind::Other,
{
    reveal_strlit("pdf");
    reveal_strlit("png");
    reveal_strlit("jpg");
    reveal_strlit("jpeg");
    let l = lowered(e);
    lemma_spelled(e, "pdf"@);
    lemma_spelled(e, "png"@);
    lemma_spelled(e, "jpg"@);
    lemma_spelled(e, "jpeg"@);
}

proof fn lemma_spelled(e: Seq<char>, word: Seq<char>)
    requires
        forall|i: int| 0 <= i < word.len() ==> 'a' <= #[trigger] word[i] <= 'z',
    ensures
        lowered(e) == word <==> e.len() == word.len() && forall|i: int|
            0 <= i < word.len() ==> is_letter(#[trigger] e[i], word[i]),
{
    let l = lowered(e);
    if l == word {
        assert forall|i: int| 0 <= i < word.len() implies is_letter(#[trigger] e[i], word[i]) by {
            assert(l[i] == lower(e[i]));
            lemma_lower(e[i], word[i]);
        }
    }
    if e.len() == word.len() && forall|i: int|
        0 <= i < word.len() ==> is_letter(#[trigger] e[i], word[i]) {
        assert forall|i: int| 0 <= i < word.len() implies l[i] == word[i] by {
            assert(is_letter(e[i], word[i]));
            lemma_lower(e[i], word[i]);
        }
        assert(l =~= word);
    }
}

/// The signatures are the files found whose extension is that of a picture; a file more
/// adds its name where it is one.
pub proof fn signatures_are_the_pictures(files: Seq<FoundFile>, next: FoundFile)
    ensures
        picture_names(files.push(next)) == if next.is_file && (next.extension matches Some(e)
            && kind_of(Some(e@)) == FileKind::Image) {
            picture_names(files).push(next.name@)
        } else {
            picture_names(files)
        },
        picture_names(Seq::<FoundFile>::empty()) == Seq::<Seq<u8>>::empty(),
{
    assert(files.push(next).drop_last() =~= files);
}

/// Names are ordered by their first byte that differs, and a name comes before one that
/// continues it.
pub proof fn names_are_ordered_by_bytes(common: Seq<u8>, a: Seq<u8>, b: Seq<u8>)
    ensures
        name_le(common, common + b),
        b.len() > 0 ==> !name_le(common + b, common),
        a.len() > 0 && b.len() > 0 && a[0] < b[0] ==> name_le(common + a, common + b) && !name_le(
            common + b,
            common + a,
        ),
    decreases common.len(),
{
    if common.len() > 0 {
        let rest = common.drop_first();
        names_are_ordered_by_bytes(rest, a, b);
        assert((common + a).drop_first() =~= rest + a);
        assert((common + b).drop_first() =~= rest + b);
    } else {
        assert(common + a =~= a);
        assert(common + b =~= b);
    }
}

/// A message reports an error exactly where the word stands in it, in capitals or not.
pub proof fn errors_are_told_by_the_word(s: Seq<char>)
    ensures
        reports_error(s) <==> exists|i: int|
            0 <= i && i + 5 <= s.len() && is_letter(#[trigger] s[i], 'e') && is_letter(s[i + 1], 'r')
                && is_letter(s[i + 2], 'r') && is_letter(s[i + 3], 'o') && is_letter(s[i + 4], 'r'),
{
    reveal_strlit("error");
    let l = lowered(s);
    if reports_error(s) {
        let i = choose|i: int| holds_at(l, "error"@, i);
        let part = s.subrange(i, i + 5);
        assert(lowered(part) =~= l.subrange(i, i + 5));
        lemma_spelled(part, "error"@);
        assert(part[0] == s[i] && part[1] == s[i + 1] && part[2] == s[i + 2] && part[3] == s[i + 3]
            && part[4] == s[i + 4]);
        assert(is_letter(part[0], "error"@[0]) && is_letter(part[1], "error"@[1]) && is_letter(
            part[2],
            "error"@[2],
        ) && is_letter(part[3], "error"@[3]) && is_letter(part[4], "error"@[4]));
        assert(is_letter(s[i], 'e'));
    }
    if exists|i: int|
        0 <= i && i + 5 <= s.len() && is_letter(#[trigger] s[i], 'e') && is_letter(s[i + 1], 'r')
            && is_letter(s[i + 2], 'r') && is_letter(s[i + 3], 'o') && is_letter(s[i + 4], 'r') {
        let i = choose|i: int|
            0 <= i && i + 5 <= s.len() && is_letter(#[trigger] s[i], 'e') && is_letter(s[i + 1], 'r')
                && is_letter(s[i + 2], 'r') && is_letter(s[i + 3], 'o') && is_letter(s[i + 4], 'r');
        let part = s.subrange(i, i + 5);
        assert(lowered(part) =~= l.subrange(i, i + 5));
        assert forall|k: int| 0 <= k < 5 implies is_letter(#[trigger] part[k], "error"@[k]) by {
            assert(part[k] == s[i + k]);
        }
        lemma_spelled(part, "error"@);
        assert(holds_at(l, "error"@, i));
    }
}

} // verus!
