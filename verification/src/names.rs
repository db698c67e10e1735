//! Names: of the file that a save writes, and of the resources that an overlay
//! adds to a page.

use vstd::prelude::*;
use vstd::string::StringSliceAdditionalSpecFns;
use vstd::utf8::{encode_utf8, encode_utf8_decode_utf8};

use crate::files::{same_chars, text_view};
use crate::numtext::{
    decimal_text, decimal_text_is_injective, decimal_text_reads_back, push_decimal,
};
use crate::text::{all_digits, chars_of, digit, is_digit};

verus! {

// ---------------------------------------------------------------------------
// Output file names
// ---------------------------------------------------------------------------

/// `s` ends in `suffix`.
pub open spec fn ends_with(s: Seq<char>, suffix: Seq<char>) -> bool {
    s.len() >= suffix.len() && s.skip(s.len() - suffix.len()) == suffix
}

/// `s` without a trailing `_signed` or `_masked`, if it has one.
pub open spec fn without_suffix(s: Seq<char>) -> Option<Seq<char>> {
    if ends_with(s, "_signed"@) {
        Some(s.take(s.len() - "_signed"@.len()))
    } else if ends_with(s, "_masked"@) {
        Some(s.take(s.len() - "_masked"@.len()))
    } else {
        None
    }
}

/// How many digits `s` ends in.
pub open spec fn trailing_digits(s: Seq<char>) -> nat
    decreases s.len(),
{
    if s.len() > 0 && digit(s.last()) {
        trailing_digits(s.drop_last()) + 1
    } else {
        0
    }
}

/// `s` without a trailing counter: an underscore and at least one digit.
pub open spec fn without_counter(s: Seq<char>) -> Option<Seq<char>> {
    let n = trailing_digits(s);
    if 0 < n < s.len() && s[s.len() - n - 1] == '_' {
        Some(s.take(s.len() - n - 1))
    } else {
        None
    }
}

/// The name that an output was made from: without `_signed` or `_masked`, and
/// without a counter behind that. Any other name is its own base.
pub open spec fn base_name(s: Seq<char>) -> Seq<char> {
    match without_suffix(s) {
        Some(base) => base,
        None => match without_counter(s) {
            Some(head) => match without_suffix(head) {
                Some(base) => base,
                None => s,
            },
            None => s,
        },
    }
}

/// The stem of the `n`th name tried for an output; the first has no counter.
pub open spec fn output_stem(base: Seq<char>, masked: bool, n: nat) -> Seq<char> {
    let marked = base + (if masked {
        "_masked"@
    } else {
        "_signed"@
    });
    if n == 0 {
        marked
    } else {
        marked.push('_') + decimal_text(n)
    }
}

proof fn lemma_suffix_literals()
    ensures
        "_signed"@.len() == 7,
        "_masked"@.len() == 7,
        "_signed"@ != "_masked"@,
        "_signed"@.last() == 'd',
        "_masked"@.last() == 'd',
{
    reveal_strlit("_signed");
    reveal_strlit("_masked");
    assert("_signed"@[1] == 's');
    assert("_masked"@[1] == 'm');
}

proof fn lemma_without_suffix_of_marked(base: Seq<char>, masked: bool)
    ensures
        without_suffix(output_stem(base, masked, 0)) == Some(base),
{
    lemma_suffix_literals();
    let suffix = if masked {
        "_masked"@
    } else {
        "_signed"@
    };
    let s = base + suffix;
    assert(s.skip(s.len() - 7) =~= suffix);
    assert(s.take(s.len() - 7) =~= base);
}

proof fn lemma_trailing_digits(a: Seq<char>, d: Seq<char>)
    requires
        all_digits(d),
        a.len() > 0,
        !digit(a.last()),
    ensures
        trailing_digits(a + d) == d.len(),
    decreases d.len(),
{
    let s = a + d;
    if d.len() == 0 {
        assert(s =~= a);
    } else {
        assert(s.drop_last() =~= a + d.drop_last());
        assert(s.last() == d.last());
        assert(digit(d[d.len() - 1]));
        lemma_trailing_digits(a, d.drop_last());
    }
}

/// The base of every output name is the base it was made from, whatever that
/// base looks like: saving an output again never piles up suffixes.
pub proof fn output_stem_gives_base_back(base: Seq<char>, masked: bool, n: nat)
    ensures
        base_name(output_stem(base, masked, n)) == base,
{
    lemma_suffix_literals();
    let marked = output_stem(base, masked, 0);
    lemma_without_suffix_of_marked(base, masked);
    if n > 0 {
        let s = output_stem(base, masked, n);
        let d = decimal_text(n);
        decimal_text_reads_back(n);
        assert(s.last() == d[d.len() - 1]);
        assert(digit(s.last()));
        assert(without_suffix(s) is None) by {
            if ends_with(s, "_signed"@) {
                assert(s.skip(s.len() - 7).last() == s.last());
            }
            if ends_with(s, "_masked"@) {
                assert(s.skip(s.len() - 7).last() == s.last());
            }
        }
        lemma_trailing_digits(marked.push('_'), d);
        assert(s.take(s.len() - d.len() - 1) =~= marked);
    }
}

/// No two names tried for one output are the same, so that each try that finds
/// its file taken moves on.
pub proof fn output_stems_differ(base: Seq<char>, masked: bool, m: nat, n: nat)
    requires
        m != n,
    ensures
        output_stem(base, masked, m) != output_stem(base, masked, n),
{
    let a = output_stem(base, masked, m);
    let b = output_stem(base, masked, n);
    let marked = output_stem(base, masked, 0);
    decimal_text_reads_back(m);
    decimal_text_reads_back(n);
    if a == b {
        if m > 0 && n > 0 {
            assert(a.skip(marked.len() as int + 1) =~= decimal_text(m));
            assert(b.skip(marked.len() as int + 1) =~= decimal_text(n));
            decimal_text_is_injective(m, n);
        } else {
            assert(a.len() != b.len());
        }
    }
}

fn has_suffix(chars: &Vec<char>, hi: usize, suffix: &str) -> (r: bool)
    requires
        hi <= chars.len(),
    ensures
        r == ends_with(chars@.take(hi as int), suffix@),
{
    let tail = chars_of(suffix);
    let n = tail.len();
    if hi < n {
        return false;
    }
    let ghost end = chars@.take(hi as int).skip(hi - n);
    let mut i: usize = 0;
    while i < n
        invariant
            n == tail.len(),
            tail@ == suffix@,
            n <= hi <= chars.len(),
            i <= n,
            end == chars@.take(hi as int).skip(hi - n),
            forall|k: int| 0 <= k < i ==> end[k] == tail@[k],
        decreases n - i,
    {
        if chars[hi - n + i] != tail[i] {
            assert(end[i as int] != suffix@[i as int]);
            return false;
        }
        i += 1;
    }
    assert(end =~= suffix@);
    true
}

fn strip_suffix(chars: &Vec<char>, hi: usize) -> (r: Option<usize>)
    requires
        hi <= chars.len(),
    ensures
        r matches Some(n) ==> n <= hi && without_suffix(chars@.take(hi as int)) == Some(
            chars@.take(n as int),
        ),
        r is None ==> without_suffix(chars@.take(hi as int)) is None,
{
    proof {
        lemma_suffix_literals();
    }
    if has_suffix(chars, hi, "_signed") || has_suffix(chars, hi, "_masked") {
        assert(chars@.take(hi as int).take(hi - 7) =~= chars@.take(hi - 7));
        Some(hi - 7)
    } else {
        None
    }
}

proof fn lemma_trailing_digits_at(s: Seq<char>, k: int)
    requires
        0 <= k <= s.len(),
        all_digits(s.skip(k)),
        k > 0 ==> !digit(s[k - 1]),
    ensures
        trailing_digits(s) == s.len() - k,
    decreases s.len() - k,
{
    if k < s.len() {
        assert(digit(s.skip(k)[s.len() - k - 1]));
        assert(s.drop_last().skip(k) =~= s.skip(k).drop_last());
        lemma_trailing_digits_at(s.drop_last(), k);
    }
}

/// Strip a trailing `_signed` or `_masked`, optionally followed by a counter
/// `_<N>`, from a file stem. Everything else is returned unchanged, so that a
/// file that merely holds such a word elsewhere is left alone.
pub fn strip_output_suffix(stem: &str) -> (r: &str)
    ensures
        r@ == base_name(stem@),
{
    let chars = chars_of(stem);
    let len = chars.len();
    assert(stem@.take(len as int) =~= stem@);
    assert(stem@.subrange(0, len as int) =~= stem@);
    if let Some(n) = strip_suffix(&chars, len) {
        assert(stem@.subrange(0, n as int) =~= stem@.take(n as int));
        return stem.substring_char(0, n);
    }
    let mut k: usize = len;
    while k > 0 && is_digit(chars[k - 1])
        invariant
            len == chars.len(),
            k <= len,
            all_digits(chars@.skip(k as int)),
        decreases k,
    {
        assert forall|i: int| 0 <= i < chars@.skip(k - 1).len() implies digit(
            #[trigger] chars@.skip(k - 1)[i],
        ) by {
            if i > 0 {
                assert(chars@.skip(k - 1)[i] == chars@.skip(k as int)[i - 1]);
            }
        }
        k -= 1;
    }
    proof {
        lemma_trailing_digits_at(chars@, k as int);
    }
    if k < len && k > 0 && chars[k - 1] == '_' {
        if let Some(n) = strip_suffix(&chars, k - 1) {
            assert(stem@.subrange(0, n as int) =~= stem@.take(n as int));
            return stem.substring_char(0, n);
        }
    }
    stem.substring_char(0, len)
}

/// The `n`th file name to try for the output of a file with the given stem:
/// `<base>_signed.pdf`, or `<base>_masked.pdf` where something is redacted,
/// then the same with a counter. A file without a stem is called `out`.
pub fn output_file_name(stem: Option<&str>, has_redact: bool, n: u64) -> (r: String)
    ensures
        r@ == output_name(base_of(text_view(stem)), has_redact, n as nat),
{
    let raw = match stem {
        Some(s) => s,
        None => "out",
    };
    let mut r = String::new();
    r.append(strip_output_suffix(raw));
    assert(r@ =~= base_name(raw@));
    r.append(
        if has_redact {
            "_masked"
        } else {
            "_signed"
        },
    );
    if n > 0 {
        r.push('_');
        push_decimal(&mut r, n as u128);
    }
    r.append(".pdf");
    r
}

/// The contents of a list of texts.
pub open spec fn text_views(texts: Seq<String>) -> Seq<Seq<char>> {
    texts.map_values(|t: String| t@)
}

/// The base of the output of a file with a stem; one without is called `out`.
pub open spec fn base_of(stem: Option<Seq<char>>) -> Seq<char> {
    base_name(
        match stem {
            Some(s) => s,
            None => "out"@,
        },
    )
}

/// The `n`th name tried for an output.
pub open spec fn output_name(base: Seq<char>, masked: bool, n: nat) -> Seq<char> {
    output_stem(base, masked, n) + ".pdf"@
}

/// The `n`th name is the first that is not taken.
pub open spec fn first_free_output(
    taken: Seq<Seq<char>>,
    base: Seq<char>,
    masked: bool,
    n: nat,
) -> bool {
    &&& !taken.contains(output_name(base, masked, n))
    &&& forall|m: nat| m < n ==> taken.contains(#[trigger] output_name(base, masked, m))
}

/// No two names tried for one output are the same, with the extension too.
pub proof fn output_names_differ(base: Seq<char>, masked: bool, m: nat, n: nat)
    requires
        m != n,
    ensures
        output_name(base, masked, m) != output_name(base, masked, n),
{
    output_stems_differ(base, masked, m, n);
    let a = output_stem(base, masked, m);
    let b = output_stem(base, masked, n);
    if output_name(base, masked, m) == output_name(base, masked, n) {
        assert((a + ".pdf"@).len() == (b + ".pdf"@).len());
        assert(a =~= output_name(base, masked, m).take(a.len() as int));
        assert(b =~= output_name(base, masked, n).take(b.len() as int));
    }
}

spec fn tried_outputs(base: Seq<char>, masked: bool, n: nat) -> Set<Seq<char>>
    decreases n,
{
    if n == 0 {
        Set::empty()
    } else {
        tried_outputs(base, masked, (n - 1) as nat).insert(
            output_name(base, masked, (n - 1) as nat),
        )
    }
}

proof fn lemma_tried_outputs(base: Seq<char>, masked: bool, n: nat)
    ensures
        tried_outputs(base, masked, n).finite(),
        tried_outputs(base, masked, n).len() == n,
        forall|s: Seq<char>| #[trigger]
            tried_outputs(base, masked, n).contains(s) ==> exists|m: nat|
                m < n && s == #[trigger] output_name(base, masked, m),
    decreases n,
{
    if n > 0 {
        let p = (n - 1) as nat;
        lemma_tried_outputs(base, masked, p);
        assert(!tried_outputs(base, masked, p).contains(output_name(base, masked, p))) by {
            if tried_outputs(base, masked, p).contains(output_name(base, masked, p)) {
                let m = choose|m: nat|
                    m < p && output_name(base, masked, p) == #[trigger] output_name(
                        base,
                        masked,
                        m,
                    );
                output_names_differ(base, masked, m, p);
            }
        }
    }
}

proof fn lemma_output_tries_bounded(
    taken: Seq<Seq<char>>,
    base: Seq<char>,
    masked: bool,
    n: nat,
)
    requires
        forall|m: nat| m < n ==> taken.contains(#[trigger] output_name(base, masked, m)),
    ensures
        n <= taken.len(),
{
    lemma_tried_outputs(base, masked, n);
    taken.lemma_cardinality_of_set();
    vstd::seq_lib::seq_to_set_is_finite(taken);
    assert forall|s: Seq<char>| #[trigger] tried_outputs(base, masked, n).contains(s) implies
        taken.to_set().contains(s) by {
        let m = choose|m: nat| m < n && s == #[trigger] output_name(base, masked, m);
        assert(taken.contains(output_name(base, masked, m)));
    }
    vstd::set_lib::lemma_len_subset(tried_outputs(base, masked, n), taken.to_set());
}

fn is_text_taken(taken: &Vec<String>, name: &str) -> (r: bool)
    ensures
        r == text_views(taken@).contains(name@),
{
    let n = taken.len();
    let chars = chars_of(name);
    let mut i: usize = 0;
    while i < n
        invariant
            n == taken.len(),
            chars@ == name@,
            i <= n,
            forall|k: int| 0 <= k < i ==> taken@[k]@ != name@,
        decreases n - i,
    {
        if same_chars(&chars, taken[i].as_str()) {
            assert(text_views(taken@)[i as int] == name@);
            return true;
        }
        i += 1;
    }
    assert forall|k: int| 0 <= k < text_views(taken@).len() implies text_views(taken@)[k]
        != name@ by {
        assert(taken@[k]@ != name@);
    }
    false
}

/// The first of the names for the output of a file that is not taken: the name without
/// a counter, or else the one with the least counter. No file that is there is touched.
pub fn free_output_name(stem: Option<&str>, has_redact: bool, taken: &Vec<String>) -> (r: String)
    ensures
        exists|n: nat|
            r@ == output_name(base_of(text_view(stem)), has_redact, n) && #[trigger]
                first_free_output(text_views(taken@), base_of(text_view(stem)), has_redact, n),
        !text_views(taken@).contains(r@),
{
    let ghost views = text_views(taken@);
    let ghost base = base_of(text_view(stem));
    let mut n: u64 = 0;
    loop
        invariant
            views == text_views(taken@),
            base == base_of(text_view(stem)),
            n <= taken.len(),
            forall|m: nat| m < n ==> views.contains(#[trigger] output_name(base, has_redact, m)),
        decreases taken.len() - n,
    {
        let name = output_file_name(stem, has_redact, n);
        if !is_text_taken(taken, name.as_str()) {
            assert(first_free_output(views, base, has_redact, n as nat));
            return name;
        }
        proof {
            lemma_output_tries_bounded(views, base, has_redact, (n + 1) as nat);
        }
        n += 1;
    }
}

// ---------------------------------------------------------------------------
// Resource names
// ---------------------------------------------------------------------------

/// The `n`th name tried for a resource, as it stands in a PDF.
pub open spec fn resource_name(prefix: Seq<char>, n: nat) -> Seq<u8> {
    encode_utf8(prefix + decimal_text(n))
}

/// The contents of a list of names.
pub open spec fn name_views(names: Seq<Vec<u8>>) -> Seq<Seq<u8>> {
    names.map_values(|v: Vec<u8>| v@)
}

/// The names that occur in a list.
pub open spec fn name_set(names: Seq<Vec<u8>>) -> Set<Seq<u8>> {
    name_views(names).to_set()
}

/// Different numbers give different resource names.
pub proof fn resource_names_differ(prefix: Seq<char>, m: nat, n: nat)
    requires
        m != n,
    ensures
        resource_name(prefix, m) != resource_name(prefix, n),
{
    encode_utf8_decode_utf8(prefix + decimal_text(m));
    encode_utf8_decode_utf8(prefix + decimal_text(n));
    if resource_name(prefix, m) == resource_name(prefix, n) {
        assert((prefix + decimal_text(m)).skip(prefix.len() as int) =~= decimal_text(m));
        assert((prefix + decimal_text(n)).skip(prefix.len() as int) =~= decimal_text(n));
        decimal_text_is_injective(m, n);
    }
}

/// The number of the first resource name that is not taken.
pub open spec fn first_free(taken: Set<Seq<u8>>, prefix: Seq<char>, n: nat) -> bool {
    &&& n >= 1
    &&& !taken.contains(resource_name(prefix, n))
    &&& forall|m: nat| 1 <= m < n ==> taken.contains(#[trigger] resource_name(prefix, m))
}

/// The first resource name that is not taken.
pub open spec fn free_name(taken: Set<Seq<u8>>, prefix: Seq<char>) -> Seq<char> {
    prefix + decimal_text(choose|n: nat| first_free(taken, prefix, n))
}

spec fn tried_names(prefix: Seq<char>, n: nat) -> Set<Seq<u8>>
    decreases n,
{
    if n == 0 {
        Set::empty()
    } else {
        tried_names(prefix, (n - 1) as nat).insert(resource_name(prefix, n))
    }
}

proof fn lemma_tried_names(prefix: Seq<char>, n: nat)
    ensures
        tried_names(prefix, n).finite(),
        tried_names(prefix, n).len() == n,
        forall|s: Seq<u8>| #[trigger]
            tried_names(prefix, n).contains(s) ==> exists|m: nat|
                1 <= m <= n && s == #[trigger] resource_name(prefix, m),
    decreases n,
{
    if n > 0 {
        let p = (n - 1) as nat;
        lemma_tried_names(prefix, p);
        assert(!tried_names(prefix, p).contains(resource_name(prefix, n))) by {
            if tried_names(prefix, p).contains(resource_name(prefix, n)) {
                let m = choose|m: nat|
                    1 <= m <= p && resource_name(prefix, n) == #[trigger] resource_name(prefix, m);
                resource_names_differ(prefix, m, n);
            }
        }
    }
}

proof fn lemma_tries_bounded(taken: Set<Seq<u8>>, prefix: Seq<char>, n: nat)
    requires
        taken.finite(),
        forall|m: nat| 1 <= m <= n ==> taken.contains(#[trigger] resource_name(prefix, m)),
    ensures
        n <= taken.len(),
{
    lemma_tried_names(prefix, n);
    assert forall|s: Seq<u8>| #[trigger] tried_names(prefix, n).contains(s) implies
        taken.contains(s) by {
        let m = choose|m: nat| 1 <= m <= n && s == #[trigger] resource_name(prefix, m);
        assert(taken.contains(resource_name(prefix, m)));
    }
    vstd::set_lib::lemma_len_subset(tried_names(prefix, n), taken);
}

proof fn lemma_first_free_is_picked(taken: Set<Seq<u8>>, prefix: Seq<char>, n: nat)
    requires
        first_free(taken, prefix, n),
    ensures
        free_name(taken, prefix) == prefix + decimal_text(n),
{
    let c = choose|c: nat| first_free(taken, prefix, c);
    if c < n {
        assert(taken.contains(resource_name(prefix, c)));
    }
    if n < c {
        assert(taken.contains(resource_name(prefix, n)));
    }
}

proof fn lemma_first_free_exists(taken: Set<Seq<u8>>, prefix: Seq<char>, n: nat)
    requires
        taken.finite(),
        n >= 1,
        forall|m: nat| 1 <= m < n ==> taken.contains(#[trigger] resource_name(prefix, m)),
    ensures
        exists|k: nat| first_free(taken, prefix, k),
    decreases taken.len() + 1 - n,
{
    if taken.contains(resource_name(prefix, n)) {
        lemma_tries_bounded(taken, prefix, n);
        lemma_first_free_exists(taken, prefix, n + 1);
    } else {
        assert(first_free(taken, prefix, n));
    }
}

/// A name is always found, it is not among the taken ones, and every name with
/// a smaller number is.
pub proof fn free_name_is_free(taken: Set<Seq<u8>>, prefix: Seq<char>)
    requires
        taken.finite(),
    ensures
        !taken.contains(encode_utf8(free_name(taken, prefix))),
        exists|n: nat| #[trigger]
            first_free(taken, prefix, n) && free_name(taken, prefix) == prefix + decimal_text(n),
{
    lemma_first_free_exists(taken, prefix, 1);
    let n = choose|n: nat| first_free(taken, prefix, n);
    lemma_first_free_is_picked(taken, prefix, n);
}

/// Whether two lists of bytes are equal.
pub fn same_bytes(a: &[u8], b: &[u8]) -> (r: bool)
    ensures
        r == (a@ == b@),
{
    if a.len() != b.len() {
        return false;
    }
    let n = a.len();
    let mut i: usize = 0;
    while i < n
        invariant
            n == a.len(),
            n == b.len(),
            i <= n,
            forall|k: int| 0 <= k < i ==> a@[k] == b@[k],
        decreases n - i,
    {
        if a[i] != b[i] {
            return false;
        }
        i += 1;
    }
    assert(a@ =~= b@);
    true
}

fn is_taken(taken: &Vec<Vec<u8>>, name: &[u8]) -> (r: bool)
    ensures
        r == name_set(taken@).contains(name@),
{
    let n = taken.len();
    let mut i: usize = 0;
    while i < n
        invariant
            n == taken.len(),
            i <= n,
            forall|k: int| 0 <= k < i ==> taken@[k]@ != name@,
        decreases n - i,
    {
        if same_bytes(taken[i].as_slice(), name) {
            assert(name_views(taken@)[i as int] == name@);
            return true;
        }
        i += 1;
    }
    assert forall|k: int| 0 <= k < name_views(taken@).len() implies name_views(taken@)[k]
        != name@ by {
        assert(taken@[k]@ != name@);
    }
    false
}

/// The first of the names `<prefix>1`, `<prefix>2`, ... that is not taken:
/// using a name that the page already has would redefine what its own content
/// refers to.
pub fn pick_free_name(taken: &Vec<Vec<u8>>, prefix: &str) -> (r: String)
    ensures
        r@ == free_name(name_set(taken@), prefix@),
        !name_set(taken@).contains(encode_utf8(r@)),
        exists|n: nat| #[trigger]
            first_free(name_set(taken@), prefix@, n) && r@ == prefix@ + decimal_text(n),
{
    let ghost views = name_set(taken@);
    proof {
        name_views(taken@).lemma_cardinality_of_set();
        vstd::seq_lib::seq_to_set_is_finite(name_views(taken@));
    }
    let mut n: u128 = 1;
    loop
        invariant
            views == name_set(taken@),
            views.finite(),
            views.len() <= taken.len(),
            1 <= n <= views.len() + 1,
            forall|m: nat| 1 <= m < n ==> views.contains(#[trigger] resource_name(prefix@, m)),
        decreases views.len() + 1 - n,
    {
        let mut name = String::new();
        name.append(prefix);
        push_decimal(&mut name, n);
        assert(name@ =~= prefix@ + decimal_text(n as nat));
        if !is_taken(taken, name.as_str().as_bytes()) {
            proof {
                assert(first_free(views, prefix@, n as nat));
                lemma_first_free_is_picked(views, prefix@, n as nat);
            }
            return name;
        }
        proof {
            lemma_tries_bounded(views, prefix@, n as nat);
        }
        n += 1;
    }
}

} // verus!
