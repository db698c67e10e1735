//! The page filter: texts such as `1-3,5` and the pages that they keep.

use vstd::prelude::*;

use crate::text::{
    chars_of, number_of, parse_number, part_views, parts_of, split, split_first, split_once,
    string_of, trim, trimmed,
};

verus! {

/// `out` with page `p` added, unless the document has no such page or it is
/// already there.
pub open spec fn with_page(out: Seq<usize>, p: int, total: int) -> Seq<usize> {
    if 1 <= p <= total && !out.contains(p as usize) {
        out.push(p as usize)
    } else {
        out
    }
}

/// `out` with the pages `lo..=hi` added in ascending order.
pub open spec fn with_range(out: Seq<usize>, lo: int, hi: int, total: int) -> Seq<usize>
    decreases hi - lo + 1,
{
    if lo > hi {
        out
    } else {
        with_page(with_range(out, lo, hi - 1, total), hi, total)
    }
}

/// The range that one part of a filter names: `n`, or `a-b` in either order.
/// Anything else, an empty part included, names nothing.
pub open spec fn range_of(part: Seq<char>) -> Option<(nat, nat)> {
    let p = trimmed(part);
    if p.len() == 0 {
        None
    } else {
        match split_first(p, '-') {
            Some((a, b)) => match (number_of(trimmed(a)), number_of(trimmed(b))) {
                (Some(a), Some(b)) => if a <= b {
                    Some((a, b))
                } else {
                    Some((b, a))
                },
                _ => None,
            },
            None => match number_of(p) {
                Some(n) => Some((n, n)),
                None => None,
            },
        }
    }
}

/// The pages that a list of parts selects, in the order of their first
/// mention.
pub open spec fn pages_of_parts(parts: Seq<Seq<char>>, total: int) -> Seq<usize>
    decreases parts.len(),
{
    if parts.len() == 0 {
        seq![]
    } else {
        let front = pages_of_parts(parts.drop_last(), total);
        match range_of(parts.last()) {
            Some((lo, hi)) => with_range(front, lo as int, hi as int, total),
            None => front,
        }
    }
}

/// The pages that a filter selects in a document of `total` pages.
pub open spec fn pages_of(s: Seq<char>, total: int) -> Seq<usize> {
    pages_of_parts(parts_of(s, ','), total)
}

/// One of the parts names a range that holds page `p`.
pub open spec fn mentioned(parts: Seq<Seq<char>>, p: int) -> bool {
    exists|i: int|
        0 <= i < parts.len() && (range_of(#[trigger] parts[i]) matches Some((lo, hi)) && lo <= p
            <= hi)
}

proof fn lemma_with_range(out: Seq<usize>, lo: int, hi: int, total: int)
    requires
        out.no_duplicates(),
        forall|i: int| 0 <= i < out.len() ==> 1 <= #[trigger] out[i] <= total,
        0 <= total <= usize::MAX,
    ensures
        ({
            let r = with_range(out, lo, hi, total);
            &&& r.no_duplicates()
            &&& forall|i: int| 0 <= i < r.len() ==> 1 <= #[trigger] r[i] <= total
            &&& forall|p: usize| #[trigger]
                r.contains(p) <==> out.contains(p) || (1 <= p <= total && lo <= p <= hi)
        }),
    decreases hi - lo + 1,
{
    if lo <= hi {
        lemma_with_range(out, lo, hi - 1, total);
        let before = with_range(out, lo, hi - 1, total);
        let r = with_range(out, lo, hi, total);
        assert forall|p: usize| #[trigger]
            r.contains(p) <==> out.contains(p) || (1 <= p <= total && lo <= p <= hi) by {
            if 1 <= hi <= total && !before.contains(hi as usize) {
                assert(r == before.push(hi as usize));
                assert(r[r.len() - 1] == hi as usize);
                if before.contains(p) {
                    let i = choose|i: int| 0 <= i < before.len() && before[i] == p;
                    assert(r[i] == p);
                }
                if r.contains(p) {
                    let i = choose|i: int| 0 <= i < r.len() && r[i] == p;
                    if i < before.len() {
                        assert(before[i] == p);
                    }
                }
            }
        }
    }
}

proof fn lemma_pages_of_parts(parts: Seq<Seq<char>>, total: int)
    requires
        0 <= total <= usize::MAX,
    ensures
        ({
            let r = pages_of_parts(parts, total);
            &&& r.no_duplicates()
            &&& forall|i: int| 0 <= i < r.len() ==> 1 <= #[trigger] r[i] <= total
            &&& forall|p: usize| #[trigger]
                r.contains(p) <==> 1 <= p <= total && mentioned(parts, p as int)
        }),
    decreases parts.len(),
{
    if parts.len() > 0 {
        let front_parts = parts.drop_last();
        let front = pages_of_parts(front_parts, total);
        lemma_pages_of_parts(front_parts, total);
        if let Some((lo, hi)) = range_of(parts.last()) {
            lemma_with_range(front, lo as int, hi as int, total);
        }
        let r = pages_of_parts(parts, total);
        assert forall|p: usize| #[trigger]
            r.contains(p) <==> 1 <= p <= total && mentioned(parts, p as int) by {
            assert(front.contains(p) <==> 1 <= p <= total && mentioned(front_parts, p as int));
            if mentioned(front_parts, p as int) {
                let i = choose|i: int|
                    0 <= i < front_parts.len() && (range_of(#[trigger] front_parts[i]) matches Some(
                        (lo, hi),
                    ) && lo <= p <= hi);
                assert(parts[i] == front_parts[i]);
                assert(mentioned(parts, p as int));
            }
            if mentioned(parts, p as int) {
                let i = choose|i: int|
                    0 <= i < parts.len() && (range_of(#[trigger] parts[i]) matches Some((lo, hi))
                        && lo <= p <= hi);
                if i < front_parts.len() {
                    assert(front_parts[i] == parts[i]);
                    assert(mentioned(front_parts, p as int));
                }
            }
            if range_of(parts.last()) matches Some((lo, hi)) && lo <= p <= hi {
                assert(parts[parts.len() - 1] == parts.last());
                assert(mentioned(parts, p as int));
            }
        }
    }
}

/// A filter selects exactly those pages of the document that one of its parts
/// mentions, each once.
pub proof fn filter_selects_mentioned_pages(s: Seq<char>, total: int)
    requires
        0 <= total <= usize::MAX,
    ensures
        pages_of(s, total).no_duplicates(),
        forall|p: usize| #[trigger]
            pages_of(s, total).contains(p) <==> 1 <= p <= total && mentioned(
                parts_of(s, ','),
                p as int,
            ),
{
    lemma_pages_of_parts(parts_of(s, ','), total);
}

proof fn lemma_with_range_clipped(out: Seq<usize>, lo: int, hi: int, total: int)
    requires
        0 <= lo,
    ensures
        with_range(out, lo, hi, total) == with_range(
            out,
            if lo < 1 {
                1
            } else {
                lo
            },
            if hi > total {
                total
            } else {
                hi
            },
            total,
        ),
    decreases hi - lo + 1,
{
    if lo <= hi {
        lemma_with_range_clipped(out, lo, hi - 1, total);
    }
}

fn contains_page(pages: &Vec<usize>, p: usize) -> (r: bool)
    ensures
        r == pages@.contains(p),
{
    let n = pages.len();
    let mut i: usize = 0;
    while i < n
        invariant
            n == pages.len(),
            i <= n,
            forall|k: int| 0 <= k < i ==> pages@[k] != p,
        decreases n - i,
    {
        if pages[i] == p {
            assert(pages@[i as int] == p);
            return true;
        }
        i += 1;
    }
    false
}

fn push_range(out: &mut Vec<usize>, lo: usize, hi: usize, total: usize)
    ensures
        final(out)@ == with_range(old(out)@, lo as int, hi as int, total as int),
{
    proof {
        lemma_with_range_clipped(out@, lo as int, hi as int, total as int);
    }
    let first = if lo < 1 {
        1
    } else {
        lo
    };
    let last = if hi > total {
        total
    } else {
        hi
    };
    if first > last {
        return;
    }
    let mut p: usize = first;
    loop
        invariant_except_break
            out@ == with_range(old(out)@, first as int, p - 1, total as int),
        invariant
            first <= p <= last,
            1 <= first,
            last <= total,
        ensures
            out@ == with_range(old(out)@, first as int, last as int, total as int),
        decreases last - p,
    {
        if !contains_page(out, p) {
            out.push(p);
        }
        if p == last {
            break;
        }
        p += 1;
    }
}

fn parse_range(part: &Vec<char>) -> (r: Option<(usize, usize)>)
    ensures
        r matches Some((lo, hi)) ==> range_of(part@) == Some((lo as nat, hi as nat)),
        r is None ==> range_of(part@) is None,
{
    let p = trim(part);
    if p.len() == 0 {
        return None;
    }
    match split_once(&p, '-') {
        Some((a, b)) => match (parse_number(&trim(&a)), parse_number(&trim(&b))) {
            (Some(a), Some(b)) => if a <= b {
                Some((a, b))
            } else {
                Some((b, a))
            },
            _ => None,
        },
        None => match parse_number(&p) {
            Some(n) => Some((n, n)),
            None => None,
        },
    }
}

/// The pages that a filter selects in a document of `total` pages, each once
/// and in the order of their first mention. Parts that name no range are
/// skipped.
pub fn parse_page_range(s: &str, total: usize) -> (r: Vec<usize>)
    ensures
        r@ == pages_of(s@, total as int),
{
    let parts = split(&chars_of(s), ',');
    let ghost views = part_views(parts@);
    let mut out: Vec<usize> = Vec::new();
    let n = parts.len();
    let mut i: usize = 0;
    assert(views.take(0) =~= seq![]);
    while i < n
        invariant
            n == parts.len(),
            i <= n,
            views == part_views(parts@),
            out@ == pages_of_parts(views.take(i as int), total as int),
        decreases n - i,
    {
        assert(views.take(i + 1).drop_last() =~= views.take(i as int));
        assert(views.take(i + 1).last() == parts[i as int]@);
        if let Some((lo, hi)) = parse_range(&parts[i]) {
            push_range(&mut out, lo, hi, total);
        }
        i += 1;
    }
    assert(views.take(n as int) =~= views);
    out
}

/// A filter that selects no page; it holds the trimmed filter text.
pub struct NoPagesSelected {
    pub filter: String,
}

impl NoPagesSelected {
    /// The message shown for this error.
    pub fn message(&self) -> (r: String)
        ensures
            r@ == "Pages filter '"@ + self.filter@ + "' selects no pages"@,
    {
        let mut r = String::new();
        r.append("Pages filter '");
        r.append(self.filter.as_str());
        r.append("' selects no pages");
        r
    }
}

/// The pages to keep: `None` keeps all of them, for a filter without anything
/// but white space. A filter that selects no page is an error.
pub fn parse_keep_filter(filter: &str, total: usize) -> (r: Result<
    Option<Vec<usize>>,
    NoPagesSelected,
>)
    ensures
        trimmed(filter@).len() == 0 <==> r matches Ok(None),
        r matches Ok(Some(keep)) ==> keep@ == pages_of(trimmed(filter@), total as int)
            && keep@.len() > 0,
        r matches Err(e) ==> e.filter@ == trimmed(filter@) && pages_of(
            trimmed(filter@),
            total as int,
        ).len() == 0,
{
    let t = trim(&chars_of(filter));
    if t.len() == 0 {
        return Ok(None);
    }
    let t = string_of(&t);
    let keep = parse_page_range(t.as_str(), total);
    if keep.len() == 0 {
        return Err(NoPagesSelected { filter: t });
    }
    Ok(Some(keep))
}

/// Page `p` is kept.
pub open spec fn kept(keep: Option<Seq<usize>>, p: int) -> bool
    recommends
        0 <= p <= usize::MAX,
{
    match keep {
        None => true,
        Some(pages) => pages.contains(p as usize),
    }
}

/// The numbers of the first `total` pages that are not kept, ascending.
pub open spec fn dropped_pages(keep: Option<Seq<usize>>, total: int) -> Seq<u32>
    decreases total,
{
    if total <= 0 {
        seq![]
    } else {
        let front = dropped_pages(keep, total - 1);
        if kept(keep, total) {
            front
        } else {
            front.push(total as u32)
        }
    }
}

/// A page of the document is dropped exactly when it is not kept.
pub proof fn pages_are_kept_or_dropped(keep: Option<Seq<usize>>, total: int)
    requires
        0 <= total <= u32::MAX,
    ensures
        forall|p: u32| #[trigger]
            dropped_pages(keep, total).contains(p) <==> 1 <= p <= total && !kept(keep, p as int),
        keep is None ==> dropped_pages(keep, total).len() == 0,
    decreases total,
{
    if total > 0 {
        pages_are_kept_or_dropped(keep, total - 1);
        let front = dropped_pages(keep, total - 1);
        let r = dropped_pages(keep, total);
        assert forall|p: u32| #[trigger]
            r.contains(p) <==> 1 <= p <= total && !kept(keep, p as int) by {
            assert(front.contains(p) <==> 1 <= p <= total - 1 && !kept(keep, p as int));
            if !kept(keep, total) {
                assert(r[r.len() - 1] == total as u32);
                if front.contains(p) {
                    let i = choose|i: int| 0 <= i < front.len() && front[i] == p;
                    assert(r[i] == p);
                }
                if r.contains(p) {
                    let i = choose|i: int| 0 <= i < r.len() && r[i] == p;
                    if i < front.len() {
                        assert(front[i] == p);
                    }
                }
            }
        }
    }
}

/// The contents of a list of pages to keep.
pub open spec fn keep_view(keep: Option<Vec<usize>>) -> Option<Seq<usize>> {
    match keep {
        Some(v) => Some(v@),
        None => None,
    }
}

/// Whether page `p` is kept.
pub fn is_kept(keep: &Option<Vec<usize>>, p: usize) -> (r: bool)
    ensures
        r == kept(keep_view(*keep), p as int),
{
    match keep {
        None => true,
        Some(pages) => contains_page(pages, p),
    }
}

/// The numbers of the pages to delete from a document of `total` pages.
pub fn pages_to_drop(keep: &Option<Vec<usize>>, total: u32) -> (r: Vec<u32>)
    ensures
        r@ == dropped_pages(keep_view(*keep), total as int),
{
    let mut r: Vec<u32> = Vec::new();
    let mut p: u32 = 0;
    while p < total
        invariant
            p <= total,
            r@ == dropped_pages(keep_view(*keep), p as int),
        decreases total - p,
    {
        p += 1;
        if !is_kept(keep, p as usize) {
            r.push(p);
        }
    }
    r
}

} // verus!
