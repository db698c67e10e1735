//! Writing overlays into a document.

use image::DynamicImage;
use lopdf::{Document, ObjectId};
use vstd::prelude::*;

use crate::drawing::{
    fault_of, page_written, write_overlays_for_page, SaveError, SaveFault, Written,
};
use crate::font::{font_id, Font};
use crate::intact::{kids_are_counted, numbers_are_counted, output_has_kept_pages};
use crate::objects::{doc_view, DocView};
use crate::overlay::{overlay_views, overlays_bounded, Overlay, OverlayView};
use crate::pages::{
    dropped_pages, is_kept, keep_view, kept, pages_of, pages_to_drop, parse_keep_filter,
};
use crate::pagetree::{
    can_be_taken_out, page_ids, pages_of_doc, pages_taken_out, take_pages_out, tree_of,
};
use crate::pruning::{numbered, without_pages};
use crate::text::trimmed;
use crate::units::in_range;

verus! {

/// The size that a page is taken to have where none is given: A4.
pub const DEFAULT_PAGE_W: i64 = 5_950_000;
pub const DEFAULT_PAGE_H: i64 = 8_420_000;

/// The overlays of every page.
pub open spec fn page_views(pages: Seq<Vec<Overlay>>) -> Seq<Seq<OverlayView>> {
    pages.map_values(|page: Vec<Overlay>| overlay_views(page@))
}

/// The pictures of every page.
pub open spec fn picture_lists(pages: Seq<Vec<Option<DynamicImage>>>) -> Seq<
    Seq<Option<DynamicImage>>,
> {
    pages.map_values(|page: Vec<Option<DynamicImage>>| page@)
}

/// What goes into a document.
pub struct Work {
    pub overlays: Seq<Seq<OverlayView>>,
    pub pictures: Seq<Seq<Option<DynamicImage>>>,
    pub sizes: Seq<(i64, i64)>,
    pub font: Seq<u8>,
}

impl Work {
    /// The overlays of a page; none beyond the last list.
    pub open spec fn overlays_of(self, page: int) -> Seq<OverlayView> {
        if 0 <= page < self.overlays.len() {
            self.overlays[page]
        } else {
            Seq::empty()
        }
    }

    /// The pictures of a page; none beyond the last list.
    pub open spec fn pictures_of(self, page: int) -> Seq<Option<DynamicImage>> {
        if 0 <= page < self.pictures.len() {
            self.pictures[page]
        } else {
            Seq::empty()
        }
    }

    /// The size of a page.
    pub open spec fn size_of(self, page: int) -> (i64, i64) {
        if 0 <= page < self.sizes.len() {
            self.sizes[page]
        } else {
            (DEFAULT_PAGE_W, DEFAULT_PAGE_H)
        }
    }

    /// All coordinates and sizes are in range.
    pub open spec fn wf(self) -> bool {
        &&& forall|i: int| 0 <= i < self.overlays.len() ==> overlays_bounded(#[trigger] self.overlays[i])
        &&& forall|i: int|
            0 <= i < self.sizes.len() ==> in_range((#[trigger] self.sizes[i]).0 as int) && in_range(
                self.sizes[i].1 as int,
            )
    }

    /// A document after one more page has been written, the `n`th. It is passed
    /// over where it is not kept or has no overlays.
    pub open spec fn with_page(
        self,
        before: Written,
        order: Seq<ObjectId>,
        keep: Option<Seq<usize>>,
        n: int,
    ) -> Written {
        let overlays = self.overlays_of(n - 1);
        if !kept(keep, n) || overlays.len() == 0 {
            before
        } else {
            page_written(
                before.doc,
                n - 1,
                order[n - 1],
                self.size_of(n - 1),
                overlays,
                self.pictures_of(n - 1),
                self.font,
                before.font_id,
            )
        }
    }

    /// A document after the first `n` pages have been written, up to the first
    /// that cannot be written.
    pub open spec fn written(
        self,
        doc: DocView,
        order: Seq<ObjectId>,
        keep: Option<Seq<usize>>,
        n: int,
    ) -> Written
        decreases n,
    {
        if n <= 0 {
            Written { doc, font_id: None, fault: None }
        } else {
            let before = self.written(doc, order, keep, n - 1);
            if before.fault is Some {
                before
            } else {
                self.with_page(before, order, keep, n)
            }
        }
    }

    /// A document after everything has been written and the pages that are not
    /// kept have been taken out.
    pub open spec fn saved(self, doc: DocView, filter: Seq<char>) -> (DocView, Option<SaveFault>) {
        let order = pages_of_doc(doc);
        match keep_of(filter, order.len() as int) {
            Err(text) => (doc, Some(SaveFault::Filter(text))),
            Ok(keep) => {
                let written = self.written(doc, order, keep, order.len() as int);
                let dropped = dropped_pages(keep, (order.len() as u32) as int);
                if written.fault is Some || dropped.len() == 0 {
                    (written.doc, written.fault)
                } else if can_be_taken_out(written.doc, dropped) {
                    (without_pages(written.doc, dropped), None)
                } else {
                    (written.doc, Some(SaveFault::PageTree))
                }
            },
        }
    }
}

impl Work {
    /// The objects of the pages that are not kept.
    pub open spec fn dropped_objects(self, doc: DocView, filter: Seq<char>) -> Set<ObjectId> {
        let order = pages_of_doc(doc);
        match keep_of(filter, order.len() as int) {
            Err(_) => Set::empty(),
            Ok(keep) => numbered(
                pages_of_doc(self.written(doc, order, keep, order.len() as int).doc),
                dropped_pages(keep, (order.len() as u32) as int),
            ).to_set(),
        }
    }

    /// Of what was written, `after` has all but the pages that are not kept: their
    /// objects and the references to them.
    pub open spec fn leaves_kept_pages(
        self,
        doc: DocView,
        filter: Seq<char>,
        after: DocView,
    ) -> bool {
        let order = pages_of_doc(doc);
        match keep_of(filter, order.len() as int) {
            Err(_) => false,
            Ok(keep) => {
                let written = self.written(doc, order, keep, order.len() as int);
                let dropped = dropped_pages(keep, (order.len() as u32) as int);
                if dropped.len() == 0 {
                    after == written.doc
                } else {
                    pages_taken_out(written.doc, after, dropped)
                }
            },
        }
    }
}

/// The pages of a list that are kept, in their order.
pub open spec fn kept_pages(order: Seq<ObjectId>, keep: Option<Seq<usize>>) -> Seq<ObjectId>
    decreases order.len(),
{
    if order.len() == 0 {
        Seq::empty()
    } else {
        let front = kept_pages(order.drop_last(), keep);
        if kept(keep, order.len() as int) {
            front.push(order.last())
        } else {
            front
        }
    }
}

/// The pages of the output are the kept pages of the source, in the order of the source,
/// wherever the page tree of the source is in order, and its object numbers and those that
/// the tree refers to are counted.
pub open spec fn has_kept_pages(doc: DocView, filter: Seq<char>, after: DocView) -> bool {
    let order = pages_of_doc(doc);
    tree_of(doc.trailer, doc.objects) is Some && numbers_are_counted(doc) && kids_are_counted(doc)
        && order.len() <= u32::MAX ==> match keep_of(filter, order.len() as int) {
        Ok(keep) => pages_of_doc(after) == kept_pages(order, keep),
        Err(_) => false,
    }
}

/// The pages that a filter keeps of `total`: all where it is blank. It fails
/// with its text where it selects none.
pub open spec fn keep_of(filter: Seq<char>, total: int) -> Result<Option<Seq<usize>>, Seq<char>> {
    let text = trimmed(filter);
    if text.len() == 0 {
        Ok(None)
    } else if pages_of(text, total).len() == 0 {
        Err(text)
    } else {
        Ok(Some(pages_of(text, total)))
    }
}

/// Once writing a page has failed, nothing more is written.
proof fn lemma_writing_stops(
    work: Work,
    doc: DocView,
    order: Seq<ObjectId>,
    keep: Option<Seq<usize>>,
    m: int,
    n: int,
)
    requires
        0 <= m <= n,
        work.written(doc, order, keep, m).fault is Some,
    ensures
        work.written(doc, order, keep, n) == work.written(doc, order, keep, m),
    decreases n - m,
{
    if m < n {
        lemma_writing_stops(work, doc, order, keep, m, n - 1);
    }
}

/// What goes into a document, as it is given.
pub open spec fn work_of(
    overlays_per_page: Seq<Vec<Overlay>>,
    pictures_per_page: Seq<Vec<Option<DynamicImage>>>,
    sizes: Seq<(i64, i64)>,
    font: Seq<u8>,
) -> Work {
    Work {
        overlays: page_views(overlays_per_page),
        pictures: picture_lists(pictures_per_page),
        sizes,
        font,
    }
}

#[verifier::rlimit(40)]
fn write_page(
    doc: &mut Document,
    order: &Vec<ObjectId>,
    keep: &Option<Vec<usize>>,
    overlays_per_page: &Vec<Vec<Overlay>>,
    pictures_per_page: &Vec<Vec<Option<DynamicImage>>>,
    page_size_pt: &Vec<(i64, i64)>,
    font: &Font,
    i: usize,
    known_font: &mut Option<ObjectId>,
) -> (r: Result<(), SaveError>)
    requires
        i < order.len(),
        work_of(overlays_per_page@, pictures_per_page@, page_size_pt@, font.data()).wf(),
    ensures
        work_of(overlays_per_page@, pictures_per_page@, page_size_pt@, font.data()).with_page(
            (Written { doc: doc_view(*old(doc)), font_id: *old(known_font), fault: None }),
            order@,
            keep_view(*keep),
            i + 1,
        ) == (Written {
            doc: doc_view(*final(doc)),
            font_id: *final(known_font),
            fault: fault_of(r),
        }),
{
    let ghost work = work_of(
        overlays_per_page@,
        pictures_per_page@,
        page_size_pt@,
        font.data(),
    );
    if i >= overlays_per_page.len() || !is_kept(keep, i + 1) {
        return Ok(());
    }
    let overlays = &overlays_per_page[i];
    assert(work.overlays[i as int] == overlay_views(overlays@));
    if overlays.len() == 0 {
        return Ok(());
    }
    let no_pictures: Vec<Option<DynamicImage>> = Vec::new();
    let pictures = if i < pictures_per_page.len() {
        &pictures_per_page[i]
    } else {
        &no_pictures
    };
    assert(pictures@ =~= work.pictures_of(i as int));
    let size = if i < page_size_pt.len() {
        page_size_pt[i]
    } else {
        (DEFAULT_PAGE_W, DEFAULT_PAGE_H)
    };
    write_overlays_for_page(doc, i, order[i], size, overlays, pictures, font, known_font)
}

fn write_pages(
    doc: &mut Document,
    order: &Vec<ObjectId>,
    keep: &Option<Vec<usize>>,
    overlays_per_page: &Vec<Vec<Overlay>>,
    pictures_per_page: &Vec<Vec<Option<DynamicImage>>>,
    page_size_pt: &Vec<(i64, i64)>,
    font: &Font,
) -> (r: Result<(), SaveError>)
    requires
        work_of(overlays_per_page@, pictures_per_page@, page_size_pt@, font.data()).wf(),
    ensures
        ({
            let after = work_of(
                overlays_per_page@,
                pictures_per_page@,
                page_size_pt@,
                font.data(),
            ).written(doc_view(*old(doc)), order@, keep_view(*keep), order@.len() as int);
            after.doc == doc_view(*final(doc)) && after.fault == fault_of(r)
        }),
{
    let ghost work = work_of(
        overlays_per_page@,
        pictures_per_page@,
        page_size_pt@,
        font.data(),
    );
    let ghost start = doc_view(*doc);
    let total = order.len();
    let mut known_font: Option<ObjectId> = None;
    let mut i: usize = 0;
    while i < total
        invariant
            total == order.len(),
            i <= total,
            work == work_of(overlays_per_page@, pictures_per_page@, page_size_pt@, font.data()),
            work.wf(),
            start == doc_view(*old(doc)),
            work.written(start, order@, keep_view(*keep), i as int) == (Written {
                doc: doc_view(*doc),
                font_id: known_font,
                fault: None,
            }),
        decreases total - i,
    {
        match write_page(
            doc,
            order,
            keep,
            overlays_per_page,
            pictures_per_page,
            page_size_pt,
            font,
            i,
            &mut known_font,
        ) {
            Ok(_) => {},
            Err(e) => {
                proof {
                    lemma_writing_stops(
                        work,
                        start,
                        order@,
                        keep_view(*keep),
                        i + 1,
                        total as int,
                    );
                }
                return Err(e);
            },
        }
        i += 1;
    }
    Ok(())
}

/// Write the overlays of all pages into a document. A filter such as `1-3,5`
/// keeps only those pages; a blank one keeps all. Pictures are given beside the
/// overlays that show them; one that is needed and missing is an error.
#[verifier::rlimit(40)]
pub fn save(
    doc: &mut Document,
    overlays_per_page: &Vec<Vec<Overlay>>,
    pictures_per_page: &Vec<Vec<Option<DynamicImage>>>,
    page_size_pt: &Vec<(i64, i64)>,
    pages_filter: &str,
    font: &Font,
) -> (r: Result<(), SaveError>)
    requires
        work_of(overlays_per_page@, pictures_per_page@, page_size_pt@, font.data()).wf(),
    ensures
        work_of(overlays_per_page@, pictures_per_page@, page_size_pt@, font.data()).saved(
            doc_view(*old(doc)),
            pages_filter@,
        ) == (doc_view(*final(doc)), fault_of(r)),
        r is Ok ==> work_of(
            overlays_per_page@,
            pictures_per_page@,
            page_size_pt@,
            font.data(),
        ).leaves_kept_pages(doc_view(*old(doc)), pages_filter@, doc_view(*final(doc))),
        r is Ok ==> has_kept_pages(doc_view(*old(doc)), pages_filter@, doc_view(*final(doc))),
{
    let ghost work = work_of(
        overlays_per_page@,
        pictures_per_page@,
        page_size_pt@,
        font.data(),
    );
    let order = page_ids(doc);
    let total = order.len();
    let keep = match parse_keep_filter(pages_filter, total) {
        Ok(keep) => keep,
        Err(e) => return Err(SaveError::Filter(e)),
    };
    assert(keep_of(pages_filter@, total as int) == Ok::<Option<Seq<usize>>, Seq<char>>(
        keep_view(keep),
    ));
    match write_pages(
        doc,
        &order,
        &keep,
        overlays_per_page,
        pictures_per_page,
        page_size_pt,
        font,
    ) {
        Ok(_) => {},
        Err(e) => return Err(e),
    }
    let total: u32 = #[verifier::truncate]
    (total as u32);
    let dropped = pages_to_drop(&keep, total);
    if dropped.len() > 0 {
        if !take_pages_out(doc, &dropped) {
            return Err(SaveError::PageTree);
        }
    }
    proof {
        output_has_kept_pages(
            work,
            doc_view(*old(doc)),
            keep_view(keep),
            doc_view(*doc),
        );
    }
    Ok(())
}

} // verus!
