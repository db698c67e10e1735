//! What writing overlays leaves as it was, and what it is sure to write.

use image::DynamicImage;
use lopdf::{Dictionary, ObjectId};
use vstd::prelude::*;
use vstd::utf8::encode_utf8;

use crate::content::{image_ops, redact_ops, text_ops};
use crate::drawing::{
    blank, context_of, glyph_lines, overlay_stream, page_written, picture_at, with_pictures,
    DrawContext, Drawing, SaveFault,
};
use crate::font::{font_file, font_id, metrics_of, type0_font, with_font, Font};
use crate::names::{free_name, free_name_is_free};
use crate::objects::{key, lemma_keys_differ, resolve_within, resolved, DocView, Fault, PdfValue};
use crate::overlay::OverlayView;
use crate::pagedict::{
    content_parts, dict_like, entry, entry_changes_nothing_else, lemma_parts_with_new,
    lemma_resolve_with_change, lemma_resolve_with_new, lemma_resolved_is_there, page_resources,
    plain_stream, resource_keys, sandwich, with_entry, with_overlay, with_resource,
};
use crate::pages::{dropped_pages, kept, pages_are_kept_or_dropped};
use crate::pagetree::{leads_to_dict, pages_found, pages_of_doc, pages_taken_out, tree_of, without};
use crate::picture::{
    alpha_of, has_room, image_entries, image_object, image_rgba, picture_entries, rgb_of,
    translucent, with_image, with_mask, zlib,
};
use crate::pruning::{
    kept_pages_survive, lemma_same_tree, lemma_tree_pages_found, mentions, missing_stay, numbered,
    same_but_count, same_nodes, same_tree_entries, trailer_survives,
};
use crate::save::{keep_of, kept_pages, Work};

verus! {

/// No object has a number above the one that a document counts from, so that
/// every new object gets a number of its own.
pub open spec fn numbers_are_counted(doc: DocView) -> bool {
    forall|id: ObjectId| #[trigger] doc.objects.dom().contains(id) ==> id.0 <= doc.max_id
}

/// No item of the page tree that is passed over refers to a number above the one that
/// a document counts from, so that no new object is ever found there.
pub open spec fn kids_are_counted(doc: DocView) -> bool {
    tree_of(doc.trailer, doc.objects) matches Some(tree) ==> forall|i: int|
        0 <= i < tree.below.others.len() && (#[trigger] tree.below.others[i]) is Reference
            ==> tree.below.others[i]->Reference_0.0 <= doc.max_id
}

/// The entries of a page that writing overlays can change.
pub open spec fn is_written_key(k: Seq<u8>) -> bool {
    k == key("Contents"@) || k == key("Resources"@)
}

/// Between two states of a document nothing was lost: every object but the page
/// is still there unchanged, and of the page every entry but its content and its
/// resources.
pub open spec fn only_page_written(before: DocView, after: DocView, page_id: ObjectId) -> bool {
    &&& numbers_are_counted(after)
    &&& before.max_id <= after.max_id
    &&& before.trailer == after.trailer
    &&& resolved(after.objects, page_id) == resolved(before.objects, page_id)
    &&& before.dict_at(page_id) is Ok
    &&& after.dict_at(page_id) is Ok
    &&& forall|k: Seq<u8>|
        !is_written_key(k) ==> #[trigger] entry(after.dict_at(page_id)->Ok_0, k) == entry(
            before.dict_at(page_id)->Ok_0,
            k,
        )
    &&& forall|id: ObjectId| #[trigger]
        before.objects.dom().contains(id) ==> after.objects.dom().contains(id) && (resolved(
            before.objects,
            page_id,
        ) != Ok::<ObjectId, Fault>(id) ==> after.objects[id] == before.objects[id])
    &&& new_numbers_follow(before, after)
}

/// Every object that came between two states of a document has a number above the one
/// that the document counted from.
pub open spec fn new_numbers_follow(before: DocView, after: DocView) -> bool {
    forall|id: ObjectId| #[trigger]
        after.objects.dom().contains(id) && !before.objects.dom().contains(id) ==> id.0
            > before.max_id
}

/// The streams that the content of a page consists of.
pub open spec fn page_parts(doc: DocView, page_id: ObjectId) -> Seq<PdfValue> {
    content_parts(doc.objects, doc.dict_at(page_id)->Ok_0)
}

pub(crate) proof fn lemma_added(before: DocView, doc: DocView, page_id: ObjectId, value: PdfValue)
    requires
        only_page_written(before, doc, page_id),
        doc.max_id < u32::MAX,
        !(value is Reference),
        !(value is Array),
    ensures
        only_page_written(before, doc.added(value), page_id),
        doc.added(value).dict_at(page_id) == doc.dict_at(page_id),
        page_parts(doc.added(value), page_id) == page_parts(doc, page_id),
{
    let after = doc.added(value);
    assert(!doc.objects.dom().contains(doc.next_id()));
    lemma_resolve_with_new(doc.objects, page_id, 129, doc.next_id(), value);
    lemma_resolved_is_there(doc.objects, page_id, 129);
    lemma_parts_with_new(doc.objects, doc.dict_at(page_id)->Ok_0, doc.next_id(), value);
}

pub(crate) proof fn lemma_entered(
    before: DocView,
    doc: DocView,
    page_id: ObjectId,
    k: Seq<u8>,
    value: PdfValue,
)
    requires
        only_page_written(before, doc, page_id),
        is_written_key(k),
    ensures
        with_entry(doc, page_id, k, value) matches Ok(after) && only_page_written(
            before,
            after,
            page_id,
        ) && after.dict_at(page_id) == Ok::<Map<Seq<u8>, PdfValue>, Fault>(
            doc.dict_at(page_id)->Ok_0.insert(k, value),
        ) && after.max_id == doc.max_id,
{
    entry_changes_nothing_else(doc, page_id, k, value);
    lemma_resolved_is_there(doc.objects, page_id, 129);
    let at = resolved(doc.objects, page_id)->Ok_0;
    let changed = with_entry(doc, page_id, k, value)->Ok_0.objects[at];
    lemma_resolve_with_change(doc.objects, page_id, 129, at, changed);
    let after = with_entry(doc, page_id, k, value)->Ok_0;
    assert(after.objects =~= doc.objects.insert(at, changed));
    assert(resolved(after.objects, page_id) == resolved(doc.objects, page_id));
    assert forall|j: Seq<u8>| !is_written_key(j) implies #[trigger] entry(
        after.dict_at(page_id)->Ok_0,
        j,
    ) == entry(before.dict_at(page_id)->Ok_0, j) by {
        assert(entry(doc.dict_at(page_id)->Ok_0, j) == entry(before.dict_at(page_id)->Ok_0, j));
    }
    assert forall|id: ObjectId| #[trigger] before.objects.dom().contains(id) implies
        after.objects.dom().contains(id) && (resolved(before.objects, page_id) != Ok::<
        ObjectId,
        Fault,
    >(id) ==> after.objects[id] == before.objects[id]) by {
        assert(doc.objects.dom().contains(id));
    }
    assert(numbers_are_counted(after)) by {
        assert forall|id: ObjectId| #[trigger] after.objects.dom().contains(id) implies id.0
            <= after.max_id by {
            assert(doc.objects.dom().contains(id));
        }
    }
}

pub(crate) proof fn lemma_resource_entered(
    before: DocView,
    doc: DocView,
    page_id: ObjectId,
    res_type: Seq<u8>,
    name: Seq<u8>,
    id: ObjectId,
)
    requires
        only_page_written(before, doc, page_id),
        with_resource(doc, page_id, res_type, name, id) is Ok,
    ensures
        only_page_written(
            before,
            with_resource(doc, page_id, res_type, name, id)->Ok_0,
            page_id,
        ),
        entry(
            with_resource(doc, page_id, res_type, name, id)->Ok_0.dict_at(page_id)->Ok_0,
            key("Contents"@),
        ) == entry(doc.dict_at(page_id)->Ok_0, key("Contents"@)),
{
    let resources = page_resources(doc, page_id)->Ok_0;
    let sub = dict_like(doc, entry(resources, res_type))->Ok_0;
    lemma_contents_is_no_resource();
    lemma_entered(
        before,
        doc,
        page_id,
        key("Resources"@),
        PdfValue::Dictionary(
            resources.insert(
                res_type,
                PdfValue::Dictionary(sub.insert(name, PdfValue::Reference(id))),
            ),
        ),
    );
}

proof fn lemma_contents_is_no_resource()
    ensures
        key("Contents"@) != key("Resources"@),
{
    reveal_strlit("Contents");
    reveal_strlit("Resources");
    lemma_keys_differ("Contents"@, "Resources"@);
}

pub(crate) proof fn lemma_pictures_entered(
    before: DocView,
    doc: DocView,
    page_id: ObjectId,
    pictures: Seq<(Seq<char>, ObjectId)>,
)
    requires
        only_page_written(before, doc, page_id),
    ensures
        only_page_written(before, with_pictures(doc, page_id, pictures).0, page_id),
        entry(
            with_pictures(doc, page_id, pictures).0.dict_at(page_id)->Ok_0,
            key("Contents"@),
        ) == entry(doc.dict_at(page_id)->Ok_0, key("Contents"@)),
    decreases pictures.len(),
{
    if pictures.len() > 0 {
        lemma_pictures_entered(before, doc, page_id, pictures.drop_last());
        let (mid, fault) = with_pictures(doc, page_id, pictures.drop_last());
        let (name, id) = pictures.last();
        if fault is None && with_resource(
            mid,
            page_id,
            key("XObject"@),
            encode_utf8(name),
            id,
        ) is Ok {
            lemma_resource_entered(
                before,
                mid,
                page_id,
                key("XObject"@),
                encode_utf8(name),
                id,
            );
        }
    }
}

proof fn lemma_picture_added(
    before: DocView,
    doc: DocView,
    page_id: ObjectId,
    w: u32,
    h: u32,
    pixels: Seq<[u8; 4]>,
)
    requires
        only_page_written(before, doc, page_id),
    ensures
        only_page_written(before, with_image(doc, w, h, pixels).0, page_id),
        with_image(doc, w, h, pixels).0.dict_at(page_id) == doc.dict_at(page_id),
        page_parts(with_image(doc, w, h, pixels).0, page_id) == page_parts(doc, page_id),
{
    if !has_room(doc, pixels) {
    } else if let Some((doc1, mask)) = with_mask(doc, w, h, pixels) {
        if translucent(pixels) {
            lemma_added(
                before,
                doc,
                page_id,
                image_object(
                    image_entries(w, h, "DeviceGray"@),
                    zlib(alpha_of(pixels))->Some_0,
                ),
            );
        }
        if let Some(packed) = zlib(rgb_of(pixels)) {
            lemma_added(before, doc1, page_id, image_object(picture_entries(w, h, mask), packed));
        }
    }
}

pub(crate) proof fn lemma_drawn(
    start: Drawing,
    page_id: ObjectId,
    ctx: DrawContext,
    overlays: Seq<OverlayView>,
    pictures: Seq<Option<DynamicImage>>,
    n: int,
)
    requires
        numbers_are_counted(start.doc),
        start.doc.dict_at(page_id) is Ok,
        0 <= n,
    ensures
        ({
            let after = start.with_first(ctx, overlays, pictures, n).0;
            &&& only_page_written(start.doc, after.doc, page_id)
            &&& after.doc.dict_at(page_id) == start.doc.dict_at(page_id)
            &&& page_parts(after.doc, page_id) == page_parts(start.doc, page_id)
        }),
    decreases n,
{
    if n > 0 {
        lemma_drawn(start, page_id, ctx, overlays, pictures, n - 1);
        let (drawing, fault) = start.with_first(ctx, overlays, pictures, n - 1);
        if fault is None && overlays[n - 1] is Image {
            if let Some(image) = picture_at(pictures, n - 1) {
                let (w, h, pixels) = image_rgba(image);
                lemma_picture_added(start.doc, drawing.doc, page_id, w, h, pixels);
            }
        }
    }
}

/// Writing the overlays of a page, whether it succeeds or not, leaves every
/// other object of the document as it was, and every entry of the page but its
/// content and its resources. Where it succeeds, the page's content is what it
/// was, whole and in order, after one new stream and before another.
#[verifier::rlimit(40)]
pub proof fn writing_keeps_the_rest(
    doc: DocView,
    page: int,
    page_id: ObjectId,
    size: (i64, i64),
    overlays: Seq<OverlayView>,
    pictures: Seq<Option<DynamicImage>>,
    font: Seq<u8>,
    known_font: Option<ObjectId>,
)
    requires
        numbers_are_counted(doc),
        doc.dict_at(page_id) is Ok,
    ensures
        ({
            let written = page_written(
                doc,
                page,
                page_id,
                size,
                overlays,
                pictures,
                font,
                known_font,
            );
            &&& only_page_written(doc, written.doc, page_id)
            &&& written.fault is None ==> exists|first: ObjectId, last: ObjectId|
                #![trigger sandwich(first, page_parts(doc, page_id), last)]
                !doc.objects.dom().contains(first) && !doc.objects.dom().contains(last) && entry(
                    written.doc.dict_at(page_id)->Ok_0,
                    key("Contents"@),
                ) == sandwich(first, page_parts(doc, page_id), last)
        }),
{
    reveal(page_written);
    let ctx = context_of(doc, page, page_id, size, font);
    let start = blank(doc, page_id);
    lemma_drawn(start, page_id, ctx, overlays, pictures, overlays.len() as int);
    let (drawing, fault) = start.with_first(ctx, overlays, pictures, overlays.len() as int);
    if fault is None && drawing.doc.max_id + 2 <= u32::MAX {
        let last = drawing.doc.next_id();
        let stream = overlay_stream(drawing.content);
        lemma_added(doc, drawing.doc, page_id, stream);
        let doc1 = drawing.doc.added(stream);
        let first = doc1.next_id();
        lemma_added(doc, doc1, page_id, plain_stream(key("q\n"@)));
        let doc2 = doc1.added(plain_stream(key("q\n"@)));
        let parts = page_parts(doc, page_id);
        lemma_entered(doc, doc2, page_id, key("Contents"@), sandwich(first, parts, last));
        let doc3 = with_overlay(doc1, page_id, last).0;
        assert(entry(doc3.dict_at(page_id)->Ok_0, key("Contents"@)) == sandwich(
            first,
            parts,
            last,
        ));
        let full = drawing.has_text && known_font is None && doc3.max_id + 4 > u32::MAX;
        let doc4 = if drawing.has_text && known_font is None && !full {
            with_font(doc3, font, metrics_of(font))
        } else {
            doc3
        };
        if drawing.has_text && known_font is None && !full {
            lemma_font_added(doc, doc3, page_id, font);
        }
        let doc5 = if drawing.has_text && !full {
            let id = match known_font {
                Some(id) => id,
                None => font_id(doc3),
            };
            match with_resource(doc4, page_id, key("Font"@), encode_utf8(ctx.font_name), id) {
                Ok(d) => {
                    lemma_resource_entered(
                        doc,
                        doc4,
                        page_id,
                        key("Font"@),
                        encode_utf8(ctx.font_name),
                        id,
                    );
                    d
                },
                Err(_) => doc4,
            }
        } else {
            doc4
        };
        lemma_pictures_entered(doc, doc5, page_id, drawing.pictures);
        assert(!doc.objects.dom().contains(first));
        assert(!doc.objects.dom().contains(last));
    }
}

pub(crate) proof fn lemma_font_added(before: DocView, doc: DocView, page_id: ObjectId, data: Seq<u8>)
    requires
        only_page_written(before, doc, page_id),
        doc.max_id + 4 <= u32::MAX,
    ensures
        only_page_written(before, with_font(doc, data, metrics_of(data)), page_id),
        with_font(doc, data, metrics_of(data)).dict_at(page_id) == doc.dict_at(page_id),
{
    let m = metrics_of(data);
    let doc1 = doc.added(font_file(data));
    let doc2 = doc1.added(m.descriptor(doc.next_id()));
    let doc3 = doc2.added(m.cid_font(doc1.next_id()));
    lemma_added(before, doc, page_id, font_file(data));
    lemma_added(before, doc1, page_id, m.descriptor(doc.next_id()));
    lemma_added(before, doc2, page_id, m.cid_font(doc1.next_id()));
    lemma_added(before, doc3, page_id, type0_font(doc2.next_id()));
}

/// The names that are chosen for the font and for a picture are not among those
/// that the page already uses.
pub proof fn chosen_names_are_new(doc: DocView, page_id: ObjectId)
    requires
        resource_keys(doc, page_id, key("Font"@)).finite(),
        resource_keys(doc, page_id, key("XObject"@)).finite(),
    ensures
        !resource_keys(doc, page_id, key("Font"@)).contains(
            encode_utf8(free_name(resource_keys(doc, page_id, key("Font"@)), "F"@)),
        ),
        !resource_keys(doc, page_id, key("XObject"@)).contains(
            encode_utf8(free_name(resource_keys(doc, page_id, key("XObject"@)), "Im"@)),
        ),
{
    free_name_is_free(resource_keys(doc, page_id, key("Font"@)), "F"@);
    free_name_is_free(resource_keys(doc, page_id, key("XObject"@)), "Im"@);
}

/// The objects that pages are.
pub open spec fn page_objects(doc: DocView, order: Seq<ObjectId>) -> Set<ObjectId> {
    Set::new(
        |id: ObjectId|
            exists|i: int|
                0 <= i < order.len() && resolved(doc.objects, #[trigger] order[i]) == Ok::<
                    ObjectId,
                    Fault,
                >(id),
    )
}

/// Two values are the same but for what writing can change of a page.
pub open spec fn same_but_written(before: PdfValue, after: PdfValue) -> bool {
    match (before, after) {
        (PdfValue::Dictionary(a), PdfValue::Dictionary(b)) => forall|k: Seq<u8>|
            !is_written_key(k) ==> #[trigger] entry(b, k) == entry(a, k),
        _ => before == after,
    }
}

/// Between two states of a document nothing was lost: the trailer is the same, every
/// object is still there, and but for the content and the resources of pages it is
/// unchanged.
pub open spec fn only_pages_written(before: DocView, after: DocView, pages: Set<ObjectId>) -> bool {
    &&& numbers_are_counted(after)
    &&& before.max_id <= after.max_id
    &&& before.trailer == after.trailer
    &&& forall|id: ObjectId| #[trigger]
        before.objects.dom().contains(id) ==> after.objects.dom().contains(id) && if pages.contains(
            id,
        ) {
            same_but_written(before.objects[id], after.objects[id])
        } else {
            after.objects[id] == before.objects[id]
        }
    &&& new_numbers_follow(before, after)
}

proof fn lemma_resolution_kept(
    before: DocView,
    after: DocView,
    pages: Set<ObjectId>,
    id: ObjectId,
    fuel: nat,
)
    requires
        only_pages_written(before, after, pages),
        resolve_within(before.objects, id, fuel) is Ok,
    ensures
        resolve_within(after.objects, id, fuel) == resolve_within(before.objects, id, fuel),
    decreases fuel,
{
    assert(before.objects.dom().contains(id));
    if fuel > 0 {
        if let PdfValue::Reference(next) = before.objects[id] {
            lemma_resolution_kept(before, after, pages, next, (fuel - 1) as nat);
        }
    }
}

proof fn lemma_page_step(
    before: DocView,
    doc: DocView,
    after: DocView,
    order: Seq<ObjectId>,
    i: int,
)
    requires
        0 <= i < order.len(),
        pages_found(order, before.objects),
        only_pages_written(before, doc, page_objects(before, order)),
        only_page_written(doc, after, order[i]),
    ensures
        only_pages_written(before, after, page_objects(before, order)),
{
    let pages = page_objects(before, order);
    let page_id = order[i];
    assert(leads_to_dict(before.objects, order[i]));
    lemma_resolution_kept(before, doc, pages, page_id, 129);
    let at = resolved(before.objects, page_id)->Ok_0;
    lemma_resolved_is_there(before.objects, page_id, 129);
    assert(pages.contains(at));
    assert forall|id: ObjectId| #[trigger] before.objects.dom().contains(id) implies
        after.objects.dom().contains(id) && if pages.contains(id) {
        same_but_written(before.objects[id], after.objects[id])
    } else {
        after.objects[id] == before.objects[id]
    } by {
        assert(doc.objects.dom().contains(id));
        if id == at {
            let a = before.objects[at]->Dictionary_0;
            let d = doc.objects[at]->Dictionary_0;
            assert(doc.dict_at(page_id) == Ok::<Map<Seq<u8>, PdfValue>, Fault>(d));
            let b = after.dict_at(page_id)->Ok_0;
            assert(after.objects[at] == PdfValue::Dictionary(b));
            assert forall|k: Seq<u8>| !is_written_key(k) implies #[trigger] entry(b, k) == entry(
                a,
                k,
            ) by {
                assert(entry(d, k) == entry(a, k));
            }
        }
    }
}

/// Writing the overlays of all pages leaves everything else of a document as it was:
/// its trailer, with the metadata and the identifier that it refers to, every object
/// that is no page, and of the pages every entry but their content and their
/// resources.
pub proof fn saving_keeps_the_rest(
    work: Work,
    doc: DocView,
    order: Seq<ObjectId>,
    keep: Option<Seq<usize>>,
    n: int,
)
    requires
        numbers_are_counted(doc),
        pages_found(order, doc.objects),
        0 <= n <= order.len(),
    ensures
        only_pages_written(
            doc,
            work.written(doc, order, keep, n).doc,
            page_objects(doc, order),
        ),
    decreases n,
{
    let pages = page_objects(doc, order);
    if n == 0 {
        assert forall|id: ObjectId| #[trigger] doc.objects.dom().contains(id) implies
            same_but_written(doc.objects[id], doc.objects[id]) by {}
    } else {
        saving_keeps_the_rest(work, doc, order, keep, n - 1);
        let before = work.written(doc, order, keep, n - 1);
        let overlays = work.overlays_of(n - 1);
        if before.fault is None && kept(keep, n) && overlays.len() > 0 {
            assert(leads_to_dict(doc.objects, order[n - 1]));
            lemma_resolution_kept(doc, before.doc, pages, order[n - 1], 129);
            lemma_resolved_is_there(doc.objects, order[n - 1], 129);
            writing_keeps_the_rest(
                before.doc,
                n - 1,
                order[n - 1],
                work.size_of(n - 1),
                overlays,
                work.pictures_of(n - 1),
                work.font,
                before.font_id,
            );
            lemma_page_step(
                doc,
                before.doc,
                work.written(doc, order, keep, n).doc,
                order,
                n - 1,
            );
        }
    }
}

/// The text font is embedded at most once: a page that is written when the font is
/// already there uses it.
pub proof fn font_is_embedded_once(
    doc: DocView,
    page: int,
    page_id: ObjectId,
    size: (i64, i64),
    overlays: Seq<OverlayView>,
    pictures: Seq<Option<DynamicImage>>,
    font: Seq<u8>,
    id: ObjectId,
)
    ensures
        page_written(doc, page, page_id, size, overlays, pictures, font, Some(id)).font_id == Some(
            id,
        ),
{
    reveal(page_written);
}

/// The path of a picture leaves no trace in what is written: only its pixels do.
pub proof fn image_paths_are_not_stored(
    drawing: Drawing,
    ctx: DrawContext,
    picture: Option<DynamicImage>,
    i: int,
    path: Seq<u8>,
    other: Seq<u8>,
    x: int,
    y: int,
    w: int,
    h: int,
)
    ensures
        drawing.with(ctx, OverlayView::Image { path, x, y, w, h }, picture, i) == drawing.with(
            ctx,
            OverlayView::Image { path: other, x, y, w, h },
            picture,
            i,
        ),
{
}

proof fn lemma_prefix(a: Seq<char>, b: Seq<char>, p: Seq<char>)
    requires
        a.len() >= p.len(),
        a.take(p.len() as int) == p,
    ensures
        (a + b).take(p.len() as int) == p,
{
    assert((a + b).take(p.len() as int) =~= a.take(p.len() as int));
}

#[verifier::rlimit(60)]
proof fn lemma_drawing_grows(
    drawing: Drawing,
    ctx: DrawContext,
    overlay: OverlayView,
    picture: Option<DynamicImage>,
    i: int,
    p: Seq<char>,
)
    requires
        drawing.content.len() >= p.len(),
        drawing.content.take(p.len() as int) == p,
    ensures
        drawing.with(ctx, overlay, picture, i).0.content.len() >= p.len(),
        drawing.with(ctx, overlay, picture, i).0.content.take(p.len() as int) == p,
{
    let c = drawing.content;
    match overlay {
        OverlayView::Image { path, x, y, w, h } => {
            lemma_prefix(c, image_ops(ctx.space, free_name(drawing.used, "Im"@), x, y, w, h), p);
        },
        OverlayView::Text { text, x, y, size_pt, color } => {
            let lines = glyph_lines(ctx.font, text);
            lemma_prefix(c, text_ops(ctx.space, ctx.font_name, lines, x, y, size_pt, color), p);
        },
        OverlayView::Redact { x, y, w, h } => {
            lemma_prefix(c, redact_ops(ctx.space, x, y, w, h), p);
        },
        OverlayView::PendingMark { .. } => {},
    }
}

/// The operators of an overlay begin by restoring the state that was saved before
/// the page's own content.
pub proof fn overlay_begins_with_restore(
    doc: DocView,
    page_id: ObjectId,
    ctx: DrawContext,
    overlays: Seq<OverlayView>,
    pictures: Seq<Option<DynamicImage>>,
    n: int,
)
    ensures
        ({
            let content = blank(doc, page_id).with_first(ctx, overlays, pictures, n).0.content;
            content.len() >= "Q\n"@.len() && content.take("Q\n"@.len() as int) == "Q\n"@
        }),
    decreases n,
{
    let start = blank(doc, page_id);
    let len = "Q\n"@.len() as int;
    if n <= 0 {
        assert(start.content.take(len) =~= "Q\n"@);
    } else {
        overlay_begins_with_restore(doc, page_id, ctx, overlays, pictures, n - 1);
        let (before, fault) = start.with_first(ctx, overlays, pictures, n - 1);
        if fault is None {
            lemma_drawing_grows(
                before,
                ctx,
                overlays[n - 1],
                picture_at(pictures, n - 1),
                n - 1,
                "Q\n"@,
            );
        }
    }
}

#[verifier::rlimit(60)]
proof fn lemma_faultless_before(
    start: Drawing,
    ctx: DrawContext,
    overlays: Seq<OverlayView>,
    pictures: Seq<Option<DynamicImage>>,
    m: int,
    n: int,
)
    requires
        0 <= m <= n,
        start.with_first(ctx, overlays, pictures, n).1 is None,
    ensures
        start.with_first(ctx, overlays, pictures, m).1 is None,
        start.with_first(ctx, overlays, pictures, m).0.content.len() <= start.with_first(
            ctx,
            overlays,
            pictures,
            n,
        ).0.content.len(),
        start.with_first(ctx, overlays, pictures, n).0.content.take(
            start.with_first(ctx, overlays, pictures, m).0.content.len() as int,
        ) == start.with_first(ctx, overlays, pictures, m).0.content,
    decreases n - m,
{
    let p = start.with_first(ctx, overlays, pictures, m).0.content;
    if m == n {
        assert(p.take(p.len() as int) =~= p);
    } else {
        lemma_faultless_before(start, ctx, overlays, pictures, m, n - 1);
        lemma_drawing_grows(
            start.with_first(ctx, overlays, pictures, n - 1).0,
            ctx,
            overlays[n - 1],
            picture_at(pictures, n - 1),
            n - 1,
            p,
        );
    }
}

/// The operators of a redaction or a text; of anything else, none.
pub open spec fn own_ops(ctx: DrawContext, overlay: OverlayView) -> Option<Seq<char>> {
    match overlay {
        OverlayView::Redact { x, y, w, h } => Some(redact_ops(ctx.space, x, y, w, h)),
        OverlayView::Text { text, x, y, size_pt, color } => Some(
            text_ops(
                ctx.space,
                ctx.font_name,
                glyph_lines(ctx.font, text),
                x,
                y,
                size_pt,
                color,
            ),
        ),
        _ => None,
    }
}

/// Every redaction and every text of a page is written: its operators stand, whole,
/// in the operators of the overlay.
#[verifier::rlimit(60)]
pub proof fn placed_overlays_are_written(
    start: Drawing,
    ctx: DrawContext,
    overlays: Seq<OverlayView>,
    pictures: Seq<Option<DynamicImage>>,
    n: int,
    i: int,
)
    requires
        0 <= i < n <= overlays.len(),
        start.with_first(ctx, overlays, pictures, n).1 is None,
        own_ops(ctx, overlays[i]) is Some,
    ensures
        exists|before: Seq<char>, after: Seq<char>|
            start.with_first(ctx, overlays, pictures, n).0.content == #[trigger] (before + own_ops(
                ctx,
                overlays[i],
            )->Some_0 + after),
{
    let all = start.with_first(ctx, overlays, pictures, n).0.content;
    let ops = own_ops(ctx, overlays[i])->Some_0;
    lemma_faultless_before(start, ctx, overlays, pictures, i, n);
    lemma_faultless_before(start, ctx, overlays, pictures, i + 1, n);
    let before = start.with_first(ctx, overlays, pictures, i).0.content;
    lemma_middle_part(all, before, ops);
}

proof fn lemma_middle_part(all: Seq<char>, before: Seq<char>, ops: Seq<char>)
    requires
        all.len() >= (before + ops).len(),
        all.take((before + ops).len() as int) == before + ops,
    ensures
        all == before + ops + all.skip((before + ops).len() as int),
{
    assert(all =~= all.take((before + ops).len() as int) + all.skip((before + ops).len() as int));
}

/// The names of drawn pictures, as they are stored.
pub open spec fn stored_names(pictures: Seq<(Seq<char>, ObjectId)>) -> Seq<Seq<u8>> {
    pictures.map_values(|p: (Seq<char>, ObjectId)| encode_utf8(p.0))
}

/// Each picture that is drawn on a page gets a name of its own, and none that the
/// page already used.
#[verifier::rlimit(60)]
pub proof fn picture_names_are_distinct(
    doc: DocView,
    page_id: ObjectId,
    ctx: DrawContext,
    overlays: Seq<OverlayView>,
    pictures: Seq<Option<DynamicImage>>,
    n: int,
)
    requires
        resource_keys(doc, page_id, key("XObject"@)).finite(),
    ensures
        ({
            let drawing = blank(doc, page_id).with_first(ctx, overlays, pictures, n).0;
            let names = stored_names(drawing.pictures);
            let own = resource_keys(doc, page_id, key("XObject"@));
            &&& names.no_duplicates()
            &&& forall|i: int| 0 <= i < names.len() ==> !own.contains(#[trigger] names[i])
            &&& drawing.used.finite()
            &&& own.subset_of(drawing.used)
            &&& forall|i: int| 0 <= i < names.len() ==> drawing.used.contains(#[trigger] names[i])
        }),
    decreases n,
{
    let start = blank(doc, page_id);
    let own = resource_keys(doc, page_id, key("XObject"@));
    if n <= 0 {
        assert(stored_names(start.pictures) =~= Seq::empty());
    } else {
        picture_names_are_distinct(doc, page_id, ctx, overlays, pictures, n - 1);
        let before = start.with_first(ctx, overlays, pictures, n - 1).0;
        let after = start.with_first(ctx, overlays, pictures, n).0;
        let had = stored_names(before.pictures);
        let has = stored_names(after.pictures);
        free_name_is_free(before.used, "Im"@);
        let name = encode_utf8(free_name(before.used, "Im"@));
        if after.pictures.len() > before.pictures.len() {
            assert(has =~= had.push(name));
            assert forall|i: int| 0 <= i < has.len() implies after.used.contains(
                #[trigger] has[i],
            ) && !own.contains(has[i]) by {
                if i < had.len() {
                    assert(has[i] == had[i]);
                }
            }
            assert forall|i: int, j: int| 0 <= i < j < has.len() implies has[i] != has[j] by {
                if j < had.len() {
                    assert(had[i] != had[j]);
                } else {
                    assert(before.used.contains(had[i]));
                }
            }
        } else {
            assert(after.pictures == before.pictures);
        }
    }
}

// ---------------------------------------------------------------------------
// The pages of the output
// ---------------------------------------------------------------------------

proof fn lemma_tree_keys_are_not_written()
    ensures
        !is_written_key(key("Type"@)),
        !is_written_key(key("Kids"@)),
        !is_written_key(key("Pages"@)),
{
    reveal_strlit("Type");
    reveal_strlit("Kids");
    reveal_strlit("Pages");
    reveal_strlit("Contents");
    reveal_strlit("Resources");
    lemma_keys_differ("Type"@, "Contents"@);
    lemma_keys_differ("Type"@, "Resources"@);
    lemma_keys_differ("Kids"@, "Contents"@);
    lemma_keys_differ("Kids"@, "Resources"@);
    lemma_keys_differ("Pages"@, "Contents"@);
    lemma_keys_differ("Pages"@, "Resources"@);
}

/// Writing the overlays leaves a page tree that is in order as it was, and so the pages
/// and their order.
pub proof fn writing_keeps_the_pages(
    work: Work,
    doc: DocView,
    order: Seq<ObjectId>,
    keep: Option<Seq<usize>>,
    n: int,
)
    requires
        numbers_are_counted(doc),
        pages_found(order, doc.objects),
        0 <= n <= order.len(),
        tree_of(doc.trailer, doc.objects) is Some,
        kids_are_counted(doc),
    ensures
        ({
            let after = work.written(doc, order, keep, n).doc;
            &&& tree_of(after.trailer, after.objects) == tree_of(doc.trailer, doc.objects)
            &&& pages_of_doc(after) == pages_of_doc(doc)
        }),
{
    saving_keeps_the_rest(work, doc, order, keep, n);
    let after = work.written(doc, order, keep, n).doc;
    let pages = page_objects(doc, order);
    lemma_tree_keys_are_not_written();
    assert(same_nodes(doc.objects, after.objects)) by {
        assert forall|id: ObjectId| #[trigger]
            doc.objects.dom().contains(id) implies after.objects.dom().contains(id)
            && match doc.objects[id] {
            PdfValue::Dictionary(dict) => after.objects[id] is Dictionary && same_tree_entries(
                dict,
                after.objects[id]->Dictionary_0,
            ),
            PdfValue::Reference(_) => true,
            _ => !(after.objects[id] is Dictionary) && !(after.objects[id] is Reference),
        } by {
            if pages.contains(id) {
                assert(same_but_written(doc.objects[id], after.objects[id]));
            }
        }
    }
    let others = tree_of(doc.trailer, doc.objects)->Some_0.below.others;
    assert(missing_stay(doc.objects, after.objects, others)) by {
        assert(new_numbers_follow(doc, after));
    }
    lemma_same_tree(doc.trailer, doc.objects, after.objects);
}

proof fn lemma_kept_or_gone(
    order: Seq<ObjectId>,
    keep: Option<Seq<usize>>,
    gone: Set<ObjectId>,
)
    requires
        forall|i: int|
            0 <= i < order.len() ==> gone.contains(#[trigger] order[i]) == !kept(keep, i + 1),
    ensures
        without(order, gone) == kept_pages(order, keep),
    decreases order.len(),
{
    if order.len() > 0 {
        let front = order.drop_last();
        assert forall|i: int| 0 <= i < front.len() implies gone.contains(#[trigger] front[i])
            == !kept(keep, i + 1) by {
            assert(front[i] == order[i]);
        }
        lemma_kept_or_gone(front, keep, gone);
        assert(gone.contains(order[order.len() - 1]) == !kept(keep, order.len() as int));
    }
}

proof fn lemma_numbered_contains(order: Seq<ObjectId>, numbers: Seq<u32>, id: ObjectId)
    ensures
        numbered(order, numbers).contains(id) <==> exists|k: int|
            0 <= k < numbers.len() && 1 <= #[trigger] numbers[k] <= order.len() && order[numbers[k]
                - 1] == id,
    decreases numbers.len(),
{
    if numbers.len() > 0 {
        let front = numbers.drop_last();
        let last = numbers.last();
        lemma_numbered_contains(order, front, id);
        let before = numbered(order, front);
        let all = numbered(order, numbers);
        if all.contains(id) {
            let k = choose|k: int| 0 <= k < all.len() && all[k] == id;
            if k < before.len() {
                assert(before[k] == id);
                let m = choose|m: int|
                    0 <= m < front.len() && 1 <= #[trigger] front[m] <= order.len() && order[front[m]
                        - 1] == id;
                assert(numbers[m] == front[m]);
            } else {
                assert(numbers[numbers.len() - 1] == last);
            }
        }
        if exists|k: int|
            0 <= k < numbers.len() && 1 <= #[trigger] numbers[k] <= order.len() && order[numbers[k]
                - 1] == id {
            let k = choose|k: int|
                0 <= k < numbers.len() && 1 <= #[trigger] numbers[k] <= order.len()
                    && order[numbers[k] - 1] == id;
            if k < front.len() {
                assert(front[k] == numbers[k]);
                let m = choose|m: int| 0 <= m < before.len() && before[m] == id;
                assert(all[m] == id);
            } else {
                assert(all[before.len() as int] == id);
            }
        }
    }
}

/// The pages of the output are exactly the kept pages of the source, in the order of the
/// source, whether pages have to be taken out or not. This holds of a source whose page
/// tree is in order and whose object numbers, and those that the tree refers to, are
/// counted.
pub proof fn output_has_kept_pages(
    work: Work,
    doc: DocView,
    keep: Option<Seq<usize>>,
    after: DocView,
)
    requires
        ({
            let order = pages_of_doc(doc);
            let written = work.written(doc, order, keep, order.len() as int).doc;
            let dropped = dropped_pages(keep, (order.len() as u32) as int);
            if dropped.len() == 0 {
                after == written
            } else {
                pages_taken_out(written, after, dropped)
            }
        }),
    ensures
        tree_of(doc.trailer, doc.objects) is Some && numbers_are_counted(doc) && kids_are_counted(
            doc,
        ) && pages_of_doc(doc).len() <= u32::MAX ==> pages_of_doc(after) == kept_pages(
            pages_of_doc(doc),
            keep,
        ),
{
    let order = pages_of_doc(doc);
    if tree_of(doc.trailer, doc.objects) is Some && numbers_are_counted(doc)
        && kids_are_counted(doc) && order.len() <= u32::MAX {
        let total = order.len() as int;
        lemma_tree_pages_found(doc.trailer, doc.objects);
        writing_keeps_the_pages(work, doc, order, keep, total);
        pages_are_kept_or_dropped(keep, total);
        let dropped = dropped_pages(keep, total);
        let ids = numbered(order, dropped);
        let gone = ids.to_set();
        assert forall|i: int| 0 <= i < order.len() implies gone.contains(#[trigger] order[i])
            == !kept(keep, i + 1) by {
            lemma_numbered_contains(order, dropped, order[i]);
            let p = (i + 1) as u32;
            assert(dropped.contains(p) <==> !kept(keep, p as int));
            if !kept(keep, i + 1) {
                let k = choose|k: int| 0 <= k < dropped.len() && dropped[k] == p;
                assert(order[dropped[k] - 1] == order[i]);
                assert(ids.contains(order[i]));
            }
            if gone.contains(order[i]) {
                assert(ids.contains(order[i]));
                let k = choose|k: int|
                    0 <= k < dropped.len() && 1 <= #[trigger] dropped[k] <= order.len()
                        && order[dropped[k] - 1] == order[i];
                assert(dropped[k] - 1 == i);
                assert(dropped.contains(dropped[k]));
            }
        }
        lemma_kept_or_gone(order, keep, gone);
        if dropped.len() == 0 {
            assert(ids =~= Seq::empty());
            assert(gone =~= Set::empty());
            lemma_without_none(order);
        }
    }
}

proof fn lemma_without_none(ids: Seq<ObjectId>)
    ensures
        without(ids, Set::empty()) == ids,
    decreases ids.len(),
{
    if ids.len() > 0 {
        lemma_without_none(ids.drop_last());
        assert(ids.drop_last().push(ids.last()) =~= ids);
    } else {
        assert(without(ids, Set::empty()) =~= ids);
    }
}

/// Saving keeps what a document says of itself, also where pages are taken out: every
/// entry of the trailer is still there, and a reference in it, or a value that does not
/// refer to a dropped page, is unchanged. An object that is no page and does not refer to
/// a dropped page is unchanged too, but for a count of pages.
pub proof fn saving_keeps_metadata(
    work: Work,
    doc: DocView,
    filter: Seq<char>,
    after: DocView,
    k: Seq<u8>,
    id: ObjectId,
)
    requires
        numbers_are_counted(doc),
        pages_found(pages_of_doc(doc), doc.objects),
        work.leaves_kept_pages(doc, filter, after),
    ensures
        after.trailer.dom() == doc.trailer.dom(),
        ({
            let gone = work.dropped_objects(doc, filter);
            &&& doc.trailer.dom().contains(k) && (doc.trailer[k] is Reference || !mentions(
                doc.trailer[k],
                gone,
            )) ==> after.trailer[k] == doc.trailer[k]
            &&& doc.objects.dom().contains(id) && !page_objects(doc, pages_of_doc(doc)).contains(id)
                && !gone.contains(id) && !mentions(doc.objects[id], gone)
                ==> after.objects.dom().contains(id) && same_but_count(
                doc.objects[id],
                after.objects[id],
            )
        }),
{
    let order = pages_of_doc(doc);
    let keep = keep_of(filter, order.len() as int)->Ok_0;
    let written = work.written(doc, order, keep, order.len() as int).doc;
    let dropped = dropped_pages(keep, (order.len() as u32) as int);
    saving_keeps_the_rest(work, doc, order, keep, order.len() as int);
    if dropped.len() > 0 {
        trailer_survives(written, after, dropped, k);
        kept_pages_survive(written, after, dropped, id, k);
    }
}

// ---------------------------------------------------------------------------
// Marks
// ---------------------------------------------------------------------------

/// The first `n` overlays without the marks.
pub open spec fn unmarked(overlays: Seq<OverlayView>, n: int) -> Seq<OverlayView>
    decreases n,
{
    if n <= 0 {
        Seq::empty()
    } else if overlays[n - 1] is PendingMark {
        unmarked(overlays, n - 1)
    } else {
        unmarked(overlays, n - 1).push(overlays[n - 1])
    }
}

/// The pictures of the first `n` overlays without those that stand beside marks.
pub open spec fn unmarked_pictures(
    overlays: Seq<OverlayView>,
    pictures: Seq<Option<DynamicImage>>,
    n: int,
) -> Seq<Option<DynamicImage>>
    decreases n,
{
    if n <= 0 {
        Seq::empty()
    } else if overlays[n - 1] is PendingMark {
        unmarked_pictures(overlays, pictures, n - 1)
    } else {
        unmarked_pictures(overlays, pictures, n - 1).push(picture_at(pictures, n - 1))
    }
}

/// Two faults are the same, but for the place of an overlay whose picture is missing.
pub open spec fn same_but_place(a: Option<SaveFault>, b: Option<SaveFault>) -> bool {
    match (a, b) {
        (Some(SaveFault::Picture(p, _)), Some(SaveFault::Picture(q, _))) => p == q,
        _ => a == b,
    }
}

proof fn lemma_drawing_depends_on_prefix(
    start: Drawing,
    ctx: DrawContext,
    a: Seq<OverlayView>,
    b: Seq<OverlayView>,
    p: Seq<Option<DynamicImage>>,
    q: Seq<Option<DynamicImage>>,
    n: int,
)
    requires
        forall|i: int|
            0 <= i < n ==> #[trigger] a[i] == b[i] && picture_at(p, i) == picture_at(q, i),
    ensures
        start.with_first(ctx, a, p, n) == start.with_first(ctx, b, q, n),
    decreases n,
{
    if n > 0 {
        lemma_drawing_depends_on_prefix(start, ctx, a, b, p, q, n - 1);
        assert(a[n - 1] == b[n - 1]);
    }
}

proof fn lemma_marks_not_drawn(
    start: Drawing,
    ctx: DrawContext,
    overlays: Seq<OverlayView>,
    pictures: Seq<Option<DynamicImage>>,
    n: int,
)
    requires
        0 <= n <= overlays.len(),
    ensures
        ({
            let few = unmarked(overlays, n);
            let beside = unmarked_pictures(overlays, pictures, n);
            let with = start.with_first(ctx, overlays, pictures, n);
            let less = start.with_first(ctx, few, beside, few.len() as int);
            &&& few.len() == beside.len()
            &&& with.0 == less.0
            &&& same_but_place(with.1, less.1)
        }),
    decreases n,
{
    if n > 0 {
        lemma_marks_not_drawn(start, ctx, overlays, pictures, n - 1);
        let few = unmarked(overlays, n - 1);
        let beside = unmarked_pictures(overlays, pictures, n - 1);
        if !(overlays[n - 1] is PendingMark) {
            let more = unmarked(overlays, n);
            let more_beside = unmarked_pictures(overlays, pictures, n);
            let m = few.len() as int;
            assert forall|i: int| 0 <= i < m implies #[trigger] few[i] == more[i] && picture_at(
                beside,
                i,
            ) == picture_at(more_beside, i) by {}
            lemma_drawing_depends_on_prefix(start, ctx, few, more, beside, more_beside, m);
            assert(picture_at(more_beside, m) == picture_at(pictures, n - 1));
            assert(more[m] == overlays[n - 1]);
        }
    }
}

/// Marks leave no trace in what is written: a page is written with them exactly as it
/// is without them, into the same document, with the same content, resources and font.
pub proof fn marks_are_not_written(
    doc: DocView,
    page: int,
    page_id: ObjectId,
    size: (i64, i64),
    overlays: Seq<OverlayView>,
    pictures: Seq<Option<DynamicImage>>,
    font: Seq<u8>,
    known_font: Option<ObjectId>,
)
    ensures
        ({
            let n = overlays.len() as int;
            let with = page_written(
                doc,
                page,
                page_id,
                size,
                overlays,
                pictures,
                font,
                known_font,
            );
            let less = page_written(
                doc,
                page,
                page_id,
                size,
                unmarked(overlays, n),
                unmarked_pictures(overlays, pictures, n),
                font,
                known_font,
            );
            &&& with.doc == less.doc
            &&& with.font_id == less.font_id
            &&& same_but_place(with.fault, less.fault)
        }),
{
    reveal(page_written);
    let ctx = context_of(doc, page, page_id, size, font);
    lemma_marks_not_drawn(
        blank(doc, page_id),
        ctx,
        overlays,
        pictures,
        overlays.len() as int,
    );
}

} // verus!
