//! What a saved document holds: which pages, and what each page then shows.

use image::DynamicImage;
use lopdf::ObjectId;
use vstd::prelude::*;
use vstd::utf8::encode_utf8;

use crate::app::AppView;
use crate::drawing::{
    blank, context_of, overlay_stream, page_written, with_pictures, with_resources, DrawContext,
    Drawing, Written,
};
use crate::font::{font_id, metrics_of, with_font};
use crate::intact::{
    lemma_added, lemma_drawn, lemma_entered, lemma_font_added, lemma_pictures_entered,
    lemma_resource_entered, numbers_are_counted, only_page_written, page_parts,
    picture_names_are_distinct, stored_names,
};
use crate::laws::embedded::stores;
use crate::laws::filter::plain_range;
use crate::laws::written::{ancestor, ancestor_entry};
use crate::numtext::{decimal_text, decimal_text_reads_back};
use crate::objects::{key, lemma_keys_differ, resolved, DocView, Fault, PdfValue};
use crate::overlay::OverlayView;
use crate::pagedict::{
    content_parts, entry, inherited_resources, page_resources, plain_stream, resource_is_added,
    resource_keys, with_overlay, with_resource, INHERITANCE_DEPTH,
};
use crate::pages::{kept, pages_of};
use crate::save::{keep_of, kept_pages, Work};
use crate::text::{trimmed, white_space};

verus! {

// ---------------------------------------------------------------------------
// Which pages
// ---------------------------------------------------------------------------

/// A filter of nothing but white space keeps every page.
pub proof fn blank_filter_keeps_all(filter: Seq<char>, total: int, p: int)
    requires
        forall|i: int| 0 <= i < filter.len() ==> white_space(#[trigger] filter[i]),
    ensures
        keep_of(filter, total) is Ok,
        kept(keep_of(filter, total)->Ok_0, p),
{
    lemma_all_white(filter);
}

proof fn lemma_all_white(s: Seq<char>)
    requires
        forall|i: int| 0 <= i < s.len() ==> white_space(#[trigger] s[i]),
    ensures
        crate::text::trimmed_start(s).len() == 0,
        trimmed(s).len() == 0,
    decreases s.len(),
{
    if s.len() > 0 {
        assert forall|i: int| 0 <= i < s.drop_first().len() implies white_space(
            #[trigger] s.drop_first()[i],
        ) by {
            assert(s.drop_first()[i] == s[i + 1]);
        }
        assert(white_space(s[0]));
        lemma_all_white(s.drop_first());
    }
}

/// A filter `a-b` keeps the pages from the first number to the second and no others.
pub proof fn filter_keeps_its_range(a: nat, b: nat, total: int, p: int)
    requires
        1 <= a <= b <= total <= usize::MAX,
        0 <= p <= usize::MAX,
    ensures
        ({
            let keep = keep_of(decimal_text(a) + seq!['-'] + decimal_text(b), total);
            &&& keep is Ok
            &&& kept(keep->Ok_0, p) <==> a <= p <= b
        }),
{
    let s = decimal_text(a) + seq!['-'] + decimal_text(b);
    decimal_text_reads_back(a);
    decimal_text_reads_back(b);
    plain_range(a, b, total);
    let none = Seq::<char>::empty();
    assert(s[0] == decimal_text(a)[0]);
    assert(s.last() == decimal_text(b).last());
    crate::laws::filter::trimming_takes_blanks_off(none, s, none);
    assert(none + s + none =~= s);
    let pages = pages_of(s, total);
    if a <= p <= b {
        assert(pages[p - a] == p as usize);
    }
    if pages.contains(p as usize) {
        let i = choose|i: int| 0 <= i < pages.len() && pages[i] == p as usize;
        assert(pages[i] == (a + i) as usize);
    }
}

/// A filter that selects no page is refused, with its text less the white space around it.
pub proof fn empty_selection_is_refused(filter: Seq<char>, total: int)
    requires
        trimmed(filter).len() > 0,
        pages_of(trimmed(filter), total).len() == 0,
    ensures
        keep_of(filter, total) == Err::<Option<Seq<usize>>, Seq<char>>(trimmed(filter)),
{
}

/// Of the pages that are kept, each one with overlays is written, with its own overlays,
/// pictures and size; a page without a size counts as A4. No other page is touched.
pub proof fn each_page_gets_its_own_overlays(
    work: Work,
    before: Written,
    order: Seq<ObjectId>,
    keep: Option<Seq<usize>>,
    n: int,
)
    requires
        1 <= n <= order.len(),
    ensures
        ({
            let after = work.with_page(before, order, keep, n);
            let size = if n <= work.sizes.len() {
                work.sizes[n - 1]
            } else {
                (5_950_000i64, 8_420_000i64)
            };
            let pictures = if n <= work.pictures.len() {
                work.pictures[n - 1]
            } else {
                Seq::empty()
            };
            &&& !kept(keep, n) ==> after == before
            &&& n > work.overlays.len() ==> after == before
            &&& n <= work.overlays.len() && work.overlays[n - 1].len() == 0 ==> after == before
            &&& n <= work.overlays.len() && work.overlays[n - 1].len() > 0 && kept(keep, n)
                ==> after == page_written(
                before.doc,
                n - 1,
                order[n - 1],
                size,
                work.overlays[n - 1],
                pictures,
                work.font,
                before.font_id,
            )
        }),
{
}

/// What is saved of the state: the overlays and the size of each page, in order, whatever
/// is hidden or selected.
pub proof fn state_is_saved_page_by_page(
    app: AppView,
    pictures: Seq<Seq<Option<DynamicImage>>>,
    font: Seq<u8>,
    p: int,
)
    requires
        0 <= p < app.pages.len(),
    ensures
        ({
            let work = app.work(pictures, font);
            &&& work.overlays.len() == app.pages.len()
            &&& work.sizes.len() == app.pages.len()
            &&& work.overlays[p] == app.pages[p].overlays
            &&& work.sizes[p] == app.pages[p].size_pt
            &&& work.pictures == pictures
            &&& work.font == font
        }),
{
}

// ---------------------------------------------------------------------------
// What a page shows
// ---------------------------------------------------------------------------

/// The streams of a page's content: the one that it refers to, or those of an array, which
/// stands there or is referred to.
pub proof fn content_is_read_as_it_stands(doc: DocView, dict: Map<Seq<u8>, PdfValue>)
    ensures
        entry(dict, key("Contents"@)) matches PdfValue::Array(items) ==> content_parts(
            doc.objects,
            dict,
        ) == items,
        entry(dict, key("Contents"@)) matches PdfValue::Reference(id) ==> (
        doc.objects.dom().contains(id) ==> match doc.objects[id] {
            PdfValue::Array(items) => content_parts(doc.objects, dict) == items,
            PdfValue::Stream(_, _) => content_parts(doc.objects, dict) == seq![
                PdfValue::Reference(id),
            ],
            _ => true,
        }),
        entry(dict, key("Contents"@)) is Null ==> content_parts(doc.objects, dict).len() == 0,
{
}

/// The operators of an overlay are stored as UTF-8, plain or packed.
pub proof fn operators_are_stored(content: Seq<char>)
    ensures
        stores(overlay_stream(content), encode_utf8(content)),
{
    reveal_strlit("Length");
    reveal_strlit("Filter");
    assert("Length"@[0] == 'L' && "Filter"@[0] == 'F');
    lemma_keys_differ("Length"@, "Filter"@);
}

proof fn lemma_reflexive(doc: DocView, page_id: ObjectId)
    requires
        numbers_are_counted(doc),
        doc.dict_at(page_id) is Ok,
    ensures
        only_page_written(doc, doc, page_id),
{
}

/// A page has a resource of a type and a name that is an object.
pub open spec fn has_resource(
    doc: DocView,
    page_id: ObjectId,
    res_type: Seq<char>,
    name: Seq<char>,
    id: ObjectId,
) -> bool {
    match page_resources(doc, page_id) {
        Ok(resources) => match entry(resources, key(res_type)) {
            PdfValue::Dictionary(sub) => sub.dom().contains(encode_utf8(name)) && sub[encode_utf8(
                name,
            )] == PdfValue::Reference(id),
            _ => false,
        },
        Err(_) => false,
    }
}

proof fn lemma_pictures_are_resources(
    doc: DocView,
    page_id: ObjectId,
    pictures: Seq<(Seq<char>, ObjectId)>,
    font_name: Seq<char>,
    font: ObjectId,
)
    requires
        with_pictures(doc, page_id, pictures).1 is None,
        stored_names(pictures).no_duplicates(),
    ensures
        ({
            let after = with_pictures(doc, page_id, pictures).0;
            &&& forall|i: int|
                0 <= i < pictures.len() ==> has_resource(
                    after,
                    page_id,
                    "XObject"@,
                    (#[trigger] pictures[i]).0,
                    pictures[i].1,
                )
            &&& has_resource(doc, page_id, "Font"@, font_name, font) ==> has_resource(
                after,
                page_id,
                "Font"@,
                font_name,
                font,
            )
        }),
    decreases pictures.len(),
{
    if pictures.len() > 0 {
        let front = pictures.drop_last();
        let (name, id) = pictures.last();
        let names = stored_names(pictures);
        assert(stored_names(front) =~= names.drop_last());
        assert(stored_names(front).no_duplicates()) by {
            assert forall|i: int, j: int| 0 <= i < j < front.len() implies stored_names(front)[i]
                != stored_names(front)[j] by {
                assert(names[i] != names[j]);
            }
        }
        lemma_pictures_are_resources(doc, page_id, front, font_name, font);
        let mid = with_pictures(doc, page_id, front).0;
        let after = with_pictures(doc, page_id, pictures).0;
        resource_is_added(mid, page_id, key("XObject"@), encode_utf8(name), id);
        reveal_strlit("XObject");
        reveal_strlit("Font");
        lemma_keys_differ("XObject"@, "Font"@);
        assert forall|i: int| 0 <= i < pictures.len() implies has_resource(
            after,
            page_id,
            "XObject"@,
            (#[trigger] pictures[i]).0,
            pictures[i].1,
        ) by {
            if i < front.len() {
                assert(front[i] == pictures[i]);
                assert(names[i] != names[pictures.len() - 1]);
            }
        }
        if has_resource(doc, page_id, "Font"@, font_name, font) {
            assert(has_resource(mid, page_id, "Font"@, font_name, font));
        }
    }
}

/// A page that was written shows what it showed, and over it its overlays: its content is
/// a stream that saves the state of drawing, all that was there, whole and in order, and
/// one stream with the operators of the overlays. Each picture that the operators draw is
/// a resource of the page under its name, and so is the font where there is text.
#[verifier::rlimit(60)]
pub proof fn page_shows_its_overlays(
    doc: DocView,
    page: int,
    page_id: ObjectId,
    size: (i64, i64),
    overlays: Seq<OverlayView>,
    pictures: Seq<Option<DynamicImage>>,
    font: Seq<u8>,
    known_font: Option<ObjectId>,
)
    requires
        numbers_are_counted(doc),
        doc.dict_at(page_id) is Ok,
        resource_keys(doc, page_id, key("XObject"@)).finite(),
        page_written(doc, page, page_id, size, overlays, pictures, font, known_font).fault is None,
    ensures
        ({
            let written = page_written(
                doc,
                page,
                page_id,
                size,
                overlays,
                pictures,
                font,
                known_font,
            );
            let ctx = context_of(doc, page, page_id, size, font);
            let drawing = blank(doc, page_id).with_first(
                ctx,
                overlays,
                pictures,
                overlays.len() as int,
            ).0;
            let after = written.doc;
            &&& after.dict_at(page_id) is Ok
            &&& entry(after.dict_at(page_id)->Ok_0, key("Contents"@)) matches PdfValue::Array(items)
                && items.len() == page_parts(doc, page_id).len() + 2 && items.subrange(
                1,
                items.len() - 1,
            ) == page_parts(doc, page_id) && refers_to_stored(after, items[0], "q\n"@)
                && refers_to_stored(after, items[items.len() - 1], drawing.content)
            &&& forall|i: int|
                0 <= i < drawing.pictures.len() ==> has_resource(
                    after,
                    page_id,
                    "XObject"@,
                    (#[trigger] drawing.pictures[i]).0,
                    drawing.pictures[i].1,
                )
            &&& drawing.has_text ==> written.font_id is Some && has_resource(
                after,
                page_id,
                "Font"@,
                ctx.font_name,
                written.font_id->Some_0,
            )
            &&& drawing.has_text && known_font is Some ==> written.font_id == known_font
        }),
{
    reveal(page_written);
    let ctx = context_of(doc, page, page_id, size, font);
    let start = blank(doc, page_id);
    let n = overlays.len() as int;
    lemma_drawn(start, page_id, ctx, overlays, pictures, n);
    picture_names_are_distinct(doc, page_id, ctx, overlays, pictures, n);
    let (drawing, fault) = start.with_first(ctx, overlays, pictures, n);
    let last = drawing.doc.next_id();
    let doc1 = drawing.doc.added(overlay_stream(drawing.content));
    let doc3 = with_overlay(doc1, page_id, last).0;
    lemma_framed(doc, drawing.doc, page_id, drawing.content);
    let doc2 = doc1.added(plain_stream(key("q\n"@)));
    lemma_resources_entered(doc2, doc3, page_id, ctx, drawing, known_font);
    let after = with_resources(doc3, page_id, ctx, drawing, known_font).doc;
    lemma_frame_kept(doc2, after, page_id, doc1.next_id(), last);
}

/// The page after the overlay has been put behind its content.
proof fn lemma_framed(doc: DocView, drawn: DocView, page_id: ObjectId, content: Seq<char>)
    requires
        only_page_written(doc, drawn, page_id),
        page_parts(drawn, page_id) == page_parts(doc, page_id),
        drawn.max_id + 2 <= u32::MAX,
    ensures
        ({
            let last = drawn.next_id();
            let doc1 = drawn.added(overlay_stream(content));
            let doc2 = doc1.added(plain_stream(key("q\n"@)));
            let (doc3, r) = with_overlay(doc1, page_id, last);
            &&& only_page_written(doc2, doc3, page_id)
            &&& entry(doc3.dict_at(page_id)->Ok_0, key("Contents"@)) matches PdfValue::Array(items)
                && items.len() == page_parts(doc, page_id).len() + 2 && items.subrange(
                1,
                items.len() - 1,
            ) == page_parts(doc, page_id) && items[0] == PdfValue::Reference(doc1.next_id())
                && items[items.len() - 1] == PdfValue::Reference(last)
            &&& resolved(doc2.objects, page_id) != Ok::<ObjectId, Fault>(last)
            &&& resolved(doc2.objects, page_id) != Ok::<ObjectId, Fault>(doc1.next_id())
            &&& doc2.objects.dom().contains(last) && doc2.objects.dom().contains(doc1.next_id())
            &&& stores(doc2.objects[last], encode_utf8(content))
            &&& stores(doc2.objects[doc1.next_id()], encode_utf8("q\n"@))
        }),
{
    let last = drawn.next_id();
    let stream = overlay_stream(content);
    lemma_added(doc, drawn, page_id, stream);
    let doc1 = drawn.added(stream);
    let first = doc1.next_id();
    let q = plain_stream(key("q\n"@));
    lemma_added(doc, doc1, page_id, q);
    let doc2 = doc1.added(q);
    let parts = page_parts(doc, page_id);
    let value = crate::pagedict::sandwich(first, parts, last);
    lemma_reflexive(doc2, page_id);
    lemma_entered(doc2, doc2, page_id, key("Contents"@), value);
    operators_are_stored(content);
    lemma_plain_stored(key("q\n"@));
    crate::pagedict::lemma_resolved_is_there(drawn.objects, page_id, 129);
    assert(!drawn.objects.dom().contains(last));
    assert(!drawn.objects.dom().contains(first));
    assert(resolved(doc2.objects, page_id) == resolved(doc.objects, page_id));
    assert(resolved(drawn.objects, page_id) == resolved(doc.objects, page_id));
    let items = value->Array_0;
    assert(items.subrange(1, items.len() - 1) =~= parts);
    assert(items[0] == PdfValue::Reference(first));
    assert(items[items.len() - 1] == PdfValue::Reference(last));
}

proof fn lemma_plain_stored(bytes: Seq<u8>)
    ensures
        stores(plain_stream(bytes), bytes),
{
    reveal_strlit("Length");
    reveal_strlit("Filter");
    assert("Length"@[0] == 'L' && "Filter"@[0] == 'F');
    lemma_keys_differ("Length"@, "Filter"@);
}

/// The font and the pictures are entered, and nothing else happens to the page.
proof fn lemma_resources_entered(
    before: DocView,
    doc: DocView,
    page_id: ObjectId,
    ctx: DrawContext,
    drawing: Drawing,
    known_font: Option<ObjectId>,
)
    requires
        only_page_written(before, doc, page_id),
        with_resources(doc, page_id, ctx, drawing, known_font).fault is None,
        stored_names(drawing.pictures).no_duplicates(),
    ensures
        ({
            let written = with_resources(doc, page_id, ctx, drawing, known_font);
            let after = written.doc;
            &&& only_page_written(before, after, page_id)
            &&& entry(after.dict_at(page_id)->Ok_0, key("Contents"@)) == entry(
                doc.dict_at(page_id)->Ok_0,
                key("Contents"@),
            )
            &&& forall|i: int|
                0 <= i < drawing.pictures.len() ==> has_resource(
                    after,
                    page_id,
                    "XObject"@,
                    (#[trigger] drawing.pictures[i]).0,
                    drawing.pictures[i].1,
                )
            &&& drawing.has_text ==> written.font_id is Some && has_resource(
                after,
                page_id,
                "Font"@,
                ctx.font_name,
                written.font_id->Some_0,
            )
            &&& drawing.has_text && known_font is Some ==> written.font_id == known_font
        }),
{
    let doc4 = if drawing.has_text && known_font is None {
        with_font(doc, ctx.font, metrics_of(ctx.font))
    } else {
        doc
    };
    if drawing.has_text && known_font is None {
        lemma_font_added(before, doc, page_id, ctx.font);
    }
    let id = match known_font {
        Some(id) => id,
        None => font_id(doc),
    };
    let doc5 = if drawing.has_text {
        with_resource(doc4, page_id, key("Font"@), encode_utf8(ctx.font_name), id)->Ok_0
    } else {
        doc4
    };
    if drawing.has_text {
        lemma_resource_entered(before, doc4, page_id, key("Font"@), encode_utf8(ctx.font_name), id);
        resource_is_added(doc4, page_id, key("Font"@), encode_utf8(ctx.font_name), id);
        assert(has_resource(doc5, page_id, "Font"@, ctx.font_name, id));
    }
    lemma_pictures_entered(before, doc5, page_id, drawing.pictures);
    lemma_pictures_are_resources(doc5, page_id, drawing.pictures, ctx.font_name, id);
}

/// The streams around the content are still there.
proof fn lemma_frame_kept(
    before: DocView,
    after: DocView,
    page_id: ObjectId,
    first: ObjectId,
    last: ObjectId,
)
    requires
        only_page_written(before, after, page_id),
        before.objects.dom().contains(first),
        before.objects.dom().contains(last),
        resolved(before.objects, page_id) != Ok::<ObjectId, Fault>(first),
        resolved(before.objects, page_id) != Ok::<ObjectId, Fault>(last),
    ensures
        after.objects.dom().contains(first) && after.objects[first] == before.objects[first],
        after.objects.dom().contains(last) && after.objects[last] == before.objects[last],
{
}

/// The resources that stand at a value: a dictionary, or one that is referred to.
pub open spec fn resources_at(doc: DocView, value: PdfValue) -> Option<Map<Seq<u8>, PdfValue>> {
    match value {
        PdfValue::Dictionary(entries) => Some(entries),
        PdfValue::Reference(id) => match doc.dict_at(id) {
            Ok(entries) => Some(entries),
            Err(_) => None,
        },
        _ => None,
    }
}

/// A value that stands for resources.
pub open spec fn names_resources(value: PdfValue) -> bool {
    value is Dictionary || value is Reference
}

proof fn lemma_resources_at(doc: DocView, page_id: ObjectId, n: nat, fuel: nat)
    requires
        1 <= n <= fuel,
        ancestor(doc, page_id, n) is Some,
        resources_at(doc, ancestor_entry(doc, page_id, n, key("Resources"@))) is Some,
        forall|i: nat|
            1 <= i < n ==> !names_resources(
                #[trigger] ancestor_entry(doc, page_id, i, key("Resources"@)),
            ),
        doc.dict_at(page_id) is Ok,
    ensures
        Some(inherited_resources(doc, doc.dict_at(page_id)->Ok_0, fuel)) == resources_at(
            doc,
            ancestor_entry(doc, page_id, n, key("Resources"@)),
        ),
    decreases n,
{
    reveal_with_fuel(ancestor, 2);
    crate::laws::written::lemma_ancestor_first(doc, page_id, n);
    let parent = ancestor(doc, page_id, 1)->Some_0;
    assert(entry(doc.dict_at(page_id)->Ok_0, key("Parent"@)) == PdfValue::Reference(parent));
    if n > 1 {
        assert(!names_resources(ancestor_entry(doc, page_id, 1, key("Resources"@))));
        crate::laws::written::lemma_ancestor_shift(doc, page_id, (n - 1) as nat);
        crate::laws::written::lemma_ancestor_first(doc, parent, (n - 1) as nat);
        assert(doc.dict_at(parent) is Ok);
        assert forall|i: nat| 1 <= i < n - 1 implies !names_resources(
            #[trigger] ancestor_entry(doc, parent, i, key("Resources"@)),
        ) by {
            crate::laws::written::lemma_ancestor_shift(doc, page_id, i);
            assert(!names_resources(ancestor_entry(doc, page_id, i + 1, key("Resources"@))));
        }
        lemma_resources_at(doc, parent, (n - 1) as nat, (fuel - 1) as nat);
    }
}

/// The resources of a page are its own, or else those of the nearest of fifteen parents
/// that has any.
pub proof fn resources_are_inherited(doc: DocView, page_id: ObjectId, n: nat)
    requires
        n < 16,
        doc.dict_at(page_id) is Ok,
        ancestor(doc, page_id, n) is Some,
        resources_at(doc, ancestor_entry(doc, page_id, n, key("Resources"@))) is Some,
        forall|i: nat|
            i < n ==> !names_resources(
                #[trigger] ancestor_entry(doc, page_id, i, key("Resources"@)),
            ),
    ensures
        page_resources(doc, page_id) is Ok,
        Some(page_resources(doc, page_id)->Ok_0) == resources_at(
            doc,
            ancestor_entry(doc, page_id, n, key("Resources"@)),
        ),
{
    assert(ancestor(doc, page_id, 0) == Some(page_id));
    if n > 0 {
        assert(!names_resources(ancestor_entry(doc, page_id, 0, key("Resources"@))));
        lemma_resources_at(doc, page_id, n, (INHERITANCE_DEPTH - 1) as nat);
    }
}

/// The names that new resources keep clear of are all those that the page has of the type.
pub proof fn names_in_use_are_known(
    doc: DocView,
    page_id: ObjectId,
    res_type: Seq<char>,
    sub: Map<Seq<u8>, PdfValue>,
)
    requires
        page_resources(doc, page_id) is Ok,
        resources_at(doc, entry(page_resources(doc, page_id)->Ok_0, key(res_type))) == Some(sub),
    ensures
        resource_keys(doc, page_id, key(res_type)) == sub.dom(),
{
}

/// A value refers to a stream that stores a text.
pub open spec fn refers_to_stored(doc: DocView, value: PdfValue, text: Seq<char>) -> bool {
    match value {
        PdfValue::Reference(id) => doc.objects.dom().contains(id) && stores(
            doc.objects[id],
            encode_utf8(text),
        ),
        _ => false,
    }
}

/// A filter keeps exactly the pages that it selects, and blanks around it make no
/// difference.
pub proof fn filter_keeps_what_it_selects(
    before: Seq<char>,
    s: Seq<char>,
    after: Seq<char>,
    total: int,
    p: int,
)
    requires
        crate::laws::filter::all_blank(before),
        crate::laws::filter::all_blank(after),
        s.len() > 0,
        !white_space(s[0]),
        !white_space(s.last()),
        0 <= p <= usize::MAX,
        pages_of(s, total).len() > 0,
    ensures
        keep_of(before + s + after, total) is Ok,
        kept(keep_of(before + s + after, total)->Ok_0, p) <==> pages_of(s, total).contains(
            p as usize,
        ),
{
    crate::laws::filter::trimming_takes_blanks_off(before, s, after);
}

/// The pages of the output are taken from the source one by one, in order: each that is
/// kept, by its number from one on.
pub proof fn kept_pages_keep_their_order(
    order: Seq<ObjectId>,
    next: ObjectId,
    keep: Option<Seq<usize>>,
)
    ensures
        kept_pages(order.push(next), keep) == if kept(keep, order.len() as int + 1) {
            kept_pages(order, keep).push(next)
        } else {
            kept_pages(order, keep)
        },
        kept_pages(Seq::<ObjectId>::empty(), keep) == Seq::<ObjectId>::empty(),
        kept_pages(order, None) == order,
    decreases order.len(),
{
    assert(order.push(next).drop_last() =~= order);
    if order.len() > 0 {
        kept_pages_keep_their_order(order.drop_last(), order.last(), None);
        assert(order.drop_last().push(order.last()) =~= order);
    } else {
        assert(kept_pages(order, None) =~= order);
    }
}

/// A page number is kept where all are, or where it is in the list.
pub proof fn kept_means_listed(pages: Seq<usize>, p: usize)
    ensures
        kept(None, p as int),
        kept(Some(pages), p as int) <==> exists|i: int|
            0 <= i < pages.len() && #[trigger] pages[i] == p,
{
    if pages.contains(p) {
        let i = choose|i: int| 0 <= i < pages.len() && pages[i] == p;
        assert(pages[i] == p);
    }
}

/// Pages are written one after the other, until one cannot be written.
pub proof fn pages_are_written_in_order(
    work: Work,
    doc: DocView,
    order: Seq<ObjectId>,
    keep: Option<Seq<usize>>,
    n: int,
)
    requires
        n >= 0,
    ensures
        ({
            let before = work.written(doc, order, keep, n);
            &&& before.fault is None ==> work.written(doc, order, keep, n + 1) == work.with_page(
                before,
                order,
                keep,
                n + 1,
            )
            &&& before.fault is Some ==> work.written(doc, order, keep, n + 1) == before
            &&& work.written(doc, order, keep, 0) == (Written { doc, font_id: None, fault: None })
        }),
{
}

/// A resource can be added to every page whose resources can be read.
pub proof fn resources_can_be_added(
    doc: DocView,
    page_id: ObjectId,
    res_type: Seq<char>,
    name: Seq<u8>,
    id: ObjectId,
)
    requires
        doc.dict_at(page_id) is Ok,
        page_resources(doc, page_id) is Ok,
        !(entry(page_resources(doc, page_id)->Ok_0, key(res_type)) is Reference),
    ensures
        with_resource(doc, page_id, key(res_type), name, id) is Ok,
{
}

proof fn lemma_bars_are_drawn(
    start: Drawing,
    ctx: DrawContext,
    overlays: Seq<OverlayView>,
    pictures: Seq<Option<DynamicImage>>,
    n: int,
)
    requires
        0 <= n <= overlays.len(),
        forall|i: int|
            0 <= i < overlays.len() ==> (#[trigger] overlays[i]) is Redact || overlays[i] is PendingMark,
    ensures
        ({
            let (after, fault) = start.with_first(ctx, overlays, pictures, n);
            &&& fault is None
            &&& after.doc == start.doc
            &&& after.has_text == start.has_text
            &&& after.pictures == start.pictures
        }),
    decreases n,
{
    if n > 0 {
        lemma_bars_are_drawn(start, ctx, overlays, pictures, n - 1);
        assert(overlays[n - 1] is Redact || overlays[n - 1] is PendingMark);
    }
}

/// Redactions can be written on every page that can be found, in a document that has two
/// numbers left.
pub proof fn redactions_can_always_be_written(
    doc: DocView,
    page: int,
    page_id: ObjectId,
    size: (i64, i64),
    overlays: Seq<OverlayView>,
    pictures: Seq<Option<DynamicImage>>,
    font: Seq<u8>,
    known_font: Option<ObjectId>,
)
    requires
        numbers_are_counted(doc),
        doc.dict_at(page_id) is Ok,
        doc.max_id <= u32::MAX - 2,
        forall|i: int|
            0 <= i < overlays.len() ==> (#[trigger] overlays[i]) is Redact || overlays[i] is PendingMark,
    ensures
        ({
            let written = page_written(
                doc,
                page,
                page_id,
                size,
                overlays,
                pictures,
                font,
                known_font,
            );
            &&& written.fault is None
            &&& written.font_id == known_font
        }),
{
    reveal(page_written);
    let ctx = context_of(doc, page, page_id, size, font);
    let start = blank(doc, page_id);
    lemma_bars_are_drawn(start, ctx, overlays, pictures, overlays.len() as int);
    let drawing = start.with_first(ctx, overlays, pictures, overlays.len() as int).0;
    lemma_reflexive(doc, page_id);
    lemma_framed(doc, doc, page_id, drawing.content);
    let last = doc.next_id();
    let doc1 = doc.added(overlay_stream(drawing.content));
    lemma_added(doc, doc, page_id, overlay_stream(drawing.content));
    crate::pagedict::overlay_keeps_content(doc1, page_id, last);
    assert(drawing.pictures =~= Seq::empty());
}

} // verus!
