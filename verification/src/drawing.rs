//! Drawing the overlays of a page: the operators, the pictures and the font.

use image::DynamicImage;
use lopdf::{Dictionary, Document, ObjectId, Stream};
use vstd::prelude::*;
use vstd::utf8::encode_utf8;

use crate::content::{
    image_ops, line_views, push_image, push_redact, push_text, redact_ops, text_ops, PageSpace,
};
use crate::font::{
    embed_inter_font, font_id, glyphs_for_text, glyphs_of, metrics_of, with_font, Font,
};
use crate::names::{free_name, name_set, pick_free_name};
use crate::objects::{
    best_zlib, doc_view, error_fault, key, largest_id, packed_stream, stream_object, DocView, Fault,
    PdfValue,
};
use crate::overlay::{copy_bytes, overlay_views, overlays_bounded, Overlay, OverlayView};
use crate::pagedict::{
    add_page_resource, add_value, origin_of, page_resource_keys, plain_stream,
    read_page_media_box_origin, read_page_rotate, resource_keys, rotate_of, with_overlay,
    with_resource, wrap_and_append_overlay, INHERITANCE_DEPTH,
};
use crate::pages::NoPagesSelected;
use crate::picture::{embed_image, image_rgba, with_image, PictureError, PictureFault};
use crate::text::{chars_of, parts_of, split, string_of};
use crate::units::in_range;

verus! {

// ---------------------------------------------------------------------------
// Errors
// ---------------------------------------------------------------------------

/// Why overlays could not be written.
pub enum SaveError {
    /// The page filter selects no page.
    Filter(NoPagesSelected),
    /// The picture of an overlay is not at hand.
    Picture { page: usize, overlay: usize },
    /// A picture could not be packed.
    Packing(std::io::Error),
    /// The document is not what it should be.
    Pdf(lopdf::Error),
    /// The document has no object numbers left.
    Full,
    /// The page tree does not allow pages to be taken out.
    PageTree,
}

/// Why overlays could not be written, without the details.
pub enum SaveFault {
    Filter(Seq<char>),
    Picture(int, int),
    Packing,
    Pdf(Fault),
    Full,
    PageTree,
}

/// The fault that an error reports.
pub open spec fn save_fault(e: SaveError) -> SaveFault {
    match e {
        SaveError::Filter(f) => SaveFault::Filter(f.filter@),
        SaveError::Picture { page, overlay } => SaveFault::Picture(page as int, overlay as int),
        SaveError::Packing(_) => SaveFault::Packing,
        SaveError::Pdf(e) => SaveFault::Pdf(error_fault(e)),
        SaveError::Full => SaveFault::Full,
        SaveError::PageTree => SaveFault::PageTree,
    }
}

/// The fault of a call, if it failed.
pub open spec fn fault_of(r: Result<(), SaveError>) -> Option<SaveFault> {
    match r {
        Ok(_) => None,
        Err(e) => Some(save_fault(e)),
    }
}

// ---------------------------------------------------------------------------
// Drawing the overlays of a page
// ---------------------------------------------------------------------------

/// What is fixed while the overlays of a page are drawn.
pub struct DrawContext {
    pub page: int,
    pub space: PageSpace,
    /// The name of the text font among the page's resources.
    pub font_name: Seq<char>,
    /// The font file.
    pub font: Seq<u8>,
}

/// A page while its overlays are drawn.
pub struct Drawing {
    pub doc: DocView,
    /// The operators so far.
    pub content: Seq<char>,
    /// The names of the page's pictures.
    pub used: Set<Seq<u8>>,
    /// The pictures that were added, with their names.
    pub pictures: Seq<(Seq<char>, ObjectId)>,
    pub has_text: bool,
}

/// The glyphs of the lines of a text.
pub open spec fn glyph_lines(font: Seq<u8>, text: Seq<char>) -> Seq<Seq<u16>> {
    parts_of(text, '\n').map_values(|line: Seq<char>| glyphs_of(font, line))
}

impl Drawing {
    /// The drawing with one more overlay, the `i`th; also why it is incomplete.
    pub open spec fn with(
        self,
        ctx: DrawContext,
        overlay: OverlayView,
        picture: Option<DynamicImage>,
        i: int,
    ) -> (Drawing, Option<SaveFault>) {
        match overlay {
            OverlayView::Image { path, x, y, w, h } => match picture {
                Some(image) => {
                    let (iw, ih, pixels) = image_rgba(image);
                    let (doc, id) = with_image(self.doc, iw, ih, pixels);
                    match id {
                        Ok(id) => {
                            let name = free_name(self.used, "Im"@);
                            (
                                Drawing {
                                    doc,
                                    content: self.content + image_ops(ctx.space, name, x, y, w, h),
                                    used: self.used.insert(encode_utf8(name)),
                                    pictures: self.pictures.push((name, id)),
                                    ..self
                                },
                                None,
                            )
                        },
                        Err(PictureFault::Packing) => (
                            Drawing { doc, ..self },
                            Some(SaveFault::Packing),
                        ),
                        Err(PictureFault::Full) => (
                            Drawing { doc, ..self },
                            Some(SaveFault::Full),
                        ),
                    }
                },
                None => (self, Some(SaveFault::Picture(ctx.page, i))),
            },
            OverlayView::Text { text, x, y, size_pt, color } => (
                Drawing {
                    content: self.content + text_ops(
                        ctx.space,
                        ctx.font_name,
                        glyph_lines(ctx.font, text),
                        x,
                        y,
                        size_pt,
                        color,
                    ),
                    has_text: true,
                    ..self
                },
                None,
            ),
            OverlayView::Redact { x, y, w, h } => (
                Drawing { content: self.content + redact_ops(ctx.space, x, y, w, h), ..self },
                None,
            ),
            OverlayView::PendingMark { x, y, w, h } => (self, None),
        }
    }

    /// The drawing with the first `n` of a list of overlays, up to the first
    /// that cannot be drawn.
    pub open spec fn with_first(
        self,
        ctx: DrawContext,
        overlays: Seq<OverlayView>,
        pictures: Seq<Option<DynamicImage>>,
        n: int,
    ) -> (Drawing, Option<SaveFault>)
        decreases n,
    {
        if n <= 0 {
            (self, None)
        } else {
            let (drawing, fault) = self.with_first(ctx, overlays, pictures, n - 1);
            match fault {
                Some(_) => (drawing, fault),
                None => drawing.with(ctx, overlays[n - 1], picture_at(pictures, n - 1), n - 1),
            }
        }
    }
}

/// The picture for the `i`th overlay, where it is at hand.
pub open spec fn picture_at(pictures: Seq<Option<DynamicImage>>, i: int) -> Option<DynamicImage> {
    if 0 <= i < pictures.len() {
        pictures[i]
    } else {
        None
    }
}

/// Where a page lies, given its size as it is displayed.
pub open spec fn space_of(doc: DocView, page_id: ObjectId, size: (i64, i64)) -> PageSpace {
    let rotate = rotate_of(doc, page_id, INHERITANCE_DEPTH as nat);
    let (x0, y0) = origin_of(doc, page_id, INHERITANCE_DEPTH as nat);
    let turned = rotate == 90 || rotate == 270;
    PageSpace {
        rotate: rotate as i32,
        mb_w: if turned {
            size.1
        } else {
            size.0
        },
        mb_h: if turned {
            size.0
        } else {
            size.1
        },
        x0: x0 as i64,
        y0: y0 as i64,
        page_h: size.1,
    }
}

/// What is fixed while the overlays of a page are drawn.
pub open spec fn context_of(
    doc: DocView,
    page: int,
    page_id: ObjectId,
    size: (i64, i64),
    font: Seq<u8>,
) -> DrawContext {
    DrawContext {
        page,
        space: space_of(doc, page_id, size),
        font_name: free_name(resource_keys(doc, page_id, key("Font"@)), "F"@),
        font,
    }
}

/// A page before its overlays are drawn. The content begins by closing what is
/// put before the page's own content.
pub open spec fn blank(doc: DocView, page_id: ObjectId) -> Drawing {
    Drawing {
        doc,
        content: "Q\n"@,
        used: resource_keys(doc, page_id, key("XObject"@)),
        pictures: Seq::empty(),
        has_text: false,
    }
}

/// A document after a page has been written, the text font if it has been
/// embedded by now, and why the page is incomplete.
pub struct Written {
    pub doc: DocView,
    pub font_id: Option<ObjectId>,
    pub fault: Option<SaveFault>,
}

/// The document with the drawn pictures among the page's resources.
pub open spec fn with_pictures(
    doc: DocView,
    page_id: ObjectId,
    pictures: Seq<(Seq<char>, ObjectId)>,
) -> (DocView, Option<SaveFault>)
    decreases pictures.len(),
{
    if pictures.len() == 0 {
        (doc, None)
    } else {
        let (before, fault) = with_pictures(doc, page_id, pictures.drop_last());
        match fault {
            Some(_) => (before, fault),
            None => {
                let (name, id) = pictures.last();
                match with_resource(before, page_id, key("XObject"@), encode_utf8(name), id) {
                    Ok(after) => (after, None),
                    Err(fault) => (before, Some(SaveFault::Pdf(fault))),
                }
            },
        }
    }
}

/// The document after a page's content has been written: its pictures and, where
/// it has text, the font are entered among its resources.
pub open spec fn with_resources(
    doc: DocView,
    page_id: ObjectId,
    ctx: DrawContext,
    drawing: Drawing,
    font: Option<ObjectId>,
) -> Written {
    if drawing.has_text && font is None && doc.max_id + 4 > u32::MAX {
        Written { doc, font_id: None, fault: Some(SaveFault::Full) }
    } else if drawing.has_text {
        let (doc1, id) = match font {
            Some(id) => (doc, id),
            None => (with_font(doc, ctx.font, metrics_of(ctx.font)), font_id(doc)),
        };
        match with_resource(doc1, page_id, key("Font"@), encode_utf8(ctx.font_name), id) {
            Ok(doc2) => {
                let (doc3, fault) = with_pictures(doc2, page_id, drawing.pictures);
                Written { doc: doc3, font_id: Some(id), fault }
            },
            Err(fault) => Written {
                doc: doc1,
                font_id: Some(id),
                fault: Some(SaveFault::Pdf(fault)),
            },
        }
    } else {
        let (doc3, fault) = with_pictures(doc, page_id, drawing.pictures);
        Written { doc: doc3, font_id: font, fault }
    }
}

/// The stream that holds the operators of an overlay.
pub open spec fn overlay_stream(content: Seq<char>) -> PdfValue {
    packed_stream(plain_stream(encode_utf8(content)), best_zlib(encode_utf8(content)))
}

/// A document after the overlays of a page have been written.
#[verifier::opaque]
pub open spec fn page_written(
    doc: DocView,
    page: int,
    page_id: ObjectId,
    size: (i64, i64),
    overlays: Seq<OverlayView>,
    pictures: Seq<Option<DynamicImage>>,
    font: Seq<u8>,
    known_font: Option<ObjectId>,
) -> Written {
    let ctx = context_of(doc, page, page_id, size, font);
    let (drawing, fault) = blank(doc, page_id).with_first(
        ctx,
        overlays,
        pictures,
        overlays.len() as int,
    );
    match fault {
        Some(_) => Written { doc: drawing.doc, font_id: known_font, fault },
        None => if drawing.doc.max_id + 2 > u32::MAX {
            Written { doc: drawing.doc, font_id: known_font, fault: Some(SaveFault::Full) }
        } else {
            let overlay_id = drawing.doc.next_id();
            let doc1 = drawing.doc.added(overlay_stream(drawing.content));
            let (doc2, r) = with_overlay(doc1, page_id, overlay_id);
            match r {
                Ok(_) => with_resources(doc2, page_id, ctx, drawing, known_font),
                Err(fault) => Written {
                    doc: doc2,
                    font_id: known_font,
                    fault: Some(SaveFault::Pdf(fault)),
                },
            }
        },
    }
}

// ---------------------------------------------------------------------------
// Writing a page
// ---------------------------------------------------------------------------

/// The state of a drawing beside the document.
struct Draft {
    content: String,
    used: Vec<Vec<u8>>,
    pictures: Vec<(String, ObjectId)>,
    has_text: bool,
}

spec fn picture_views(pictures: Seq<(String, ObjectId)>) -> Seq<(Seq<char>, ObjectId)> {
    pictures.map_values(|p: (String, ObjectId)| (p.0@, p.1))
}

impl Draft {
    /// The drawing that this is, in a document.
    spec fn on(self, doc: DocView) -> Drawing {
        Drawing {
            doc,
            content: self.content@,
            used: name_set(self.used@),
            pictures: picture_views(self.pictures@),
            has_text: self.has_text,
        }
    }
}

spec fn picture_view(picture: Option<&DynamicImage>) -> Option<DynamicImage> {
    match picture {
        Some(image) => Some(*image),
        None => None,
    }
}

fn lines_as_glyphs(font: &Font, text: &str) -> (r: Vec<Vec<u16>>)
    ensures
        line_views(r@) == glyph_lines(font.data(), text@),
{
    let parts = split(&chars_of(text), '\n');
    let ghost lines = glyph_lines(font.data(), text@);
    let n = parts.len();
    let mut r: Vec<Vec<u16>> = Vec::new();
    let mut i: usize = 0;
    assert(line_views(r@) =~= lines.take(0));
    while i < n
        invariant
            n == parts.len(),
            i <= n,
            crate::text::part_views(parts@) == parts_of(text@, '\n'),
            lines == glyph_lines(font.data(), text@),
            line_views(r@) == lines.take(i as int),
        decreases n - i,
    {
        let line = string_of(&parts[i]);
        let glyphs = glyphs_for_text(font, line.as_str());
        assert(line@ == crate::text::part_views(parts@)[i as int]);
        let ghost before = r@;
        r.push(glyphs);
        i += 1;
        assert(line_views(r@) =~= line_views(before).push(glyphs@));
        assert(lines[i - 1] == glyphs@);
        assert(line_views(r@) =~= lines.take(i as int));
    }
    assert(lines.len() == n);
    assert(lines.take(n as int) =~= lines);
    r
}

fn draw_overlay(
    doc: &mut Document,
    draft: &mut Draft,
    page: usize,
    space: &PageSpace,
    font_name: &str,
    font: &Font,
    overlay: &Overlay,
    picture: Option<&DynamicImage>,
    i: usize,
) -> (r: Result<(), SaveError>)
    requires
        space.wf(),
        overlay@.bounded(),
    ensures
        (old(draft).on(doc_view(*old(doc)))).with(
            (DrawContext {
                page: page as int,
                space: *space,
                font_name: font_name@,
                font: font.data(),
            }),
            overlay@,
            picture_view(picture),
            i as int,
        ) == (final(draft).on(doc_view(*final(doc))), fault_of(r)),
{
    match overlay {
        Overlay::Image { path: _, x, y, w, h } => {
            let image = match picture {
                Some(image) => image,
                None => return Err(SaveError::Picture { page, overlay: i }),
            };
            let id = match embed_image(doc, image) {
                Ok(id) => id,
                Err(PictureError::Packing(e)) => return Err(SaveError::Packing(e)),
                Err(PictureError::Full) => return Err(SaveError::Full),
            };
            let name = pick_free_name(&draft.used, "Im");
            push_image(&mut draft.content, space, name.as_str(), *x, *y, *w, *h);
            draft.used.push(copy_bytes(name.as_str().as_bytes()));
            draft.pictures.push((name, id));
            assert(name_set(draft.used@) =~= name_set(old(draft).used@).insert(
                encode_utf8(name@),
            )) by {
                lemma_name_set_push(old(draft).used@, draft.used@.last());
                assert(draft.used@ =~= old(draft).used@.push(draft.used@.last()));
            }
            assert(picture_views(draft.pictures@) =~= picture_views(old(draft).pictures@).push(
                (name@, id),
            ));
        },
        Overlay::Text { text, x, y, size_pt, color } => {
            draft.has_text = true;
            let lines = lines_as_glyphs(font, text.as_str());
            push_text(
                &mut draft.content,
                space,
                font_name,
                &lines,
                *x,
                *y,
                *size_pt,
                *color,
            );
        },
        Overlay::Redact { x, y, w, h } => {
            push_redact(&mut draft.content, space, *x, *y, *w, *h);
        },
        Overlay::PendingMark { x: _, y: _, w: _, h: _ } => {},
    }
    Ok(())
}

proof fn lemma_name_set_push(names: Seq<Vec<u8>>, name: Vec<u8>)
    ensures
        name_set(names.push(name)) == name_set(names).insert(name@),
{
    let views = crate::names::name_views(names);
    let more = crate::names::name_views(names.push(name));
    assert(more =~= views.push(name@));
    assert forall|s: Seq<u8>| more.to_set().contains(s) == views.to_set().insert(name@).contains(
        s,
    ) by {
        if more.contains(s) {
            let i = choose|i: int| 0 <= i < more.len() && more[i] == s;
            if i < views.len() {
                assert(views[i] == s);
            }
        }
        if views.contains(s) {
            let i = choose|i: int| 0 <= i < views.len() && views[i] == s;
            assert(more[i] == s);
        }
        assert(more[views.len() as int] == name@);
    }
    assert(more.to_set() =~= views.to_set().insert(name@));
}

fn add_pictures(doc: &mut Document, page_id: ObjectId, pictures: &Vec<(String, ObjectId)>) -> (r:
    Result<(), SaveError>)
    ensures
        (doc_view(*final(doc)), fault_of(r)) == with_pictures(
            doc_view(*old(doc)),
            page_id,
            picture_views(pictures@),
        ),
{
    let ghost start = doc_view(*doc);
    let ghost views = picture_views(pictures@);
    let n = pictures.len();
    let mut i: usize = 0;
    while i < n
        invariant
            n == pictures.len(),
            i <= n,
            start == doc_view(*old(doc)),
            views == picture_views(pictures@),
            (doc_view(*doc), None::<SaveFault>) == with_pictures(
                start,
                page_id,
                views.take(i as int),
            ),
        decreases n - i,
    {
        let name = &pictures[i].0;
        let id = pictures[i].1;
        assert(views.take(i + 1).drop_last() =~= views.take(i as int));
        assert(views.take(i + 1).last() == (name@, id));
        if let Err(e) = add_page_resource(
            doc,
            page_id,
            "XObject".as_bytes(),
            name.as_str().as_bytes(),
            id,
        ) {
            proof {
                lemma_pictures_stop(start, page_id, views, i + 1);
            }
            return Err(SaveError::Pdf(e));
        }
        i += 1;
    }
    assert(views.take(n as int) =~= views);
    Ok(())
}

/// Once entering a picture has failed, nothing more is entered.
proof fn lemma_pictures_stop(
    doc: DocView,
    page_id: ObjectId,
    pictures: Seq<(Seq<char>, ObjectId)>,
    n: int,
)
    requires
        0 <= n <= pictures.len(),
        with_pictures(doc, page_id, pictures.take(n)).1 is Some,
    ensures
        with_pictures(doc, page_id, pictures) == with_pictures(doc, page_id, pictures.take(n)),
    decreases pictures.len() - n,
{
    if n == pictures.len() {
        assert(pictures.take(n) =~= pictures);
    } else {
        assert(pictures.take(n + 1).drop_last() =~= pictures.take(n));
        lemma_pictures_stop(doc, page_id, pictures, n + 1);
    }
}

/// Once drawing an overlay has failed, nothing more is drawn.
proof fn lemma_drawing_stops(
    start: Drawing,
    ctx: DrawContext,
    overlays: Seq<OverlayView>,
    pictures: Seq<Option<DynamicImage>>,
    m: int,
    n: int,
)
    requires
        0 <= m <= n,
        start.with_first(ctx, overlays, pictures, m).1 is Some,
    ensures
        start.with_first(ctx, overlays, pictures, n) == start.with_first(
            ctx,
            overlays,
            pictures,
            m,
        ),
    decreases n - m,
{
    if m < n {
        lemma_drawing_stops(start, ctx, overlays, pictures, m, n - 1);
    }
}

fn space_for(doc: &Document, page_id: ObjectId, size: (i64, i64)) -> (r: PageSpace)
    requires
        in_range(size.0 as int),
        in_range(size.1 as int),
    ensures
        r == space_of(doc_view(*doc), page_id, size),
        r.wf(),
{
    let rotate = read_page_rotate(doc, page_id);
    let (x0, y0) = read_page_media_box_origin(doc, page_id);
    let turned = rotate == 90 || rotate == 270;
    PageSpace {
        rotate,
        mb_w: if turned {
            size.1
        } else {
            size.0
        },
        mb_h: if turned {
            size.0
        } else {
            size.1
        },
        x0,
        y0,
        page_h: size.1,
    }
}

/// Write the overlays of a page, given with its number and its size as it is
/// displayed. The content of the page is kept and the overlays are drawn over
/// it; names of resources are chosen so that none of the page's own is taken.
/// The font is embedded with the first text and used again after that.
#[verifier::rlimit(40)]
pub fn write_overlays_for_page(
    doc: &mut Document,
    page: usize,
    page_id: ObjectId,
    size: (i64, i64),
    overlays: &Vec<Overlay>,
    pictures: &Vec<Option<DynamicImage>>,
    font: &Font,
    known_font: &mut Option<ObjectId>,
) -> (r: Result<(), SaveError>)
    requires
        in_range(size.0 as int),
        in_range(size.1 as int),
        overlays_bounded(overlay_views(overlays@)),
    ensures
        page_written(
            doc_view(*old(doc)),
            page as int,
            page_id,
            size,
            overlay_views(overlays@),
            pictures@,
            font.data(),
            *old(known_font),
        ) == (Written {
            doc: doc_view(*final(doc)),
            font_id: *final(known_font),
            fault: fault_of(r),
        }),
{
    let ghost start = doc_view(*doc);
    let ghost views = overlay_views(overlays@);
    let fonts = page_resource_keys(doc, page_id, "Font".as_bytes());
    let used = page_resource_keys(doc, page_id, "XObject".as_bytes());
    let font_name = pick_free_name(&fonts, "F");
    let space = space_for(doc, page_id, size);
    let ghost ctx = context_of(start, page as int, page_id, size, font.data());
    let mut content = String::new();
    content.append("Q\n");
    let mut draft = Draft { content, used, pictures: Vec::new(), has_text: false };
    proof {
        assert(draft.content@ =~= "Q\n"@);
        assert(picture_views(draft.pictures@) =~= Seq::empty());
    }
    let n = overlays.len();
    let mut i: usize = 0;
    while i < n
        invariant
            n == overlays.len(),
            i <= n,
            space.wf(),
            start == doc_view(*old(doc)),
            views == overlay_views(overlays@),
            overlays_bounded(views),
            ctx == context_of(start, page as int, page_id, size, font.data()),
            ctx == (DrawContext {
                page: page as int,
                space,
                font_name: font_name@,
                font: font.data(),
            }),
            *known_font == *old(known_font),
            blank(start, page_id).with_first(ctx, views, pictures@, i as int) == (
                draft.on(doc_view(*doc)),
                None::<SaveFault>,
            ),
        decreases n - i,
    {
        assert(views[i as int] == overlays@[i as int]@);
        let picture = if i < pictures.len() {
            pictures[i].as_ref()
        } else {
            None
        };
        assert(picture_view(picture) == picture_at(pictures@, i as int));
        match draw_overlay(
            doc,
            &mut draft,
            page,
            &space,
            font_name.as_str(),
            font,
            &overlays[i],
            picture,
            i,
        ) {
            Ok(_) => {},
            Err(e) => {
                proof {
                    reveal(page_written);
                    lemma_drawing_stops(
                        blank(start, page_id),
                        ctx,
                        views,
                        pictures@,
                        i + 1,
                        n as int,
                    );
                }
                return Err(e);
            },
        }
        i += 1;
    }
    proof {
        reveal(page_written);
    }
    if largest_id(doc) > u32::MAX - 2 {
        return Err(SaveError::Full);
    }
    let mut stream = Stream::new(Dictionary::new(), copy_bytes(draft.content.as_str().as_bytes()));
    let _ = stream.compress();
    let overlay_id = add_value(doc, stream_object(stream));
    if let Err(e) = wrap_and_append_overlay(doc, page_id, overlay_id) {
        return Err(SaveError::Pdf(e));
    }
    if draft.has_text {
        let id = match known_font {
            Some(id) => *id,
            None => {
                if largest_id(doc) > u32::MAX - 4 {
                    return Err(SaveError::Full);
                }
                let id = embed_inter_font(doc, font);
                *known_font = Some(id);
                id
            },
        };
        if let Err(e) = add_page_resource(
            doc,
            page_id,
            "Font".as_bytes(),
            font_name.as_str().as_bytes(),
            id,
        ) {
            return Err(SaveError::Pdf(e));
        }
    }
    add_pictures(doc, page_id, &draft.pictures)
}

} // verus!
