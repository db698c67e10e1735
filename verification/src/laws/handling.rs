//! Keys, dropped files and the pointer within one frame, by what they lead to.

use image::DynamicImage;
use lopdf::Document;

use vstd::prelude::*;

use crate::app::AppView;
use crate::drawing::{DrawContext, Drawing, SaveFault};
use crate::editor::EditView;
use crate::files::FileKind;
use crate::geom::{frame_of, Rect};
use crate::input::{steps_of, DropAction, GlobalKeys, Key, KeyEvent};
use crate::laws::placing::{pressed, same_but_overlays, shown};
use crate::load::{opening, Opened};
use crate::merge::{others_of, RectKind};
use crate::objects::DocView;
use crate::overlay::OverlayView;
use crate::pages::{dropped_pages, kept};
use crate::pagetree::can_be_taken_out;
use crate::panels::BandStyle;
use crate::pointer::PointerInput;
use crate::pruning::without_pages;
use crate::save::{keep_of, Work};
use crate::screen::{PageLayout, Point};
use crate::stamp::Date;
use crate::text::span_of;

verus! {

// ---------------------------------------------------------------------------
// Keys
// ---------------------------------------------------------------------------

/// The keys that work everywhere: saving needs a document; deleting, sizes, help and
/// quitting wait while text is entered; an open help takes all of them, and the help key,
/// Escape or the key to quit closes it.
pub proof fn keys_that_work_everywhere(app: AppView, keys: GlobalKeys)
    ensures
        ({
            let (after, todo) = app.after_global_keys(keys);
            &&& keys.typing ==> after == app && !todo.quit && todo.save == (keys.save
                && app.pages.len() > 0) && todo.duplicate == keys.duplicate
            &&& !keys.typing && app.help_open && !keys.help ==> !todo.quit && !todo.save
                && !todo.duplicate && after == (AppView {
                help_open: !(keys.escape || keys.quit),
                ..app
            })
            &&& !keys.typing && app.help_open && keys.help && !keys.delete && steps_of(keys.events@)
                == 0 ==> after == (AppView { help_open: false, ..app })
            &&& !keys.typing && !app.help_open && keys.help ==> !todo.quit && !todo.save
                && !todo.duplicate && after == (AppView {
                help_open: !(keys.escape || keys.quit),
                ..app
            })
            &&& !keys.typing && !app.help_open && !keys.help ==> todo.quit == keys.quit && todo.save
                == (keys.save && app.pages.len() > 0) && todo.duplicate == keys.duplicate
            &&& !keys.typing && !app.help_open && !keys.help && !keys.delete && steps_of(
                keys.events@,
            ) == 0 ==> after == app
            &&& !keys.typing && !app.help_open && !keys.help && keys.delete && steps_of(
                keys.events@,
            ) == 0 ==> after == app.deleted()
            &&& !keys.typing && !app.help_open && !keys.help && !keys.delete && steps_of(
                keys.events@,
            ) != 0 ==> after == app.size_adjusted(steps_of(keys.events@))
        }),
{
}

/// The key `d` deletes what is selected. Nothing is selected then, and nothing else is
/// changed; without a selection it does nothing.
pub proof fn delete_key(app: AppView, pos: Point, at: Point, today: Date)
    requires
        app.wf(),
        app.has_page(),
    ensures
        ({
            let after = app.after_page_key(pressed(Key::D, false), pos, at, today);
            &&& after == app.deleted()
            &&& same_but_overlays(app, after)
            &&& after.selected.len() == 0
            &&& app.selected.len() == 0 ==> after == app
            &&& app.selected.len() > 0 ==> shown(after) == crate::app::unselected(
                shown(app),
                app.selected,
            )
        }),
{
}

/// Escape leaves both modes and drops all marks, and keeps everything else; where no mode
/// is on it does nothing.
pub proof fn escape_key(app: AppView, pos: Point, at: Point, today: Date, shift: bool)
    requires
        app.wf(),
        app.has_page(),
    ensures
        ({
            let after = app.after_page_key(pressed(Key::Escape, shift), pos, at, today);
            &&& !app.block_mode && !app.mark_mode ==> after == app
            &&& app.block_mode || app.mark_mode ==> same_but_overlays(
                AppView { block_mode: false, mark_mode: false, ..app },
                after,
            ) && after.selected == app.selected && shown(after) == others_of(
                shown(app),
                RectKind::PendingMark,
            )
        }),
{
}

/// What is no mark, in its order: one overlay after the other.
pub proof fn others_than_marks(overlays: Seq<OverlayView>, next: OverlayView)
    ensures
        others_of(overlays.push(next), RectKind::PendingMark) == if next is PendingMark {
            others_of(overlays, RectKind::PendingMark)
        } else {
            others_of(overlays, RectKind::PendingMark).push(next)
        },
        others_of(overlays.push(next), RectKind::Redact) == if next is Redact {
            others_of(overlays, RectKind::Redact)
        } else {
            others_of(overlays, RectKind::Redact).push(next)
        },
{
    assert(overlays.push(next).drop_last() =~= overlays);
}

/// Keys pressed one after the other work one after the other.
pub proof fn keys_work_in_their_order(
    app: AppView,
    events: Seq<KeyEvent>,
    next: KeyEvent,
    pos: Point,
    at: Point,
    today: Date,
)
    ensures
        app.after_page_keys(events.push(next), pos, at, today) == app.after_page_keys(
            events,
            pos,
            at,
            today,
        ).after_page_key(next, pos, at, today),
        app.after_page_keys(Seq::empty(), pos, at, today) == app,
{
    assert(events.push(next).drop_last() =~= events);
}

// ---------------------------------------------------------------------------
// Dropped files
// ---------------------------------------------------------------------------

/// A dropped document is opened, and a dropped picture placed where a document is open;
/// without one, and for any other file, a message says so and nothing else happens.
pub proof fn dropped_files_are_opened_or_placed(app: AppView, name: Seq<char>)
    ensures
        app.after_drop(FileKind::Pdf, name) == (app, DropAction::OpenPdf),
        app.pages.len() > 0 ==> app.after_drop(FileKind::Image, name) == (app, DropAction::AddImage),
        app.pages.len() == 0 ==> app.after_drop(FileKind::Image, name) == (
            AppView {
                status: "Drop a PDF first, then drop the signature image."@,
                ..app
            },
            DropAction::Nothing,
        ),
        app.after_drop(FileKind::Other, name) == (
            AppView { status: "Unsupported file type: "@ + name, ..app },
            DropAction::Nothing,
        ),
{
}

// ---------------------------------------------------------------------------
// The pointer
// ---------------------------------------------------------------------------

/// In a frame a drag begins where the button was pressed, or else where the pointer is;
/// then it moves what it holds to the pointer; then it ends. What did not happen changes
/// nothing.
pub proof fn drags_of_a_frame(
    app: AppView,
    input: PointerInput,
    rects: Seq<Rect>,
    layout: PageLayout,
    from: Point,
    to: Point,
)
    ensures
        input.drag_started && !input.dragged && !input.drag_stopped && (input.press_origin == Some(
            from,
        ) || (input.press_origin is None && input.pos == Some(from))) ==> app.after_drags(
            input,
            rects,
            layout,
        ) == (app.drag_begun(rects, from), None::<Rect>),
        !input.drag_started && input.dragged && !input.drag_stopped && input.pos == Some(to)
            ==> app.after_drags(input, rects, layout) == (app.dragged_to(to, layout), None::<Rect>),
        !input.drag_started && !input.dragged && input.drag_stopped ==> app.after_drags(
            input,
            rects,
            layout,
        ) == app.drag_ended(input.pos, rects, layout),
        !input.drag_started && !input.dragged && !input.drag_stopped ==> app.after_drags(
            input,
            rects,
            layout,
        ) == (app, None::<Rect>),
        input.drag_started && input.dragged && !input.drag_stopped && input.press_origin == Some(
            from,
        ) && input.pos == Some(to) ==> app.after_drags(input, rects, layout) == (
            app.drag_begun(rects, from).dragged_to(to, layout),
            None::<Rect>,
        ),
{
}

/// A drag that has ended holds nothing and draws no band. One that drew no band changes
/// nothing else.
pub proof fn ended_drag_holds_nothing(
    app: AppView,
    end: Option<Point>,
    rects: Seq<Rect>,
    layout: PageLayout,
)
    ensures
        app.drag_ended(end, rects, layout).0.drag_offsets.len() == 0,
        app.drag_ended(end, rects, layout).0.rubber_band is None,
        app.rubber_band is None ==> app.drag_ended(end, rects, layout) == (
            AppView { drag_offsets: Seq::empty(), ..app },
            None::<Rect>,
        ),
{
}

/// The band of a drag reaches from where it began to where it ends.
pub proof fn band_reaches_to_the_end(
    app: AppView,
    from: Point,
    to: Point,
    rects: Seq<Rect>,
    layout: PageLayout,
)
    requires
        app.rubber_band == Some(from),
    ensures
        app.band_ended(Some(to), rects, layout) == (AppView {
            rubber_band: None,
            ..app
        }).band_drawn(crate::screen::band_of(from, to), rects, layout),
        app.band_ended(None, rects, layout) == app.band_ended(Some(from), rects, layout),
{
}

/// In a frame without a click nothing is clicked; a click is where the pointer is.
pub proof fn clicks_of_a_frame(app: AppView, input: PointerInput, rects: Seq<Rect>, pos: Point)
    ensures
        !input.clicked || input.pos is None ==> app.after_clicks(input, rects) == app,
        input.clicked && input.pos == Some(pos) ==> app.after_clicks(input, rects) == app.clicked(
            rects,
            pos,
            input.ctrl,
        ),
{
}

// ---------------------------------------------------------------------------
// The editor
// ---------------------------------------------------------------------------

/// Where the overlay that was edited is gone, the editor closes and nothing else changes;
/// without an editor nothing happens.
pub proof fn editor_closes_without_its_text(app: AppView, input: Option<EditView>)
    ensures
        app.editing is Some ==> app.edited(None) == (AppView {
            editing: None,
            editing_just_focused: false,
            edit_cursor_range: None,
            ..app
        }),
        app.editing is None ==> app.edited(input) == app,
{
}

/// The text that is active is the one that is edited, or else the first selected one; the
/// picker begins with the colour of the first selected text, or that of new text.
pub proof fn active_text_is_edited_or_selected(app: AppView, k: int)
    requires
        app.has_page(),
        0 <= k < app.selected.len(),
        app.selected[k] < shown(app).len(),
        shown(app)[app.selected[k] as int] is Text,
        forall|j: int|
            0 <= j < k ==> (#[trigger] app.selected[j]) >= shown(app).len() || !(
            shown(app)[app.selected[j] as int] is Text),
    ensures
        app.editing is None ==> app.active_text() == Some(app.selected[k]),
        app.editing is Some ==> app.active_text() == app.editing,
        shown(app)[app.selected[k] as int] matches OverlayView::Text { color, .. }
            ==> app.picker_start() == color,
{
    lemma_first_text(shown(app), app.selected, k);
}

proof fn lemma_first_text(overlays: Seq<OverlayView>, selected: Seq<usize>, k: int)
    requires
        0 <= k < selected.len(),
        selected[k] < overlays.len(),
        overlays[selected[k] as int] is Text,
        forall|j: int|
            0 <= j < k ==> (#[trigger] selected[j]) >= overlays.len() || !(
            overlays[selected[j] as int] is Text),
    ensures
        crate::app::first_text(overlays, selected) == Some(selected[k]),
        overlays[selected[k] as int] matches OverlayView::Text { color, .. }
            ==> crate::app::first_color(overlays, selected) == Some(color),
    decreases k,
{
    if k > 0 {
        let rest = selected.drop_first();
        assert(rest[k - 1] == selected[k]);
        assert forall|j: int| 0 <= j < k - 1 implies (#[trigger] rest[j]) >= overlays.len() || !(
        overlays[rest[j] as int] is Text) by {
            assert(rest[j] == selected[j + 1]);
        }
        assert(selected[0] >= overlays.len() || !(overlays[selected[0] as int] is Text));
        lemma_first_text(overlays, rest, k - 1);
    }
}

// ---------------------------------------------------------------------------
// Failures
// ---------------------------------------------------------------------------

/// A picture that is not at hand stops the drawing with the numbers of its page and of its
/// overlay, and nothing of it is drawn; a mark is never drawn.
pub proof fn missing_picture_is_told(
    start: Drawing,
    ctx: DrawContext,
    o: OverlayView,
    picture: Option<DynamicImage>,
    i: int,
)
    ensures
        o is Image && picture is None ==> start.with(ctx, o, picture, i) == (
            start,
            Some(SaveFault::Picture(ctx.page, i)),
        ),
        o is PendingMark ==> start.with(ctx, o, picture, i) == (start, None::<SaveFault>),
        o is Text || o is Redact ==> start.with(ctx, o, picture, i).1 is None && start.with(
            ctx,
            o,
            picture,
            i,
        ).0.doc == start.doc,
{
}

/// Overlays are drawn one after the other, until one cannot be drawn.
pub proof fn overlays_are_drawn_in_order(
    start: Drawing,
    ctx: DrawContext,
    overlays: Seq<OverlayView>,
    pictures: Seq<Option<DynamicImage>>,
    n: int,
)
    requires
        0 <= n < overlays.len(),
    ensures
        ({
            let (before, fault) = start.with_first(ctx, overlays, pictures, n);
            let picture = if n < pictures.len() {
                pictures[n]
            } else {
                None
            };
            &&& fault is None ==> start.with_first(ctx, overlays, pictures, n + 1) == before.with(
                ctx,
                overlays[n],
                picture,
                n,
            )
            &&& fault is Some ==> start.with_first(ctx, overlays, pictures, n + 1) == (
                before,
                fault,
            )
            &&& start.with_first(ctx, overlays, pictures, 0) == (start, None::<SaveFault>)
        }),
{
}

/// A filter that selects nothing leaves the document as it is and is told with its text.
/// A document of which every page is kept is what was written; from any other, exactly the
/// pages that are not kept are taken out, where its page tree allows that.
pub proof fn saved_document_has_the_selected_pages(work: Work, doc: DocView, filter: Seq<char>)
    ensures
        ({
            let order = crate::pagetree::pages_of_doc(doc);
            match keep_of(filter, order.len() as int) {
                Err(text) => work.saved(doc, filter) == (doc, Some(SaveFault::Filter(text))),
                Ok(None) => order.len() <= u32::MAX ==> work.saved(doc, filter) == ({
                    let written = work.written(doc, order, None, order.len() as int);
                    (written.doc, written.fault)
                }),
                Ok(Some(pages)) => order.len() <= u32::MAX ==> {
                    let written = work.written(doc, order, Some(pages), order.len() as int);
                    let all = forall|p: u32|
                        1 <= p <= order.len() ==> #[trigger] pages.contains(p as usize);
                    &&& written.fault is Some || all ==> work.saved(doc, filter) == (
                        written.doc,
                        written.fault,
                    )
                    &&& written.fault is None && !all ==> exists|dropped: Seq<u32>|
                        (forall|p: u32| #[trigger]
                            dropped.contains(p) <==> 1 <= p <= order.len() && !pages.contains(
                                p as usize,
                            )) && work.saved(doc, filter) == (if #[trigger] can_be_taken_out(
                            written.doc,
                            dropped,
                        ) {
                            (without_pages(written.doc, dropped), None::<SaveFault>)
                        } else {
                            (written.doc, Some(SaveFault::PageTree))
                        })
                },
            }
        }),
{
    let order = crate::pagetree::pages_of_doc(doc);
    if order.len() <= u32::MAX {
        let total = order.len() as int;
        crate::pages::pages_are_kept_or_dropped(None, total);
        if let Ok(Some(pages)) = keep_of(filter, total) {
            let keep = Some(pages);
            let dropped = dropped_pages(keep, total);
            crate::pages::pages_are_kept_or_dropped(keep, total);
            assert forall|p: u32| #[trigger] dropped.contains(p) <==> 1 <= p <= order.len()
                && !pages.contains(p as usize) by {
                assert(kept(keep, p as int) == pages.contains(p as usize));
            }
            if dropped.len() > 0 {
                assert(dropped.contains(dropped[0]));
                assert(!pages.contains(dropped[0] as usize));
            } else {
                assert forall|p: u32| 1 <= p <= order.len() implies #[trigger] pages.contains(
                    p as usize,
                ) by {
                    if !pages.contains(p as usize) {
                        assert(dropped.contains(p));
                    }
                }
            }
            let written = work.written(doc, order, keep, total);
            let can = can_be_taken_out(written.doc, dropped);
            assert(work.saved(doc, filter) == if written.fault is Some || dropped.len() == 0 {
                (written.doc, written.fault)
            } else if can {
                (without_pages(written.doc, dropped), None::<SaveFault>)
            } else {
                (written.doc, Some(SaveFault::PageTree))
            });
        }
    }
}

// ---------------------------------------------------------------------------
// Opening and showing
// ---------------------------------------------------------------------------

/// A document that could be read is taken as it is. One that could not is normalised where
/// that can be done, and the reason why it could not be read is never lost.
pub proof fn broken_documents_are_normalised(
    loaded: Result<Document, lopdf::Error>,
    has_normaliser: bool,
    path_is_utf8: bool,
)
    ensures
        ({
            let r = opening(loaded, has_normaliser, path_is_utf8);
            &&& loaded matches Ok(doc) ==> r == Opened::Document(doc)
            &&& r is Document ==> loaded is Ok
            &&& r is Normalise <==> loaded is Err && has_normaliser && path_is_utf8
            &&& r is NoNormaliser <==> loaded is Err && !has_normaliser
            &&& loaded matches Err(e) ==> r == Opened::Normalise(e) || r == Opened::NoNormaliser(e)
                || r == Opened::PathNotUtf8(e)
        }),
{
}

/// The ends of a selection are given in order, whichever way it was made.
pub proof fn selection_ends_are_in_order(a: usize, b: usize)
    ensures
        span_of(a, b) == span_of(b, a),
        span_of(a, b) is None <==> a == b,
        span_of(a, b) matches Some((lo, hi)) ==> lo < hi && (lo == a || lo == b) && (hi == a || hi
            == b),
{
}

/// A band looks like what it will do: blacken, mark, or select.
pub proof fn band_looks_like_what_it_does(
    app: AppView,
    band: Rect,
    rects: Seq<Rect>,
    layout: PageLayout,
)
    requires
        band.w >= 30_000,
        band.h >= 30_000,
    ensures
        ({
            let (after, area) = app.band_drawn(band, rects, layout);
            &&& app.band_look() == BandStyle::Block <==> app.block_mode
            &&& app.band_look() == BandStyle::Mark <==> area is Some
            &&& app.band_look() == BandStyle::Select <==> !app.block_mode && !app.mark_mode
        }),
{
}

/// The pointer works on the page unless something lies over it, or it has just closed a
/// menu.
pub proof fn pointer_waits_for_menus(app: AppView)
    ensures
        app.heeds_pointer() <==> app.color_menu is None && app.color_custom is None
            && !app.color_menu_consume_click && !app.help_open,
{
}

/// The frame of a displayed page has its extents before the turn.
pub proof fn frame_is_that_of_the_page(w: i64, h: i64, rotate: i32)
    ensures
        frame_of(w, h, rotate).rotate == rotate,
        crate::laws::marking::unturned(frame_of(w, h, rotate), (w, h)),
{
}

} // verus!
