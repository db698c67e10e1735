//! Resizing, colouring, editing, selecting and blackening, by what is then on the page.

use vstd::prelude::*;

use crate::app::{resized, unselected, AppView};
use crate::editor::{closed_up, EditView};
use crate::geom::{overlap, Rect};
use crate::input::{all_committed, steps_of, Key, KeyEvent};
use crate::laws::moving::{at_most, is_nearest_length, screen_is_divided_by_the_scale};
use crate::laws::placing::{pressed, same_but_overlays, shown};
use crate::merge::{
    all_on_plane, covered_in, merged, merged_cover_all, merged_overlays, of_kind, others_of,
    rect_of, rects_of, RectKind,
};
use crate::overlay::{overlays_bounded, OverlayView};
use crate::pointer::{touched, with_marks};
use crate::screen::{band_of, band_on_page, topmost, topmost_is_last_hit, PageLayout, Point};
use crate::stamp::Date;
use crate::units::{rounded_is_nearest, COORD_LIMIT};

verus! {

// ---------------------------------------------------------------------------
// Sizes
// ---------------------------------------------------------------------------

/// A number kept between two others.
pub open spec fn between(v: int, lo: int, hi: int) -> int {
    if v < lo {
        lo
    } else if v > hi {
        hi
    } else {
        v
    }
}

/// A length is another one times 17 sixteenths, or the other way round, to the nearest
/// tick.
pub open spec fn is_scaled(new: int, old: int, grow: bool) -> bool {
    if grow {
        -16 <= 2 * (16 * new - 17 * old) <= 16
    } else {
        -17 <= 2 * (17 * new - 16 * old) <= 17
    }
}

/// A step changes a text by a point for each step, between 6 and 72 points. It changes
/// nothing else of it.
pub proof fn texts_change_by_points(
    text: Seq<char>,
    x: int,
    y: int,
    size_pt: int,
    color: [u8; 3],
    dir: int,
)
    ensures
        resized(OverlayView::Text { text, x, y, size_pt, color }, dir) == (OverlayView::Text {
            text,
            x,
            y,
            size_pt: between(size_pt + 10_000 * dir, 60_000, 720_000),
            color,
        }),
{
    assert(dir * 10_000 == 10_000 * dir) by (nonlinear_arith);
}

/// A step makes a picture wider or narrower by one part in sixteen, between 10 and 600
/// points, whatever the number of steps. It stays where it is.
pub proof fn pictures_change_by_a_sixteenth(
    path: Seq<u8>,
    x: int,
    y: int,
    w: int,
    h: int,
    dir: int,
)
    requires
        w > 0,
    ensures
        resized(OverlayView::Image { path, x, y, w, h }, dir) matches OverlayView::Image {
            path: p,
            x: nx,
            y: ny,
            w: nw,
            h: nh,
        } && p == path && nx == x && ny == y && 100_000 <= nw <= 6_000_000 && (100_000 < nw
            < 6_000_000 ==> is_scaled(nw, w, dir > 0)) && -w <= 2 * (nh * w - h * nw) <= w && (dir
            > 0 ==> 16 * nw >= if 17 * w < 96_000_000 {
            17 * w - 8
        } else {
            96_000_000
        }) && (dir <= 0 ==> 17 * nw <= if 16 * w > 1_700_000 {
            16 * w + 9
        } else {
            1_700_000
        }),
{
    rounded_is_nearest(w * 17, 16);
    rounded_is_nearest(w * 16, 17);
    let nw = crate::units::clamped(crate::app::rescaled(w, dir > 0), 100_000, 6_000_000);
    rounded_is_nearest(h * nw, w);
}

/// A step makes a redaction or a mark larger or smaller by one part in sixteen in each
/// direction. Growing gives at least four points; shrinking stops at four points, and
/// leaves what is smaller already. The corner stays.
pub proof fn rectangles_change_by_a_sixteenth(x: int, y: int, w: int, h: int, dir: int)
    requires
        0 <= w <= COORD_LIMIT / 8,
        0 <= h <= COORD_LIMIT / 8,
        -(COORD_LIMIT / 2) <= x <= COORD_LIMIT / 2,
        -(COORD_LIMIT / 2) <= y <= COORD_LIMIT / 2,
    ensures
        resized(OverlayView::Redact { x, y, w, h }, dir) matches OverlayView::Redact {
            x: nx,
            y: ny,
            w: nw,
            h: nh,
        } && nx == x && ny == y && is_stepped(nw, w, dir > 0) && is_stepped(nh, h, dir > 0)
            && resized(OverlayView::PendingMark { x, y, w, h }, dir) == (OverlayView::PendingMark {
            x,
            y,
            w: nw,
            h: nh,
        }),
{
    rounded_is_nearest(w * 17, 16);
    rounded_is_nearest(w * 16, 17);
    rounded_is_nearest(h * 17, 16);
    rounded_is_nearest(h * 16, 17);
}

/// An extent after a step.
pub open spec fn is_stepped(new: int, old: int, grow: bool) -> bool {
    if grow {
        new >= 40_000 && (new > 40_000 ==> is_scaled(new, old, true)) && new >= old
    } else if old <= 40_000 {
        new == old
    } else {
        new >= 40_000 && (new > 40_000 ==> is_scaled(new, old, false)) && new <= old
    }
}

/// A step changes the selected overlays of the page and no others; where none is there it
/// changes the size of new text, between 6 and 72 points.
pub proof fn steps_reach_the_selected(app: AppView, dir: int, i: int)
    requires
        app.wf(),
        app.has_page(),
        0 <= i < shown(app).len() <= usize::MAX,
    ensures
        ({
            let after = app.size_adjusted(dir);
            let any = exists|k: int|
                0 <= k < app.selected.len() && (#[trigger] app.selected[k]) < shown(app).len();
            &&& any ==> same_but_overlays(app, after) && after.selected == app.selected && shown(
                after,
            ).len() == shown(app).len() && shown(after)[i] == if app.selected.contains(i as usize) {
                resized(shown(app)[i], dir)
            } else {
                shown(app)[i]
            }
            &&& !any ==> after == (AppView {
                text_size: between(app.text_size + 10_000 * dir, 60_000, 720_000),
                ..app
            })
        }),
{
    assert(dir * 10_000 == 10_000 * dir) by (nonlinear_arith);
}

/// The keys `+` and `=` count one step up, `-` one step down, and any other key none;
/// with Ctrl, Alt or the like none of them counts.
pub proof fn steps_are_counted(events: Seq<KeyEvent>, e: KeyEvent)
    ensures
        steps_of(events.push(e)) - steps_of(events) == (if e.ctrl || e.command || e.alt {
            0int
        } else if e.key == Key::Plus || e.key == Key::Equals {
            1int
        } else if e.key == Key::Minus {
            -1int
        } else {
            0int
        }),
        steps_of(Seq::<KeyEvent>::empty()) == 0,
{
    assert(events.push(e).drop_last() =~= events);
}

// ---------------------------------------------------------------------------
// The wheel
// ---------------------------------------------------------------------------

/// The wheel turns one page back for each sixty pixels upwards, and one page on for each
/// sixty downwards, as far as there are pages; what is left over is kept for the next
/// turn, and is less than sixty. With a selection it takes one step of size instead.
pub proof fn wheel_turns_pages(app: AppView, direction: int, distance: int, n: int)
    requires
        app.wf(),
        app.has_page(),
        !app.help_open,
        0 <= n,
    ensures
        ({
            let after = app.after_wheel(direction, distance);
            let total = app.wheel_accum + distance;
            &&& app.selected.len() == 0 && 600_000 * n <= total < 600_000 * (n + 1) ==> after == (
            AppView {
                current: if n <= app.current {
                    app.current - n
                } else {
                    0
                },
                wheel_accum: total - 600_000 * n,
                ..app
            })
            &&& app.selected.len() == 0 && 600_000 * n <= -total < 600_000 * (n + 1) ==> after == (
            AppView {
                current: if app.current + n < app.pages.len() {
                    app.current + n
                } else {
                    app.pages.len() - 1
                },
                wheel_accum: total + 600_000 * n,
                ..app
            })
            &&& app.selected.len() > 0 && direction != 0 ==> after == (AppView {
                wheel_accum: 0,
                ..app.size_adjusted(direction)
            })
            &&& app.selected.len() > 0 && direction == 0 ==> after == (AppView {
                wheel_accum: 0,
                ..app
            })
            &&& (AppView { help_open: true, ..app }).after_wheel(direction, distance) == (AppView {
                help_open: true,
                ..app
            })
        }),
{
    let total = app.wheel_accum + distance;
    if 600_000 * n <= total < 600_000 * (n + 1) {
        vstd::arithmetic::div_mod::lemma_fundamental_div_mod_converse(
            total,
            600_000,
            n,
            total - 600_000 * n,
        );
    }
    if 600_000 * n <= -total < 600_000 * (n + 1) {
        vstd::arithmetic::div_mod::lemma_fundamental_div_mod_converse(
            -total,
            600_000,
            n,
            -total - 600_000 * n,
        );
    }
}

// ---------------------------------------------------------------------------
// Clicks and bands
// ---------------------------------------------------------------------------

/// A position lies in a rectangle or on its border.
pub open spec fn lies_in(pos: Point, r: Rect) -> bool {
    r.x <= pos.x <= r.x + r.w && r.y <= pos.y <= r.y + r.h
}

/// The `i`th of the rectangles is the last one that a position lies in.
pub open spec fn on_top(rects: Seq<Rect>, pos: Point, i: int) -> bool {
    &&& 0 <= i < rects.len()
    &&& lies_in(pos, rects[i])
    &&& forall|k: int| i < k < rects.len() ==> !lies_in(pos, #[trigger] rects[k])
}

proof fn lemma_on_top(rects: Seq<Rect>, pos: Point, i: int)
    requires
        rects.len() <= usize::MAX,
        on_top(rects, pos, i),
    ensures
        topmost(rects, pos) == Some(i as usize),
{
    topmost_is_last_hit(rects, pos);
    match topmost(rects, pos) {
        Some(m) => {
            if m < i {
                assert(!rects[i].contains(pos.x as int, pos.y as int));
            } else if m > i {
                assert(!lies_in(pos, rects[m as int]));
            }
        },
        None => {
            assert(!rects[i].contains(pos.x as int, pos.y as int));
        },
    }
}

/// A click selects the overlay on top at the pointer, alone, and a text is then edited.
/// With Ctrl it is added to the selection or taken from it. A click beside all overlays
/// drops the selection.
pub proof fn click_selects_what_is_on_top(app: AppView, rects: Seq<Rect>, pos: Point, i: int)
    requires
        app.wf(),
        app.has_page(),
        rects.len() == shown(app).len(),
        rects.len() <= usize::MAX,
    ensures
        on_top(rects, pos, i) ==> {
            let plain = app.clicked(rects, pos, false);
            let ctrl = app.clicked(rects, pos, true);
            &&& plain.selected == seq![i as usize]
            &&& shown(app)[i] is Text ==> plain == (AppView {
                selected: plain.selected,
                editing: Some(i as usize),
                editing_just_focused: false,
                ..app
            })
            &&& !(shown(app)[i] is Text) ==> plain == (AppView { selected: plain.selected, ..app })
            &&& ctrl == (AppView { selected: ctrl.selected, ..app })
            &&& ctrl.selected.contains(i as usize) == !app.selected.contains(i as usize)
            &&& forall|j: usize|
                j != i ==> #[trigger] ctrl.selected.contains(j) == app.selected.contains(j)
        },
        (forall|k: int| 0 <= k < rects.len() ==> !lies_in(pos, #[trigger] rects[k])) ==> {
            &&& app.clicked(rects, pos, false) == (AppView { selected: Seq::empty(), ..app })
            &&& app.clicked(rects, pos, true) == (AppView { selected: Seq::empty(), ..app })
        },
{
    if on_top(rects, pos, i) {
        lemma_on_top(rects, pos, i);
        crate::pointer::second_ctrl_click_undoes(app.selected, i as usize);
    }
    topmost_is_last_hit(rects, pos);
    if let Some(m) = topmost(rects, pos) {
        assert(rects[m as int].contains(pos.x as int, pos.y as int));
        assert(lies_in(pos, rects[m as int]));
    }
}

/// A drag that begins beside all overlays draws a band from there; one that begins on an
/// overlay does not.
pub proof fn band_begins_beside_overlays(app: AppView, rects: Seq<Rect>, pos: Point)
    requires
        rects.len() <= usize::MAX,
    ensures
        ({
            let after = app.drag_begun(rects, pos);
            let beside = forall|k: int| 0 <= k < rects.len() ==> !lies_in(pos, #[trigger] rects[k]);
            &&& beside ==> after.rubber_band == Some(pos) && after.selected.len() == 0
                && after.drag_offsets.len() == 0
            &&& !beside ==> after.rubber_band is None
            &&& after == (AppView {
                selected: after.selected,
                drag_offsets: after.drag_offsets,
                rubber_band: after.rubber_band,
                ..app
            })
        }),
{
    topmost_is_last_hit(rects, pos);
    if let Some(m) = topmost(rects, pos) {
        assert(rects[m as int].contains(pos.x as int, pos.y as int));
        assert(lies_in(pos, rects[m as int]));
    } else {
        assert forall|k: int| 0 <= k < rects.len() implies !lies_in(pos, #[trigger] rects[k]) by {
            assert(!rects[k].contains(pos.x as int, pos.y as int));
        }
    }
}

proof fn lemma_touched_members(rects: Seq<Rect>, band: Rect, i: int)
    requires
        0 <= i < rects.len() <= usize::MAX,
    ensures
        touched(rects, band).contains(i as usize) == (band.x <= rects[i].x + rects[i].w
            && rects[i].x <= band.x + band.w && band.y <= rects[i].y + rects[i].h && rects[i].y
            <= band.y + band.h),
        forall|k: int|
            0 <= k < touched(rects, band).len() ==> #[trigger] touched(rects, band)[k]
                < rects.len(),
    decreases rects.len(),
{
    let front = rects.drop_last();
    let before = touched(front, band);
    let all = touched(rects, band);
    if front.len() > 0 {
        lemma_touched_members(
            front,
            band,
            if i < front.len() {
                i
            } else {
                0
            },
        );
    } else {
        assert(before =~= Seq::empty());
    }
    let last = (rects.len() - 1) as usize;
    if i < front.len() {
        assert(front[i] == rects[i]);
        if before.contains(i as usize) {
            let k = choose|k: int| 0 <= k < before.len() && before[k] == i as usize;
            assert(all[k] == i as usize);
        }
        if all.contains(i as usize) {
            let k = choose|k: int| 0 <= k < all.len() && all[k] == i as usize;
            if k < before.len() {
                assert(before[k] == all[k]);
            }
        }
    } else {
        if all.len() > before.len() {
            assert(all[before.len() as int] == last);
        }
        if all.contains(last) {
            let k = choose|k: int| 0 <= k < all.len() && all[k] == last;
            if k < before.len() {
                assert(before[k] < front.len());
            }
        }
    }
}

/// The rectangle between two positions of the screen has its sides at them, whichever way
/// it was drawn.
pub proof fn band_lies_between_its_ends(a: Point, b: Point)
    requires
        a.wf(),
        b.wf(),
    ensures
        ({
            let r = band_of(a, b);
            &&& r.x <= a.x && r.x <= b.x && (r.x == a.x || r.x == b.x)
            &&& r.y <= a.y && r.y <= b.y && (r.y == a.y || r.y == b.y)
            &&& r.x + r.w >= a.x && r.x + r.w >= b.x && (r.x + r.w == a.x || r.x + r.w == b.x)
            &&& r.y + r.h >= a.y && r.y + r.h >= b.y && (r.y + r.h == a.y || r.y + r.h == b.y)
        }),
{
}

/// A band drawn without a mode selects exactly the overlays that it has a point in common
/// with. It changes nothing on the page.
pub proof fn band_selects_what_it_meets(
    app: AppView,
    a: Point,
    b: Point,
    rects: Seq<Rect>,
    layout: PageLayout,
    i: int,
)
    requires
        !app.block_mode,
        !app.mark_mode,
        app.rubber_band == Some(a),
        0 <= i < rects.len() <= usize::MAX,
    ensures
        ({
            let (after, area) = app.band_ended(Some(b), rects, layout);
            let band = band_of(a, b);
            &&& area is None
            &&& after == (AppView { selected: after.selected, rubber_band: None, ..app })
            &&& after.selected.contains(i as usize) == (band.x <= rects[i].x + rects[i].w
                && rects[i].x <= band.x + band.w && band.y <= rects[i].y + rects[i].h && rects[i].y
                <= band.y + band.h)
        }),
{
    lemma_touched_members(rects, band_of(a, b), i);
}

/// The area of the page under a band: its corner and its extents on the screen, each
/// divided by the scale.
pub proof fn band_is_taken_to_the_page(band: Rect, page_rect: Rect, scale: u64)
    requires
        scale > 0,
        at_most(band.x - page_rect.x, scale, COORD_LIMIT / 2),
        at_most(band.y - page_rect.y, scale, COORD_LIMIT / 2),
        at_most(band.w as int, scale, COORD_LIMIT / 2),
        at_most(band.h as int, scale, COORD_LIMIT / 2),
    ensures
        ({
            let r = band_on_page(band, page_rect, scale);
            &&& is_nearest_length(r.x as int, band.x - page_rect.x, scale)
            &&& is_nearest_length(r.y as int, band.y - page_rect.y, scale)
            &&& is_nearest_length(r.w as int, band.w as int, scale)
            &&& is_nearest_length(r.h as int, band.h as int, scale)
        }),
{
    screen_is_divided_by_the_scale(band.x - page_rect.x, scale, COORD_LIMIT / 2);
    screen_is_divided_by_the_scale(band.y - page_rect.y, scale, COORD_LIMIT / 2);
    screen_is_divided_by_the_scale(band.w as int, scale, COORD_LIMIT / 2);
    screen_is_divided_by_the_scale(band.h as int, scale, COORD_LIMIT / 2);
}

// ---------------------------------------------------------------------------
// Redactions and marks
// ---------------------------------------------------------------------------

/// Two rectangles overlap where there is an area that lies in both.
pub proof fn overlap_is_a_common_area(a: Rect, b: Rect)
    ensures
        overlap(a, b) == (a.w > 0 && a.h > 0 && b.w > 0 && b.h > 0 && a.x < b.x + b.w && b.x < a.x
            + a.w && a.y < b.y + b.h && b.y < a.y + a.h),
{
}

/// A redaction that has a rectangle in it.
pub open spec fn blackens(o: OverlayView, x: int, y: int, w: int, h: int) -> bool {
    o matches OverlayView::Redact { x: ox, y: oy, w: ow, h: oh } && ox <= x && oy <= y && x + w
        <= ox + ow && y + h <= oy + oh
}

/// A mark that has a rectangle in it.
pub open spec fn marks(o: OverlayView, x: int, y: int, w: int, h: int) -> bool {
    o matches OverlayView::PendingMark { x: ox, y: oy, w: ow, h: oh } && ox <= x && oy <= y && x
        + w <= ox + ow && y + h <= oy + oh
}

proof fn lemma_rects_on_plane(overlays: Seq<OverlayView>, kind: RectKind)
    requires
        overlays_bounded(overlays),
    ensures
        all_on_plane(rects_of(overlays, kind)),
    decreases overlays.len(),
{
    if overlays.len() > 0 {
        let front = overlays.drop_last();
        assert forall|i: int| 0 <= i < front.len() implies (#[trigger] front[i]).bounded() by {
            assert(overlays[i] == front[i]);
        }
        lemma_rects_on_plane(front, kind);
        assert(overlays[overlays.len() - 1].bounded());
        let rects = rects_of(front, kind);
        let all = rects_of(overlays, kind);
        assert forall|k: int| 0 <= k < all.len() implies (#[trigger] all[k]).on_plane() by {
            if k < rects.len() {
                assert(all[k] == rects[k]);
            }
        }
    }
}

proof fn lemma_rect_is_listed(overlays: Seq<OverlayView>, kind: RectKind, i: int)
    requires
        0 <= i < overlays.len(),
        rect_of(overlays[i], kind) is Some,
    ensures
        rects_of(overlays, kind).contains(rect_of(overlays[i], kind)->Some_0),
    decreases overlays.len(),
{
    let front = overlays.drop_last();
    let all = rects_of(overlays, kind);
    let r = rect_of(overlays[i], kind)->Some_0;
    if i < front.len() {
        assert(front[i] == overlays[i]);
        lemma_rect_is_listed(front, kind, i);
        let rects = rects_of(front, kind);
        let k = choose|k: int| 0 <= k < rects.len() && rects[k] == r;
        assert(all[k] == r);
    } else {
        assert(all[all.len() - 1] == r);
    }
}

/// Where a rectangle of a kind is in what is merged, and what covers it then.
proof fn lemma_still_covered(overlays: Seq<OverlayView>, kind: RectKind, i: int) -> (j: int)
    requires
        overlays_bounded(overlays),
        0 <= i < overlays.len(),
        rect_of(overlays[i], kind) is Some,
    ensures
        0 <= j < merged_overlays(overlays, kind).len(),
        ({
            let r = rect_of(overlays[i], kind)->Some_0;
            match kind {
                RectKind::Redact => blackens(
                    merged_overlays(overlays, kind)[j],
                    r.x as int,
                    r.y as int,
                    r.w as int,
                    r.h as int,
                ),
                RectKind::PendingMark => marks(
                    merged_overlays(overlays, kind)[j],
                    r.x as int,
                    r.y as int,
                    r.w as int,
                    r.h as int,
                ),
            }
        }),
{
    let r = rect_of(overlays[i], kind)->Some_0;
    let rects = rects_of(overlays, kind);
    lemma_rects_on_plane(overlays, kind);
    lemma_rect_is_listed(overlays, kind, i);
    merged_cover_all(rects);
    let k = choose|k: int| 0 <= k < rects.len() && rects[k] == r;
    assert(covered_in(rects[k], merged(rects)));
    let m = choose|m: int| 0 <= m < merged(rects).len() && (#[trigger] merged(rects)[m]).covers(r);
    let j = others_of(overlays, kind).len() + m;
    assert(merged_overlays(overlays, kind)[j as int] == of_kind(kind, merged(rects)[m]));
    j as int
}

/// Merging loses no black: every redaction lies in one that is there afterwards, wherever
/// redactions overlap. The same holds of marks.
pub proof fn merging_loses_nothing(overlays: Seq<OverlayView>, i: int)
    requires
        overlays_bounded(overlays),
        0 <= i < overlays.len(),
    ensures
        overlays[i] matches OverlayView::Redact { x, y, w, h } ==> exists|j: int|
            0 <= j < merged_overlays(overlays, RectKind::Redact).len() && blackens(
                #[trigger] merged_overlays(overlays, RectKind::Redact)[j],
                x,
                y,
                w,
                h,
            ),
        overlays[i] matches OverlayView::PendingMark { x, y, w, h } ==> exists|j: int|
            0 <= j < merged_overlays(overlays, RectKind::PendingMark).len() && marks(
                #[trigger] merged_overlays(overlays, RectKind::PendingMark)[j],
                x,
                y,
                w,
                h,
            ),
{
    assert(overlays[i].bounded());
    if overlays[i] is Redact {
        let j = lemma_still_covered(overlays, RectKind::Redact, i);
    } else if overlays[i] is PendingMark {
        let j = lemma_still_covered(overlays, RectKind::PendingMark, i);
    }
}

/// A band drawn in the block mode blackens the area of the page under it and leaves the
/// mode. Where nothing was blackened before, it adds that rectangle and nothing else.
pub proof fn band_blackens_its_area(
    app: AppView,
    band: Rect,
    rects: Seq<Rect>,
    layout: PageLayout,
)
    requires
        app.wf(),
        app.has_page(),
        app.block_mode,
        band.w >= 30_000,
        band.h >= 30_000,
        band_on_page(band, layout.page_rect, layout.scale).on_plane(),
    ensures
        ({
            let (after, found) = app.band_drawn(band, rects, layout);
            let a = band_on_page(band, layout.page_rect, layout.scale);
            &&& found is None
            &&& !after.block_mode
            &&& same_but_overlays(AppView { block_mode: false, ..app }, after)
            &&& after.selected == app.selected
            &&& exists|j: int|
                0 <= j < shown(after).len() && blackens(
                    #[trigger] shown(after)[j],
                    a.x as int,
                    a.y as int,
                    a.w as int,
                    a.h as int,
                )
            &&& (forall|i: int| 0 <= i < shown(app).len() ==> !((#[trigger] shown(app)[i]) is Redact))
                ==> shown(after) == shown(app).push(
                OverlayView::Redact {
                    x: a.x as int,
                    y: a.y as int,
                    w: a.w as int,
                    h: a.h as int,
                },
            )
        }),
{
    let a = band_on_page(band, layout.page_rect, layout.scale);
    let o = of_kind(RectKind::Redact, a);
    let all = shown(app).push(o);
    assert(overlays_bounded(all)) by {
        assert forall|i: int| 0 <= i < all.len() implies (#[trigger] all[i]).bounded() by {
            if i < shown(app).len() {
                assert(app.pages[app.current].wf());
                assert(shown(app)[i].wf());
            }
        }
    }
    let n = shown(app).len() as int;
    let j = lemma_still_covered(all, RectKind::Redact, n);
    let (after, _) = app.band_drawn(band, rects, layout);
    assert(shown(after) == merged_overlays(all, RectKind::Redact));
    if forall|i: int| 0 <= i < shown(app).len() ==> !((#[trigger] shown(app)[i]) is Redact) {
        lemma_none_of_kind(shown(app));
        assert(all.drop_last() =~= shown(app));
        assert(rects_of(all, RectKind::Redact) =~= seq![a]);
        assert(others_of(all, RectKind::Redact) =~= shown(app));
        assert(merged(seq![a]) =~= seq![a]);
        assert(shown(after) =~= shown(app).push(o));
    }
}

proof fn lemma_none_of_kind(overlays: Seq<OverlayView>)
    requires
        forall|i: int| 0 <= i < overlays.len() ==> !((#[trigger] overlays[i]) is Redact),
    ensures
        rects_of(overlays, RectKind::Redact) == Seq::<Rect>::empty(),
        others_of(overlays, RectKind::Redact) == overlays,
    decreases overlays.len(),
{
    if overlays.len() > 0 {
        let front = overlays.drop_last();
        assert forall|i: int| 0 <= i < front.len() implies !((#[trigger] front[i]) is Redact) by {
            assert(overlays[i] == front[i]);
        }
        lemma_none_of_kind(front);
        assert(!(overlays[overlays.len() - 1] is Redact));
        assert(front.push(overlays.last()) =~= overlays);
    } else {
        assert(others_of(overlays, RectKind::Redact) =~= overlays);
    }
}

/// A band drawn in the mark mode changes nothing and gives the area to look for words in.
/// In either mode a band of less than three pixels in a direction does nothing.
pub proof fn band_asks_for_words_or_is_a_slip(
    app: AppView,
    band: Rect,
    rects: Seq<Rect>,
    layout: PageLayout,
)
    ensures
        app.mark_mode && !app.block_mode && band.w >= 30_000 && band.h >= 30_000
            ==> app.band_drawn(band, rects, layout) == (
            app,
            Some(band_on_page(band, layout.page_rect, layout.scale)),
        ),
        (app.mark_mode || app.block_mode) && (band.w < 30_000 || band.h < 30_000)
            ==> app.band_drawn(band, rects, layout) == (app, None::<Rect>),
{
}

/// Every word that was found in a marked area is marked; where none was found the whole
/// area is. Nothing but marks is changed.
pub proof fn found_words_are_marked(app: AppView, area: Rect, found: Seq<Rect>, k: int)
    requires
        app.wf(),
        app.has_page(),
        area.on_plane(),
        all_on_plane(found),
        found.len() == 0 || 0 <= k < found.len(),
    ensures
        ({
            let after = app.marked(area, found);
            let r = if found.len() == 0 {
                area
            } else {
                found[k]
            };
            &&& same_but_overlays(AppView { status: after.status, ..app }, after)
            &&& after.selected == app.selected
            &&& found.len() > 0 ==> after.status == app.status
            &&& found.len() == 0 ==> after.status == "No text detected — using rectangle."@
            &&& exists|j: int|
                0 <= j < shown(after).len() && marks(
                    #[trigger] shown(after)[j],
                    r.x as int,
                    r.y as int,
                    r.w as int,
                    r.h as int,
                )
            &&& others_of(shown(after), RectKind::PendingMark) == others_of(
                shown(app),
                RectKind::PendingMark,
            )
        }),
{
    let areas = if found.len() == 0 {
        seq![area]
    } else {
        found
    };
    let m = if found.len() == 0 {
        0
    } else {
        k
    };
    let all = with_marks(shown(app), areas);
    assert(overlays_bounded(all)) by {
        assert forall|i: int| 0 <= i < all.len() implies (#[trigger] all[i]).bounded() by {
            if i < shown(app).len() {
                assert(app.pages[app.current].wf());
                assert(all[i] == shown(app)[i]);
                assert(shown(app)[i].wf());
            } else {
                assert(areas[i - shown(app).len()].on_plane());
            }
        }
    }
    let j = lemma_still_covered(all, RectKind::PendingMark, shown(app).len() + m);
    let after = app.marked(area, found);
    assert(shown(after) == merged_overlays(all, RectKind::PendingMark));
    crate::pointer::marks_never_overlap(app, area, found);
}

/// The key `b` in the mark mode makes every mark a redaction of the same place: what was
/// marked is black afterwards, and so is what was black.
pub proof fn marks_become_black(app: AppView, pos: Point, at: Point, today: Date, i: int)
    requires
        app.wf(),
        app.has_page(),
        app.mark_mode,
        0 <= i < shown(app).len(),
    ensures
        ({
            let after = app.after_page_key(pressed(Key::B, false), pos, at, today);
            &&& same_but_overlays(app, after)
            &&& after.selected == app.selected
            &&& shown(app)[i] matches OverlayView::PendingMark { x, y, w, h } ==> exists|j: int|
                0 <= j < shown(after).len() && blackens(#[trigger] shown(after)[j], x, y, w, h)
            &&& shown(app)[i] matches OverlayView::Redact { x, y, w, h } ==> exists|j: int|
                0 <= j < shown(after).len() && blackens(#[trigger] shown(after)[j], x, y, w, h)
        }),
{
    let all = all_committed(shown(app));
    assert(overlays_bounded(all)) by {
        assert forall|k: int| 0 <= k < all.len() implies (#[trigger] all[k]).bounded() by {
            assert(app.pages[app.current].wf());
            assert(shown(app)[k].wf());
        }
    }
    assert(app.pages[app.current].wf());
    assert(shown(app)[i].wf());
    if shown(app)[i] is PendingMark || shown(app)[i] is Redact {
        let j = lemma_still_covered(all, RectKind::Redact, i);
    }
    let after = app.after_page_key(pressed(Key::B, false), pos, at, today);
    assert(shown(after) == merged_overlays(all, RectKind::Redact));
}

// ---------------------------------------------------------------------------
// Colours and texts
// ---------------------------------------------------------------------------

/// A colour goes to every selected text of the page, and changes nothing else of it and
/// no other overlay.
pub proof fn colours_reach_selected_texts(app: AppView, color: [u8; 3], i: int)
    requires
        app.wf(),
        app.has_page(),
        0 <= i < shown(app).len() <= usize::MAX,
    ensures
        ({
            let after = app.recolored(color);
            &&& same_but_overlays(app, after)
            &&& after.selected == app.selected
            &&& shown(after).len() == shown(app).len()
            &&& app.selected.contains(i as usize) ==> match shown(app)[i] {
                OverlayView::Text { text, x, y, size_pt, .. } => shown(after)[i] == (
                OverlayView::Text { text, x, y, size_pt, color }),
                _ => shown(after)[i] == shown(app)[i],
            }
            &&& !app.selected.contains(i as usize) ==> shown(after)[i] == shown(app)[i]
        }),
{
}

/// What is typed is the text of the overlay that is edited. The edit goes on until Escape,
/// Shift and Enter, or a click elsewhere; the line break of Shift and Enter is not kept,
/// an empty text is removed, and the first two drop the selection.
pub proof fn typing_sets_the_text(app: AppView, input: EditView, i: usize)
    requires
        app.wf(),
        app.has_page(),
        app.editing == Some(i),
        i < shown(app).len(),
        shown(app)[i as int] is Text,
    ensures
        ({
            let after = app.edited(Some(input));
            let ended = input.esc || input.shift_enter || input.lost_focus;
            let kept: Seq<char> = if input.shift_enter && input.text.len() > 0 && input.text[
            input.text.len() - 1] == '\n' {
                input.text.take(input.text.len() - 1)
            } else {
                input.text
            };
            &&& after.editing == if ended {
                None
            } else {
                Some(i)
            }
            &&& ended && kept.len() == 0 ==> shown(after) == shown(app).remove(i as int)
            &&& !(ended && kept.len() == 0) ==> shown(after) == shown(app).update(
                i as int,
                match shown(app)[i as int] {
                    OverlayView::Text { x, y, size_pt, color, .. } => OverlayView::Text {
                        text: kept,
                        x,
                        y,
                        size_pt,
                        color,
                    },
                    o => o,
                },
            )
            &&& ended && kept.len() > 0 && (input.esc || input.shift_enter)
                ==> after.selected.len() == 0
            &&& !ended ==> after.selected == app.selected && after.edit_cursor_range
                == input.cursor_range && after.editing_just_focused
            &&& ended ==> after.edit_cursor_range is None && !after.editing_just_focused
            &&& after == (AppView {
                pages: after.pages,
                selected: after.selected,
                editing: after.editing,
                edit_cursor_range: after.edit_cursor_range,
                editing_just_focused: after.editing_just_focused,
                ..app
            })
            &&& ended && kept.len() > 0 && !input.esc && !input.shift_enter ==> after.selected
                == app.selected
        }),
{
    if input.text.len() > 0 {
        assert(input.text.take(input.text.len() - 1) =~= input.text.drop_last());
    }
}

/// Where an overlay is removed from below others, each selected one stays selected.
pub proof fn selection_closes_up(selected: Seq<usize>, removed: usize, next: usize)
    ensures
        closed_up(selected.push(next), removed) == if next == removed {
            closed_up(selected, removed)
        } else if next > removed {
            closed_up(selected, removed).push((next - 1) as usize)
        } else {
            closed_up(selected, removed).push(next)
        },
        closed_up(Seq::<usize>::empty(), removed) == Seq::<usize>::empty(),
{
    assert(selected.push(next).drop_last() =~= selected);
}

/// Deleting goes through the overlays one by one: it drops those that are selected and
/// keeps the others in their order.
pub proof fn deleting_drops_the_selected(
    overlays: Seq<OverlayView>,
    next: OverlayView,
    selected: Seq<usize>,
)
    requires
        overlays.len() < usize::MAX,
    ensures
        unselected(overlays.push(next), selected) == if selected.contains(
            overlays.len() as usize,
        ) {
            unselected(overlays, selected)
        } else {
            unselected(overlays, selected).push(next)
        },
        unselected(Seq::<OverlayView>::empty(), selected) == Seq::<OverlayView>::empty(),
{
    assert(overlays.push(next).drop_last() =~= overlays);
}

} // verus!
