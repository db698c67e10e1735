//! Moving, selecting and drawing with the pointer, by positions on the screen.
//!
//! A scale of one pixel to the point is two to the power of 32.

use vstd::prelude::*;

use crate::app::AppView;
use crate::geom::Rect;

use crate::overlay::OverlayView;
use crate::pointer::{drag_moves_only_dragged, dragged_overlay, offsets_from, with_dragged};
use crate::screen::{overlay_area, pixels, points, topmost, topmost_is_last_hit, PageLayout, Point};
use crate::units::{rounded, rounded_is_nearest, COORD_LIMIT};

verus! {

// ---------------------------------------------------------------------------
// Points and pixels
// ---------------------------------------------------------------------------

/// A distance on the screen, in ticks of a pixel, that is a distance on the page of no
/// more than `most`.
pub open spec fn at_most(d: int, scale: u64, most: int) -> bool {
    -(most * scale) <= d * 0x1_0000_0000 <= most * scale
}

/// A length on the page is the nearest to what a distance on the screen comes to.
pub open spec fn is_nearest_length(v: int, d: int, scale: u64) -> bool {
    -(scale as int) <= 2 * (v * scale - d * 0x1_0000_0000) <= scale
}

/// A distance on the screen is the nearest to what a length on the page comes to.
pub open spec fn is_nearest_distance(d: int, v: int, scale: u64) -> bool {
    -0x1_0000_0000 <= 2 * (d * 0x1_0000_0000 - v * scale) <= 0x1_0000_0000
}

proof fn lemma_quotient_at_most(num: int, den: int, most: int)
    requires
        den > 0,
        most >= 0,
        -(most * den) <= num <= most * den,
    ensures
        -most <= rounded(num, den) <= most,
{
    rounded_is_nearest(num, den);
    let r = rounded(num, den);
    assert(r <= most) by (nonlinear_arith)
        requires
            2 * (r * den - num) <= den,
            num <= most * den,
            den > 0,
    ;
    assert(r >= -most) by (nonlinear_arith)
        requires
            2 * (r * den - num) >= -den,
            num >= -(most * den),
            den > 0,
    ;
}

/// What a distance on the screen is on the page: divided by the scale, to the nearest
/// tick.
pub proof fn screen_is_divided_by_the_scale(d: int, scale: u64, most: int)
    requires
        scale > 0,
        0 <= most <= COORD_LIMIT,
        at_most(d, scale, most),
    ensures
        is_nearest_length(points(d, scale), d, scale),
        -most <= points(d, scale) <= most,
{
    lemma_quotient_at_most(d * 0x1_0000_0000, scale as int, most);
    rounded_is_nearest(d * 0x1_0000_0000, scale as int);
}

/// What a length on the page is on the screen: times the scale, to the nearest tick.
pub proof fn page_is_multiplied_by_the_scale(v: int, scale: u64)
    requires
        -(COORD_LIMIT * 0x1_0000_0000) <= v * scale <= COORD_LIMIT * 0x1_0000_0000,
    ensures
        is_nearest_distance(pixels(v, scale), v, scale),
{
    lemma_quotient_at_most(v * scale, 0x1_0000_0000, COORD_LIMIT as int);
    rounded_is_nearest(v * scale, 0x1_0000_0000);
}

/// An overlay is shown from the corner of the page on, as far to the right and down as it
/// lies on the page, and as large, all times the scale.
pub proof fn overlay_is_shown_to_scale(
    o: OverlayView,
    page_rect: Rect,
    scale: u64,
    layout: Point,
    row_h: i64,
)
    requires
        at_most_on_screen(o.left(), scale),
        at_most_on_screen(o.top(), scale),
        -(COORD_LIMIT / 2) <= page_rect.x <= COORD_LIMIT / 2,
        -(COORD_LIMIT / 2) <= page_rect.y <= COORD_LIMIT / 2,
    ensures
        ({
            let r = overlay_area(o, page_rect, scale, layout, row_h);
            &&& is_nearest_distance(r.x - page_rect.x, o.left(), scale)
            &&& is_nearest_distance(r.y - page_rect.y, o.top(), scale)
            &&& match o {
                OverlayView::Text { text, .. } => if text.len() > 0 {
                    r.w == layout.x && r.h == layout.y
                } else {
                    r.w == 200_000 && r.h == row_h
                },
                OverlayView::Image { w, h, .. } => at_most_on_screen(w, scale) && at_most_on_screen(
                    h,
                    scale,
                ) ==> is_nearest_distance(r.w as int, w, scale) && is_nearest_distance(
                    r.h as int,
                    h,
                    scale,
                ),
                OverlayView::Redact { w, h, .. } => at_most_on_screen(w, scale)
                    && at_most_on_screen(h, scale) ==> is_nearest_distance(r.w as int, w, scale)
                    && is_nearest_distance(r.h as int, h, scale),
                OverlayView::PendingMark { w, h, .. } => at_most_on_screen(w, scale)
                    && at_most_on_screen(h, scale) ==> is_nearest_distance(r.w as int, w, scale)
                    && is_nearest_distance(r.h as int, h, scale),
            }
        }),
{
    lemma_on_screen(o.left(), scale);
    lemma_on_screen(o.top(), scale);
    match o {
        OverlayView::Image { w, h, .. } => {
            if at_most_on_screen(w, scale) && at_most_on_screen(h, scale) {
                lemma_on_screen(w, scale);
                lemma_on_screen(h, scale);
            }
        },
        OverlayView::Redact { w, h, .. } => {
            if at_most_on_screen(w, scale) && at_most_on_screen(h, scale) {
                lemma_on_screen(w, scale);
                lemma_on_screen(h, scale);
            }
        },
        OverlayView::PendingMark { w, h, .. } => {
            if at_most_on_screen(w, scale) && at_most_on_screen(h, scale) {
                lemma_on_screen(w, scale);
                lemma_on_screen(h, scale);
            }
        },
        _ => {},
    }
}

/// A length on the page that comes to no more than half of what the screen has.
pub open spec fn at_most_on_screen(v: int, scale: u64) -> bool {
    -(COORD_LIMIT / 2 * 0x1_0000_0000) <= v * scale <= COORD_LIMIT / 2 * 0x1_0000_0000
}

proof fn lemma_on_screen(v: int, scale: u64)
    requires
        at_most_on_screen(v, scale),
    ensures
        is_nearest_distance(pixels(v, scale), v, scale),
        -(COORD_LIMIT / 2) <= pixels(v, scale) <= COORD_LIMIT / 2,
{
    lemma_quotient_at_most(v * scale, 0x1_0000_0000, COORD_LIMIT as int / 2);
    rounded_is_nearest(v * scale, 0x1_0000_0000);
}

// ---------------------------------------------------------------------------
// Dragging
// ---------------------------------------------------------------------------

/// Two overlays are the same but for where they lie.
pub open spec fn same_but_place(a: OverlayView, b: OverlayView) -> bool {
    match (a, b) {
        (
            OverlayView::Image { path, w, h, .. },
            OverlayView::Image { path: p, w: v, h: g, .. },
        ) => path == p && w == v && h == g,
        (
            OverlayView::Text { text, size_pt, color, .. },
            OverlayView::Text { text: t, size_pt: s, color: c, .. },
        ) => text == t && size_pt == s && color == c,
        (OverlayView::Redact { w, h, .. }, OverlayView::Redact { w: v, h: g, .. }) => w == v && h
            == g,
        (OverlayView::PendingMark { w, h, .. }, OverlayView::PendingMark { w: v, h: g, .. }) => w
            == v && h == g,
        _ => false,
    }
}

/// The left side and the top of an overlay.
pub open spec fn place_of(o: OverlayView) -> (int, int) {
    match o {
        OverlayView::Image { x, y, .. } => (x, y),
        OverlayView::Text { x, y, .. } => (x, y),
        OverlayView::Redact { x, y, .. } => (x, y),
        OverlayView::PendingMark { x, y, .. } => (x, y),
    }
}

/// No extent of an overlay is more than `most`.
pub open spec fn extents_at_most(o: OverlayView, most: int) -> bool {
    match o {
        OverlayView::Redact { w, h, .. } => -most <= w <= most && -most <= h <= most,
        OverlayView::PendingMark { w, h, .. } => -most <= w <= most && -most <= h <= most,
        _ => true,
    }
}

proof fn lemma_dragged_once(
    overlays: Seq<OverlayView>,
    offsets: Seq<(usize, Point)>,
    pos: Point,
    layout: PageLayout,
    n: int,
    k: int,
)
    requires
        0 <= k < n <= offsets.len(),
        offsets[k].0 < overlays.len(),
        forall|a: int, b: int|
            0 <= a < b < offsets.len() ==> (#[trigger] offsets[a]).0 != (#[trigger] offsets[b]).0,
    ensures
        with_dragged(overlays, offsets, pos, layout, n).len() == overlays.len(),
        with_dragged(overlays, offsets, pos, layout, n)[offsets[k].0 as int] == dragged_overlay(
            overlays[offsets[k].0 as int],
            offsets[k].1,
            pos,
            layout,
        ),
    decreases n,
{
    let j = offsets[k].0 as int;
    drag_moves_only_dragged(overlays, offsets, pos, layout, n - 1, j);
    if k < n - 1 {
        lemma_dragged_once(overlays, offsets, pos, layout, n - 1, k);
        assert(offsets[k].0 != offsets[n - 1].0);
    } else {
        assert forall|a: int| 0 <= a < n - 1 implies (#[trigger] offsets[a]).0 != j by {
            assert(offsets[a].0 != offsets[k].0);
        }
    }
}

proof fn lemma_offsets(selected: Seq<usize>, rects: Seq<Rect>, pos: Point)
    requires
        selected.no_duplicates(),
    ensures
        ({
            let offsets = offsets_from(selected, rects, pos);
            &&& forall|k: int|
                0 <= k < offsets.len() ==> {
                    let (j, d) = #[trigger] offsets[k];
                    &&& selected.contains(j)
                    &&& j < rects.len()
                    &&& d == (Point {
                        x: (pos.x - rects[j as int].x) as i64,
                        y: (pos.y - rects[j as int].y) as i64,
                    })
                }
            &&& forall|a: int, b: int|
                0 <= a < b < offsets.len() ==> (#[trigger] offsets[a]).0 != (
                #[trigger] offsets[b]).0
            &&& forall|m: int|
                0 <= m < selected.len() && (#[trigger] selected[m]) < rects.len() ==> exists|k: int|
                    0 <= k < offsets.len() && (#[trigger] offsets[k]).0 == selected[m]
        }),
    decreases selected.len(),
{
    if selected.len() > 0 {
        let front = selected.drop_last();
        let last = selected.last();
        assert(front.no_duplicates());
        lemma_offsets(front, rects, pos);
        let before = offsets_from(front, rects, pos);
        let offsets = offsets_from(selected, rects, pos);
        assert(!front.contains(last)) by {
            if front.contains(last) {
                let k = choose|k: int| 0 <= k < front.len() && front[k] == last;
                assert(selected[k] == selected[selected.len() - 1]);
            }
        }
        assert forall|k: int| 0 <= k < offsets.len() implies {
            let (j, d) = #[trigger] offsets[k];
            &&& selected.contains(j)
            &&& j < rects.len()
            &&& d == (Point {
                x: (pos.x - rects[j as int].x) as i64,
                y: (pos.y - rects[j as int].y) as i64,
            })
        } by {
            if k < before.len() {
                assert(offsets[k] == before[k]);
                let m = choose|m: int| 0 <= m < front.len() && front[m] == before[k].0;
                assert(selected[m] == before[k].0);
            } else {
                assert(selected[selected.len() - 1] == last);
            }
        }
        assert forall|a: int, b: int| 0 <= a < b < offsets.len() implies (#[trigger] offsets[a]).0
            != (#[trigger] offsets[b]).0 by {
            assert(offsets[a] == before[a]);
            if b < before.len() {
                assert(offsets[b] == before[b]);
            } else {
                assert(front.contains(before[a].0));
            }
        }
        assert forall|m: int| 0 <= m < selected.len() && (#[trigger] selected[m])
            < rects.len() implies exists|k: int|
            0 <= k < offsets.len() && (#[trigger] offsets[k]).0 == selected[m] by {
            if m < front.len() {
                assert(front[m] == selected[m]);
                let k = choose|k: int| 0 <= k < before.len() && (#[trigger] before[k]).0 == front[m];
                assert(offsets[k] == before[k]);
            } else {
                assert(offsets[before.len() as int].0 == last);
            }
        }
    }
}

/// The state after a drag from one position of the screen to another, with the button
/// still held.
pub open spec fn dragged(
    app: AppView,
    rects: Seq<Rect>,
    from: Point,
    to: Point,
    layout: PageLayout,
) -> AppView {
    app.drag_begun(rects, from).dragged_to(to, layout)
}

/// What a drag takes hold of: the overlay on top where it begins, and with it all that
/// are selected, if it is one of them.
pub open spec fn held(app: AppView, rects: Seq<Rect>, from: Point, j: int) -> bool {
    exists|i: int|
        #![trigger rects[i]]
        0 <= i < rects.len() && rects[i].x <= from.x <= rects[i].x + rects[i].w && rects[i].y
            <= from.y <= rects[i].y + rects[i].h && (forall|k: int|
            i < k < rects.len() ==> !(#[trigger] rects[k].x <= from.x <= rects[k].x + rects[k].w
                && rects[k].y <= from.y <= rects[k].y + rects[k].h)) && if app.selected.contains(
            i as usize,
        ) {
            app.selected.contains(j as usize)
        } else {
            j == i
        }
}

proof fn lemma_held(app: AppView, rects: Seq<Rect>, from: Point, j: int)
    requires
        rects.len() <= usize::MAX,
        0 <= j < rects.len(),
    ensures
        held(app, rects, from, j) == app.drag_begun(rects, from).selected.contains(j as usize),
{
    topmost_is_last_hit(rects, from);
    let begun = app.drag_begun(rects, from);
    match topmost(rects, from) {
        Some(i) => {
            assert(rects[i as int].contains(from.x as int, from.y as int));
            if begun.selected.contains(j as usize) {
                let r = rects[i as int];
                assert(held(app, rects, from, j));
            }
            if held(app, rects, from, j) {
                let m = choose|m: int|
                    #![trigger rects[m]]
                    0 <= m < rects.len() && rects[m].x <= from.x <= rects[m].x + rects[m].w
                        && rects[m].y <= from.y <= rects[m].y + rects[m].h && (forall|k: int|
                        m < k < rects.len() ==> !(#[trigger] rects[k].x <= from.x <= rects[k].x
                            + rects[k].w && rects[k].y <= from.y <= rects[k].y + rects[k].h))
                        && if app.selected.contains(m as usize) {
                        app.selected.contains(j as usize)
                    } else {
                        j == m
                    };
                if m < i {
                    assert(rects[i as int].x <= from.x);
                } else if m > i {
                    assert(!rects[m].contains(from.x as int, from.y as int));
                }
                if !app.selected.contains(i) {
                    assert(begun.selected[0] == i);
                }
            }
        },
        None => {
            if held(app, rects, from, j) {
                let m = choose|m: int|
                    #![trigger rects[m]]
                    0 <= m < rects.len() && rects[m].x <= from.x <= rects[m].x + rects[m].w
                        && rects[m].y <= from.y <= rects[m].y + rects[m].h && (forall|k: int|
                        m < k < rects.len() ==> !(#[trigger] rects[k].x <= from.x <= rects[k].x
                            + rects[k].w && rects[k].y <= from.y <= rects[k].y + rects[k].h))
                        && if app.selected.contains(m as usize) {
                        app.selected.contains(j as usize)
                    } else {
                        j == m
                    };
                assert(!rects[m].contains(from.x as int, from.y as int));
            }
        },
    }
}

/// A drag moves each overlay that it takes hold of so that its corner on the screen goes
/// as far as the pointer does, at the scale of the page, to the nearest tick of the page.
/// It changes nothing else of it, and no other overlay.
pub proof fn drag_follows_the_pointer(
    app: AppView,
    rects: Seq<Rect>,
    from: Point,
    to: Point,
    layout: PageLayout,
    j: int,
    most: int,
)
    requires
        app.wf(),
        app.has_page(),
        from.wf(),
        to.wf(),
        layout.wf(),
        crate::screen::rects_wf(rects),
        rects.len() == app.overlays().len(),
        rects.len() <= usize::MAX,
        0 <= j < rects.len(),
        0 <= most <= COORD_LIMIT,
        extents_at_most(app.overlays()[j], COORD_LIMIT - most),
        at_most(rects[j].x + (to.x - from.x) - layout.page_rect.x, layout.scale, most),
        at_most(rects[j].y + (to.y - from.y) - layout.page_rect.y, layout.scale, most),
    ensures
        ({
            let after = dragged(app, rects, from, to, layout);
            let old_o = app.overlays()[j];
            let new_o = after.overlays()[j];
            &&& after.overlays().len() == app.overlays().len()
            &&& held(app, rects, from, j) ==> {
                &&& same_but_place(old_o, new_o)
                &&& is_nearest_length(
                    place_of(new_o).0,
                    rects[j].x + (to.x - from.x) - layout.page_rect.x,
                    layout.scale,
                )
                &&& is_nearest_length(
                    place_of(new_o).1,
                    rects[j].y + (to.y - from.y) - layout.page_rect.y,
                    layout.scale,
                )
            }
            &&& !held(app, rects, from, j) ==> new_o == old_o
        }),
{
    let begun = app.drag_begun(rects, from);
    let offsets = begun.drag_offsets;
    lemma_held(app, rects, from, j);
    assert(begun.selected.no_duplicates());
    lemma_offsets(begun.selected, rects, from);
    let n = offsets.len() as int;
    let all = with_dragged(app.overlays(), offsets, to, layout, n);
    drag_moves_only_dragged(app.overlays(), offsets, to, layout, n, j);
    if held(app, rects, from, j) {
        let m = choose|m: int| 0 <= m < begun.selected.len() && begun.selected[m] == j as usize;
        let k = choose|k: int| 0 <= k < offsets.len() && (#[trigger] offsets[k]).0 == begun.selected[m];
        lemma_dragged_once(app.overlays(), offsets, to, layout, n, k);
        let r = rects[j];
        assert(r.wf());
        let dx = r.x + (to.x - from.x) - layout.page_rect.x;
        let dy = r.y + (to.y - from.y) - layout.page_rect.y;
        assert(offsets[k].1 == (Point { x: (from.x - r.x) as i64, y: (from.y - r.y) as i64 }));
        screen_is_divided_by_the_scale(dx, layout.scale, most);
        screen_is_divided_by_the_scale(dy, layout.scale, most);
    } else {
        assert forall|k: int| 0 <= k < n implies (#[trigger] offsets[k]).0 != j by {
            assert(begun.selected.contains(offsets[k].0));
        }
    }
}

proof fn lemma_near_on_screen(d: int, place: int, shown: int, scale: u64)
    requires
        is_nearest_length(place, d, scale),
        is_nearest_distance(shown, place, scale),
    ensures
        -(scale + 0x1_0000_0000) <= 0x2_0000_0000 * (shown - d) <= scale + 0x1_0000_0000,
{
    let p = place * scale;
    assert(-(scale as int) <= 2 * (p - d * 0x1_0000_0000) <= scale);
    assert(-0x1_0000_0000 <= 2 * (shown * 0x1_0000_0000 - p) <= 0x1_0000_0000);
    assert(0x2_0000_0000 * (shown - d) == 2 * (shown * 0x1_0000_0000 - p) + 2 * (p - d
        * 0x1_0000_0000));
}

/// After a drag an overlay that was taken hold of is shown where it was shown before, moved
/// by as much as the pointer went, up to the resolution of the screen and of the page.
pub proof fn dragged_overlay_stays_under_the_pointer(
    app: AppView,
    rects: Seq<Rect>,
    from: Point,
    to: Point,
    layout: PageLayout,
    j: int,
    text_layout: Point,
    row_h: i64,
    most: int,
)
    requires
        app.wf(),
        app.has_page(),
        from.wf(),
        to.wf(),
        layout.wf(),
        crate::screen::rects_wf(rects),
        rects.len() == app.overlays().len(),
        rects.len() <= usize::MAX,
        0 <= j < rects.len(),
        0 <= most <= COORD_LIMIT,
        extents_at_most(app.overlays()[j], COORD_LIMIT - most),
        at_most(rects[j].x + (to.x - from.x) - layout.page_rect.x, layout.scale, most),
        at_most(rects[j].y + (to.y - from.y) - layout.page_rect.y, layout.scale, most),
        held(app, rects, from, j),
        ({
            let (x, y) = place_of(dragged(app, rects, from, to, layout).overlays()[j]);
            at_most_on_screen(x, layout.scale) && at_most_on_screen(y, layout.scale)
        }),
        -(COORD_LIMIT / 2) <= layout.page_rect.x <= COORD_LIMIT / 2,
        -(COORD_LIMIT / 2) <= layout.page_rect.y <= COORD_LIMIT / 2,
    ensures
        ({
            let o = dragged(app, rects, from, to, layout).overlays()[j];
            let r = overlay_area(o, layout.page_rect, layout.scale, text_layout, row_h);
            let near = layout.scale + 0x1_0000_0000;
            &&& -near <= 0x2_0000_0000 * (r.x - (rects[j].x + (to.x - from.x))) <= near
            &&& -near <= 0x2_0000_0000 * (r.y - (rects[j].y + (to.y - from.y))) <= near
        }),
{
    drag_follows_the_pointer(app, rects, from, to, layout, j, most);
    let o = dragged(app, rects, from, to, layout).overlays()[j];
    overlay_is_shown_to_scale(o, layout.page_rect, layout.scale, text_layout, row_h);
    let r = overlay_area(o, layout.page_rect, layout.scale, text_layout, row_h);
    lemma_near_on_screen(
        rects[j].x + (to.x - from.x) - layout.page_rect.x,
        place_of(o).0,
        r.x - layout.page_rect.x,
        layout.scale,
    );
    lemma_near_on_screen(
        rects[j].y + (to.y - from.y) - layout.page_rect.y,
        place_of(o).1,
        r.y - layout.page_rect.y,
        layout.scale,
    );
}

/// A drag that ends where it began leaves an overlay where it was, up to the resolution
/// of the screen and of the page, at every scale.
pub proof fn drag_to_its_start_moves_nothing(
    app: AppView,
    rects: Seq<Rect>,
    from: Point,
    layout: PageLayout,
    j: int,
    text_layout: Point,
    row_h: i64,
    most: int,
)
    requires
        app.wf(),
        app.has_page(),
        from.wf(),
        layout.wf(),
        crate::screen::rects_wf(rects),
        rects.len() == app.overlays().len(),
        rects.len() <= usize::MAX,
        0 <= j < rects.len(),
        rects[j] == overlay_area(
            app.overlays()[j],
            layout.page_rect,
            layout.scale,
            text_layout,
            row_h,
        ),
        at_most_on_screen(place_of(app.overlays()[j]).0, layout.scale),
        at_most_on_screen(place_of(app.overlays()[j]).1, layout.scale),
        -(COORD_LIMIT / 2) <= layout.page_rect.x <= COORD_LIMIT / 2,
        -(COORD_LIMIT / 2) <= layout.page_rect.y <= COORD_LIMIT / 2,
        0 <= most <= COORD_LIMIT,
        extents_at_most(app.overlays()[j], COORD_LIMIT - most),
        at_most(rects[j].x - layout.page_rect.x, layout.scale, most),
        at_most(rects[j].y - layout.page_rect.y, layout.scale, most),
    ensures
        ({
            let (x, y) = place_of(app.overlays()[j]);
            let (nx, ny) = place_of(dragged(app, rects, from, from, layout).overlays()[j]);
            let scale = layout.scale;
            &&& -(scale + 0x1_0000_0000) <= 2 * scale * (nx - x) <= scale + 0x1_0000_0000
            &&& -(scale + 0x1_0000_0000) <= 2 * scale * (ny - y) <= scale + 0x1_0000_0000
        }),
{
    let o = app.overlays()[j];
    let scale = layout.scale;
    drag_follows_the_pointer(app, rects, from, from, layout, j, most);
    overlay_is_shown_to_scale(o, layout.page_rect, scale, text_layout, row_h);
    let (x, y) = place_of(o);
    let (nx, ny) = place_of(dragged(app, rects, from, from, layout).overlays()[j]);
    assert(2 * scale * (nx - x) == 2 * (nx * scale) - 2 * (x * scale)) by (nonlinear_arith);
    assert(2 * scale * (ny - y) == 2 * (ny * scale) - 2 * (y * scale)) by (nonlinear_arith);
}

/// A drag changes nothing but where the overlays of the page that is shown lie.
pub proof fn drag_changes_only_places(app: AppView, pos: Point, layout: PageLayout, i: int)
    requires
        app.wf(),
        app.has_page(),
        0 <= i < app.pages.len(),
    ensures
        ({
            let after = app.dragged_to(pos, layout);
            &&& after == (AppView { pages: after.pages, ..app })
            &&& after.pages.len() == app.pages.len()
            &&& after.pages[i].size_pt == app.pages[i].size_pt
            &&& i != app.current ==> after.pages[i] == app.pages[i]
        }),
{
}

} // verus!
