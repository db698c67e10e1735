//! Pages on the screen: how large a page is shown, where its points lie, and
//! what is under the pointer.
//!
//! Screen lengths are ticks of a ten-thousandth of a pixel.

use vstd::prelude::*;

use crate::geom::Rect;
use crate::overlay::{Overlay, OverlayView};
use crate::units::{
    clamped, in_range, is_extent, limit, limited, max, min, round_div, rounded, rounded_is_nearest,
    spec_max, spec_min, COORD_LIMIT,
};

verus! {

/// One pixel to the point. A scale is a number of pixels to the point, with this
/// as its unit.
pub const SCALE_ONE: u64 = 4_294_967_296;

/// The smallest scale, a tenth of a pixel to the point, and the largest that a number
/// of this size tells.
pub const SCALE_MIN: u64 = 429_496_730;
pub const SCALE_MAX: u64 = 18_446_744_073_709_551_615;

/// A position on the screen or on a page.
#[derive(Clone, Copy, Debug, PartialEq, Eq, Structural)]
pub struct Point {
    pub x: i64,
    pub y: i64,
}

impl Point {
    pub open spec fn wf(self) -> bool {
        in_range(self.x as int) && in_range(self.y as int)
    }
}

/// A scale that pages are shown at.
pub open spec fn scale_wf(scale: u64) -> bool {
    SCALE_MIN <= scale <= SCALE_MAX
}

/// A length on a page as it appears on the screen.
pub open spec fn pixels(v: int, scale: u64) -> int {
    limited(rounded(v * scale, SCALE_ONE as int))
}

/// A length on the screen as it is on a page.
pub open spec fn points(v: int, scale: u64) -> int {
    limited(rounded(v * SCALE_ONE, scale as int))
}

proof fn lemma_product_bound(a: int, b: int, ma: int, mb: int)
    requires
        -ma <= a <= ma,
        0 <= b <= mb,
    ensures
        -(ma * mb) <= a * b <= ma * mb,
{
    assert(-(ma * mb) <= a * b <= ma * mb) by (nonlinear_arith)
        requires
            -ma <= a <= ma,
            0 <= b <= mb,
    ;
}

/// A length on a page as it appears on the screen.
pub fn to_pixels(v: i64, scale: u64) -> (r: i64)
    requires
        is_extent(v as int),
        scale_wf(scale),
    ensures
        r == pixels(v as int, scale),
        in_range(r as int),
{
    proof {
        lemma_product_bound(v as int, scale as int, 2 * COORD_LIMIT, SCALE_MAX as int);
    }
    limit(round_div(v as i128 * scale as i128, SCALE_ONE as i128))
}

/// A length on the screen as it is on a page.
pub fn to_points(v: i64, scale: u64) -> (r: i64)
    requires
        -4 * COORD_LIMIT <= v <= 4 * COORD_LIMIT,
        scale_wf(scale),
    ensures
        r == points(v as int, scale),
        in_range(r as int),
{
    proof {
        lemma_product_bound(v as int, SCALE_ONE as int, 4 * COORD_LIMIT, SCALE_ONE as int);
    }
    limit(round_div(v as i128 * SCALE_ONE as i128, scale as i128))
}

/// A length that is small enough not to reach the limits of the range comes back
/// from the screen as it was, but for the resolution of the screen: by less than
/// a pixel's tick and half a point's.
pub proof fn screen_and_back(v: int, scale: u64)
    requires
        scale_wf(scale),
        in_range(rounded(v * scale, SCALE_ONE as int)),
        in_range(rounded(pixels(v, scale) * SCALE_ONE, scale as int)),
    ensures
        2 * scale * (points(pixels(v, scale), scale) - v) <= scale + SCALE_ONE,
        2 * scale * (v - points(pixels(v, scale), scale)) <= scale + SCALE_ONE,
{
    let p = pixels(v, scale);
    let b = points(p, scale);
    rounded_is_nearest(v * scale, SCALE_ONE as int);
    rounded_is_nearest(p * SCALE_ONE, scale as int);
    assert(2 * scale * (b - v) == 2 * (b * scale - p * SCALE_ONE) + 2 * (p * SCALE_ONE - v * scale))
        by (nonlinear_arith);
    assert(2 * scale * (v - b) == -(2 * scale * (b - v))) by (nonlinear_arith);
}

/// A position on the screen as a position on the page, from its top left corner.
pub fn screen_to_pdf(pos: Point, page_rect: Rect, scale: u64) -> (r: Point)
    requires
        pos.wf(),
        page_rect.wf(),
        scale_wf(scale),
    ensures
        r.x == points(pos.x - page_rect.x, scale),
        r.y == points(pos.y - page_rect.y, scale),
        r.wf(),
{
    Point { x: to_points(pos.x - page_rect.x, scale), y: to_points(pos.y - page_rect.y, scale) }
}

/// The rectangle of a page that a rectangle on the screen covers.
pub fn pdf_coords_from_band(band: Rect, page_rect: Rect, scale: u64) -> (r: Rect)
    requires
        band.wf(),
        page_rect.wf(),
        scale_wf(scale),
    ensures
        r == band_on_page(band, page_rect, scale),
        r.on_plane(),
{
    let corner = screen_to_pdf(Point { x: band.x, y: band.y }, page_rect, scale);
    Rect {
        x: corner.x,
        y: corner.y,
        w: extent_to_points(corner.x, band.w, scale),
        h: extent_to_points(corner.y, band.h, scale),
    }
}

/// An extent on the screen as it is on a page from `from` on, as far as positions go.
pub open spec fn extent_points(from: int, v: int, scale: u64) -> int {
    limited(from + rounded(v * SCALE_ONE, scale as int)) - from
}

/// An extent on the screen as it is on a page from `from` on, as far as positions go.
fn extent_to_points(from: i64, v: i64, scale: u64) -> (r: i64)
    requires
        in_range(from as int),
        is_extent(v as int),
        scale_wf(scale),
    ensures
        r == extent_points(from as int, v as int, scale),
        in_range(from + r),
{
    proof {
        lemma_product_bound(v as int, SCALE_ONE as int, 2 * COORD_LIMIT, SCALE_ONE as int);
    }
    limit(from as i128 + round_div(v as i128 * SCALE_ONE as i128, scale as i128)) - from
}

/// The rectangle of a page that a rectangle on the screen covers.
pub open spec fn band_on_page(band: Rect, page_rect: Rect, scale: u64) -> Rect {
    Rect {
        x: points(band.x - page_rect.x, scale) as i64,
        y: points(band.y - page_rect.y, scale) as i64,
        w: extent_points(points(band.x - page_rect.x, scale), band.w as int, scale) as i64,
        h: extent_points(points(band.y - page_rect.y, scale), band.h as int, scale) as i64,
    }
}

/// The rectangle between two corners.
pub open spec fn band_of(a: Point, b: Point) -> Rect {
    let x = spec_min(a.x as int, b.x as int);
    let y = spec_min(a.y as int, b.y as int);
    Rect {
        x: x as i64,
        y: y as i64,
        w: (spec_max(a.x as int, b.x as int) - x) as i64,
        h: (spec_max(a.y as int, b.y as int) - y) as i64,
    }
}

/// The rectangle between two corners, whichever they are.
pub fn band_between(a: Point, b: Point) -> (r: Rect)
    requires
        a.wf(),
        b.wf(),
    ensures
        r == band_of(a, b),
        r.on_plane(),
        r.w >= 0,
        r.h >= 0,
{
    let x = min(a.x, b.x);
    let y = min(a.y, b.y);
    Rect { x, y, w: max(a.x, b.x) - x, h: max(a.y, b.y) - y }
}

/// The width of the area of an empty text, which is large enough to be seen.
pub const EMPTY_TEXT_W: i64 = 200_000;

/// The extent of a text on the screen: what the layout gives, or for an empty
/// text a width that can be seen and the height of a row.
pub open spec fn text_extent(empty: bool, layout: Point, row_h: i64) -> Point {
    if empty {
        Point { x: EMPTY_TEXT_W, y: row_h }
    } else {
        layout
    }
}

/// The extent of an overlay on the screen. That of a text comes from its layout.
pub open spec fn overlay_extent(o: OverlayView, scale: u64, layout: Point, row_h: i64) -> Point {
    match o {
        OverlayView::Text { text, .. } => text_extent(text.len() == 0, layout, row_h),
        OverlayView::Image { w, h, .. } => Point {
            x: pixels(w, scale) as i64,
            y: pixels(h, scale) as i64,
        },
        OverlayView::Redact { w, h, .. } => Point {
            x: pixels(w, scale) as i64,
            y: pixels(h, scale) as i64,
        },
        OverlayView::PendingMark { w, h, .. } => Point {
            x: pixels(w, scale) as i64,
            y: pixels(h, scale) as i64,
        },
    }
}

/// The rectangle of an overlay on the screen.
pub open spec fn overlay_area(
    o: OverlayView,
    page_rect: Rect,
    scale: u64,
    layout: Point,
    row_h: i64,
) -> Rect {
    let extent = overlay_extent(o, scale, layout, row_h);
    Rect {
        x: limited(page_rect.x + pixels(o.left(), scale)) as i64,
        y: limited(page_rect.y + pixels(o.top(), scale)) as i64,
        w: extent.x,
        h: extent.y,
    }
}

/// The rectangle of an overlay on the screen. For a text, `layout` is the extent
/// that its layout has and `row_h` the height of a row.
pub fn overlay_rect(o: &Overlay, page_rect: Rect, scale: u64, layout: Point, row_h: i64) -> (r:
    Rect)
    requires
        o@.bounded(),
        page_rect.wf(),
        scale_wf(scale),
        layout.wf(),
        in_range(row_h as int),
    ensures
        r == overlay_area(o@, page_rect, scale, layout, row_h),
        r.wf(),
{
    let (x, y, extent) = match o {
        Overlay::Text { text, x, y, size_pt: _, color: _ } => (
            *x,
            *y,
            if text.as_str().unicode_len() == 0 {
                Point { x: EMPTY_TEXT_W, y: row_h }
            } else {
                layout
            },
        ),
        Overlay::Image { path: _, x, y, w, h } => (
            *x,
            *y,
            Point { x: to_pixels(*w, scale), y: to_pixels(*h, scale) },
        ),
        Overlay::Redact { x, y, w, h } => (
            *x,
            *y,
            Point { x: to_pixels(*w, scale), y: to_pixels(*h, scale) },
        ),
        Overlay::PendingMark { x, y, w, h } => (
            *x,
            *y,
            Point { x: to_pixels(*w, scale), y: to_pixels(*h, scale) },
        ),
    };
    Rect {
        x: limit(page_rect.x as i128 + to_pixels(x, scale) as i128),
        y: limit(page_rect.y as i128 + to_pixels(y, scale) as i128),
        w: extent.x,
        h: extent.y,
    }
}

/// Whether a rectangle has a position in it or on its border.
pub fn rect_contains(r: Rect, pos: Point) -> (hit: bool)
    requires
        r.wf(),
        pos.wf(),
    ensures
        hit == r.contains(pos.x as int, pos.y as int),
{
    r.x <= pos.x && pos.x <= r.x + r.w && r.y <= pos.y && pos.y <= r.y + r.h
}

/// Two rectangles share at least a point.
pub open spec fn touches(a: Rect, b: Rect) -> bool {
    &&& a.x <= b.right()
    &&& b.x <= a.right()
    &&& a.y <= b.bottom()
    &&& b.y <= a.bottom()
}

/// Whether two rectangles share at least a point.
pub fn rects_touch(a: Rect, b: Rect) -> (r: bool)
    requires
        a.wf(),
        b.wf(),
    ensures
        r == touches(a, b),
{
    a.x <= b.x + b.w && b.x <= a.x + a.w && a.y <= b.y + b.h && b.y <= a.y + a.h
}

/// All rectangles of a list are in range.
pub open spec fn rects_wf(rects: Seq<Rect>) -> bool {
    forall|i: int| 0 <= i < rects.len() ==> (#[trigger] rects[i]).wf()
}

/// The `i`th rectangle is the last that has a position in it.
pub open spec fn is_topmost(rects: Seq<Rect>, pos: Point, i: int) -> bool {
    &&& 0 <= i < rects.len()
    &&& rects[i].contains(pos.x as int, pos.y as int)
    &&& forall|j: int|
        i < j < rects.len() ==> !(#[trigger] rects[j]).contains(pos.x as int, pos.y as int)
}

/// The last of the rectangles that has a position in it.
pub open spec fn topmost(rects: Seq<Rect>, pos: Point) -> Option<usize>
    decreases rects.len(),
{
    if rects.len() == 0 {
        None
    } else if rects.last().contains(pos.x as int, pos.y as int) {
        Some((rects.len() - 1) as usize)
    } else {
        topmost(rects.drop_last(), pos)
    }
}

/// The topmost of the rectangles at a position is the one drawn last; there is
/// one unless the position lies outside them all.
pub proof fn topmost_is_last_hit(rects: Seq<Rect>, pos: Point)
    requires
        rects.len() <= usize::MAX,
    ensures
        match topmost(rects, pos) {
            Some(i) => is_topmost(rects, pos, i as int),
            None => forall|j: int|
                0 <= j < rects.len() ==> !(#[trigger] rects[j]).contains(pos.x as int, pos.y as int),
        },
    decreases rects.len(),
{
    if rects.len() > 0 && !rects.last().contains(pos.x as int, pos.y as int) {
        let front = rects.drop_last();
        topmost_is_last_hit(front, pos);
        assert forall|j: int| 0 <= j < front.len() implies front[j] == rects[j] by {}
        match topmost(front, pos) {
            Some(i) => {
                assert(rects[i as int] == front[i as int]);
                assert forall|j: int| i < j < rects.len() implies !(#[trigger] rects[j]).contains(
                    pos.x as int,
                    pos.y as int,
                ) by {
                    if j < front.len() {
                        assert(rects[j] == front[j]);
                    }
                }
            },
            None => {
                assert forall|j: int| 0 <= j < rects.len() implies !(#[trigger] rects[j]).contains(
                    pos.x as int,
                    pos.y as int,
                ) by {
                    if j < front.len() {
                        assert(rects[j] == front[j]);
                    }
                }
            },
        }
    }
}

/// The topmost overlay at a position: of several, the one drawn last.
pub fn hit_test(rects: &Vec<Rect>, pos: Point) -> (r: Option<usize>)
    requires
        rects_wf(rects@),
        pos.wf(),
    ensures
        r == topmost(rects@, pos),
        r matches Some(i) ==> i < rects.len(),
{
    let mut n = rects.len();
    assert(rects@.take(n as int) =~= rects@);
    while n > 0
        invariant
            rects_wf(rects@),
            pos.wf(),
            n <= rects.len(),
            topmost(rects@, pos) == topmost(rects@.take(n as int), pos),
        decreases n,
    {
        n -= 1;
        assert(rects@.take(n + 1).last() == rects@[n as int]);
        assert(rects@.take(n + 1).drop_last() =~= rects@.take(n as int));
        if rect_contains(rects[n], pos) {
            return Some(n);
        }
    }
    None
}

/// How large a page is shown, and where.
#[derive(Clone, Copy, Debug, PartialEq, Eq, Structural)]
pub struct PageLayout {
    pub scale: u64,
    pub page_rect: Rect,
}

/// The scale at which a page fits into an area, but never less than the smallest.
pub open spec fn fitting_scale(avail: Rect, size: (i64, i64)) -> int {
    clamped(
        spec_min(
            rounded(avail.w * SCALE_ONE, size.0 as int),
            rounded(avail.h * SCALE_ONE, size.1 as int),
        ),
        SCALE_MIN as int,
        SCALE_MAX as int,
    )
}

/// A page in the middle of an area, at a scale.
pub open spec fn centred(avail: Rect, size: (i64, i64), scale: u64) -> Rect {
    let w = pixels(size.0 as int, scale);
    let h = pixels(size.1 as int, scale);
    Rect {
        x: limited(rounded(2 * avail.x + avail.w - w, 2)) as i64,
        y: limited(rounded(2 * avail.y + avail.h - h, 2)) as i64,
        w: w as i64,
        h: h as i64,
    }
}

/// A size that a page can have.
pub open spec fn size_wf(size: (i64, i64)) -> bool {
    0 < size.0 <= COORD_LIMIT && 0 < size.1 <= COORD_LIMIT
}

/// Show a page as large as the area allows, in its middle.
pub fn page_layout(avail: Rect, size: (i64, i64)) -> (r: PageLayout)
    requires
        avail.wf(),
        size_wf(size),
    ensures
        r.scale == fitting_scale(avail, size),
        r.page_rect == centred(avail, size, r.scale),
        scale_wf(r.scale),
        r.page_rect.wf(),
{
    proof {
        lemma_product_bound(avail.w as int, SCALE_ONE as int, 2 * COORD_LIMIT, SCALE_ONE as int);
        lemma_product_bound(avail.h as int, SCALE_ONE as int, 2 * COORD_LIMIT, SCALE_ONE as int);
    }
    let by_w = round_div(avail.w as i128 * SCALE_ONE as i128, size.0 as i128);
    let by_h = round_div(avail.h as i128 * SCALE_ONE as i128, size.1 as i128);
    let fit = if by_w <= by_h {
        by_w
    } else {
        by_h
    };
    let scale: u64 = if fit < SCALE_MIN as i128 {
        SCALE_MIN
    } else if fit > SCALE_MAX as i128 {
        SCALE_MAX
    } else {
        fit as u64
    };
    let w = to_pixels(size.0, scale);
    let h = to_pixels(size.1, scale);
    let page_rect = Rect {
        x: limit(round_div(2 * avail.x as i128 + avail.w as i128 - w as i128, 2)),
        y: limit(round_div(2 * avail.y as i128 + avail.h as i128 - h as i128, 2)),
        w,
        h,
    };
    PageLayout { scale, page_rect }
}

/// A page that is not shown at the smallest scale fits into the area, but for the
/// resolution of the scale: a ten-thousandth of a pixel, and as much again for every
/// four hundred thousand points of its size.
pub proof fn page_fits_area(avail: Rect, size: (i64, i64), scale: u64)
    requires
        size_wf(size),
        scale == fitting_scale(avail, size),
        scale > SCALE_MIN,
    ensures
        2 * SCALE_ONE * (centred(avail, size, scale).w - avail.w) <= SCALE_ONE + size.0,
        2 * SCALE_ONE * (centred(avail, size, scale).h - avail.h) <= SCALE_ONE + size.1,
{
    lemma_extent_fits(avail.w as int, size.0 as int, scale);
    lemma_extent_fits(avail.h as int, size.1 as int, scale);
}

proof fn lemma_extent_fits(avail: int, size: int, scale: u64)
    requires
        0 < size <= COORD_LIMIT,
        SCALE_MIN < scale <= SCALE_MAX,
        scale <= rounded(avail * SCALE_ONE, size),
    ensures
        2 * SCALE_ONE * (pixels(size, scale) - avail) <= SCALE_ONE + size,
        0 <= pixels(size, scale) <= COORD_LIMIT,
{
    let one = SCALE_ONE as int;
    let fit = rounded(avail * one, size);
    let shown = rounded(size * scale, one);
    rounded_is_nearest(avail * one, size);
    rounded_is_nearest(size * scale, one);
    assert(size * scale >= 0) by (nonlinear_arith)
        requires
            size > 0,
            scale > 0,
    ;
    assert(size * scale <= fit * size) by (nonlinear_arith)
        requires
            size > 0,
            scale <= fit,
    ;
    assert(shown >= 0);
    assert(2 * one * (shown - avail) == 2 * (shown * one - size * scale) + 2 * (size * scale
        - avail * one)) by (nonlinear_arith);
    assert(2 * one * (pixels(size, scale) - avail) <= 2 * one * (shown - avail))
        by (nonlinear_arith)
        requires
            pixels(size, scale) <= shown,
            one > 0,
    ;
}

} // verus!
