//! Rectangles on a page: overlap and union, the two page frames, and the
//! matching of detected words against a dragged selection.

use vstd::prelude::*;

use crate::units::{in_range, is_extent, max, min, spec_max, spec_min, COORD_LIMIT};

verus! {

/// A rectangle given by a corner and its extent, in ticks. In the displayed
/// frame the corner is the top left one and `y` grows downwards; in the
/// MediaBox frame it is the bottom left one and `y` grows upwards.
#[derive(Clone, Copy, Debug, PartialEq, Eq, Structural)]
pub struct Rect {
    pub x: i64,
    pub y: i64,
    pub w: i64,
    pub h: i64,
}

impl Rect {
    /// The corner is a position that the library works on, and the extent one that
    /// such positions can have.
    pub open spec fn wf(self) -> bool {
        &&& in_range(self.x as int)
        &&& in_range(self.y as int)
        &&& is_extent(self.w as int)
        &&& is_extent(self.h as int)
    }

    /// All corners are positions that the library works on.
    pub open spec fn on_plane(self) -> bool {
        &&& in_range(self.x as int)
        &&& in_range(self.y as int)
        &&& in_range(self.right())
        &&& in_range(self.bottom())
    }

    pub open spec fn right(self) -> int {
        self.x + self.w
    }

    pub open spec fn bottom(self) -> int {
        self.y + self.h
    }

    /// `(px, py)` lies in the rectangle or on its border.
    pub open spec fn contains(self, px: int, py: int) -> bool {
        self.x <= px <= self.right() && self.y <= py <= self.bottom()
    }

    /// `inner` lies within `self`.
    pub open spec fn covers(self, inner: Rect) -> bool {
        &&& self.x <= inner.x
        &&& self.y <= inner.y
        &&& inner.right() <= self.right()
        &&& inner.bottom() <= self.bottom()
    }
}

/// Width that two rectangles share; negative when they are apart.
pub open spec fn shared_width(a: Rect, b: Rect) -> int {
    spec_min(a.right(), b.right()) - spec_max(a.x as int, b.x as int)
}

/// Height that two rectangles share; negative when they are apart.
pub open spec fn shared_height(a: Rect, b: Rect) -> int {
    spec_min(a.bottom(), b.bottom()) - spec_max(a.y as int, b.y as int)
}

/// Area that two rectangles share, in square ticks.
pub open spec fn shared_area(a: Rect, b: Rect) -> int {
    spec_max(shared_width(a, b), 0) * spec_max(shared_height(a, b), 0)
}

/// The two rectangles share a positive area.
pub open spec fn overlap(a: Rect, b: Rect) -> bool {
    shared_width(a, b) > 0 && shared_height(a, b) > 0
}

/// The smallest rectangle around both.
pub open spec fn union_of(a: Rect, b: Rect) -> Rect {
    let x = spec_min(a.x as int, b.x as int);
    let y = spec_min(a.y as int, b.y as int);
    Rect {
        x: x as i64,
        y: y as i64,
        w: (spec_max(a.right(), b.right()) - x) as i64,
        h: (spec_max(a.bottom(), b.bottom()) - y) as i64,
    }
}

/// A shared area is positive exactly where the rectangles overlap.
pub proof fn area_positive_iff_overlap(a: Rect, b: Rect)
    ensures
        shared_area(a, b) >= 0,
        shared_area(a, b) > 0 <==> overlap(a, b),
{
    let w = spec_max(shared_width(a, b), 0);
    let h = spec_max(shared_height(a, b), 0);
    assert(w * h >= 0 && (w * h > 0 <==> w > 0 && h > 0)) by (nonlinear_arith)
        requires
            w >= 0,
            h >= 0,
    ;
}

/// Overlap does not depend on the order of the two rectangles.
pub proof fn overlap_is_symmetric(a: Rect, b: Rect)
    ensures
        overlap(a, b) == overlap(b, a),
        shared_area(a, b) == shared_area(b, a),
{
}

/// The union of two rectangles covers both, and reaches no further than they do.
pub proof fn union_covers_both(a: Rect, b: Rect)
    requires
        a.wf(),
        b.wf(),
    ensures
        a.on_plane() && b.on_plane() ==> union_of(a, b).on_plane(),
        union_of(a, b).x == a.x || union_of(a, b).x == b.x,
        union_of(a, b).y == a.y || union_of(a, b).y == b.y,
        union_of(a, b).right() == a.right() || union_of(a, b).right() == b.right(),
        union_of(a, b).bottom() == a.bottom() || union_of(a, b).bottom() == b.bottom(),
        union_of(a, b).covers(a),
        union_of(a, b).covers(b),
{
}

/// Area that two rectangles share, in square ticks; zero when they only touch.
pub fn intersection_area(a: Rect, b: Rect) -> (r: i128)
    requires
        a.wf(),
        b.wf(),
    ensures
        r == shared_area(a, b),
        r > 0 <==> overlap(a, b),
{
    let ox = min(a.x + a.w, b.x + b.w) - max(a.x, b.x);
    let oy = min(a.y + a.h, b.y + b.h) - max(a.y, b.y);
    let w = max(ox, 0) as i128;
    let h = max(oy, 0) as i128;
    proof {
        area_positive_iff_overlap(a, b);
        assert(0 <= w * h <= 4 * COORD_LIMIT * (4 * COORD_LIMIT)) by (nonlinear_arith)
            requires
                0 <= w <= 4 * COORD_LIMIT,
                0 <= h <= 4 * COORD_LIMIT,
        ;
    }
    w * h
}

/// The smallest rectangle around both.
pub fn union_rect(a: Rect, b: Rect) -> (r: Rect)
    requires
        a.wf(),
        b.wf(),
    ensures
        r == union_of(a, b),
        a.on_plane() && b.on_plane() ==> r.on_plane(),
{
    let x = min(a.x, b.x);
    let y = min(a.y, b.y);
    let right = max(a.x + a.w, b.x + b.w);
    let bottom = max(a.y + a.h, b.y + b.h);
    Rect { x, y, w: right - x, h: bottom - y }
}

// ---------------------------------------------------------------------------
// Page frames
// ---------------------------------------------------------------------------

/// A rectangle as four integers: what the frame changes are stated on.
pub struct Corners {
    pub x: int,
    pub y: int,
    pub w: int,
    pub h: int,
}

impl View for Rect {
    type V = Corners;

    open spec fn view(&self) -> Corners {
        Corners { x: self.x as int, y: self.y as int, w: self.w as int, h: self.h as int }
    }
}

/// From the displayed, top-down frame of a page with `/Rotate rotate` to the
/// unrotated, y-up MediaBox frame; `mb_w` and `mb_h` are the MediaBox extents.
pub open spec fn to_media_box(rotate: int, mb_w: int, mb_h: int, r: Corners) -> Corners {
    let turn = rotate % 360;
    if turn == 90 {
        Corners { x: r.y, y: r.x, w: r.h, h: r.w }
    } else if turn == 180 {
        Corners { x: mb_w - r.x - r.w, y: r.y, w: r.w, h: r.h }
    } else if turn == 270 {
        Corners { x: mb_w - r.y - r.h, y: mb_h - r.x - r.w, w: r.h, h: r.w }
    } else {
        Corners { x: r.x, y: mb_h - r.y - r.h, w: r.w, h: r.h }
    }
}

/// From the unrotated MediaBox frame to the displayed frame.
pub open spec fn to_displayed(rotate: int, mb_w: int, mb_h: int, r: Corners) -> Corners {
    let turn = rotate % 360;
    if turn == 90 {
        Corners { x: r.y, y: r.x, w: r.h, h: r.w }
    } else if turn == 180 {
        Corners { x: mb_w - r.x - r.w, y: r.y, w: r.w, h: r.h }
    } else if turn == 270 {
        Corners { x: mb_h - r.y - r.h, y: mb_w - r.x - r.w, w: r.h, h: r.w }
    } else {
        Corners { x: r.x, y: mb_h - r.y - r.h, w: r.w, h: r.h }
    }
}

/// Going to the MediaBox frame and back gives the rectangle again, for every
/// rotation and page.
pub proof fn displayed_inverts_media_box(rotate: int, mb_w: int, mb_h: int, r: Corners)
    ensures
        to_displayed(rotate, mb_w, mb_h, to_media_box(rotate, mb_w, mb_h, r)) == r,
{
}

/// Going to the displayed frame and back gives the rectangle again, for every
/// rotation and page.
pub proof fn media_box_inverts_displayed(rotate: int, mb_w: int, mb_h: int, r: Corners)
    ensures
        to_media_box(rotate, mb_w, mb_h, to_displayed(rotate, mb_w, mb_h, r)) == r,
{
}

/// A rectangle inside the displayed page lands inside the MediaBox: the page
/// as displayed is `mb_w` by `mb_h`, or the other way round when it lies on
/// its side.
pub proof fn media_box_keeps_page(rotate: int, mb_w: int, mb_h: int, r: Corners)
    requires
        0 <= r.x,
        0 <= r.y,
        0 <= r.w,
        0 <= r.h,
        rotate % 360 == 90 || rotate % 360 == 270 ==> r.x + r.w <= mb_h && r.y + r.h <= mb_w,
        !(rotate % 360 == 90 || rotate % 360 == 270) ==> r.x + r.w <= mb_w && r.y + r.h <= mb_h,
    ensures
        ({
            let m = to_media_box(rotate, mb_w, mb_h, r);
            &&& 0 <= m.x && m.x + m.w <= mb_w
            &&& 0 <= m.y && m.y + m.h <= mb_h
        }),
{
}

/// `rotate` brought into `0..360`.
pub fn full_turn_rest(rotate: i32) -> (r: i32)
    ensures
        r == rotate as int % 360,
        0 <= r < 360,
{
    match rotate.checked_rem_euclid(360) {
        Some(r) => r,
        None => 0,
    }
}

/// From the displayed, top-down frame of a page to the corner and extent that
/// a PDF `re` operator takes, in the unrotated MediaBox frame. Anything but a
/// quarter turn counts as no turn.
pub fn rect_to_media_box(rotate: i32, mb_w: i64, mb_h: i64, r: Rect) -> (m: Rect)
    requires
        in_range(mb_w as int),
        in_range(mb_h as int),
        r.wf(),
    ensures
        m@ == to_media_box(rotate as int, mb_w as int, mb_h as int, r@),
{
    match full_turn_rest(rotate) {
        90 => Rect { x: r.y, y: r.x, w: r.h, h: r.w },
        180 => Rect { x: mb_w - r.x - r.w, y: r.y, w: r.w, h: r.h },
        270 => Rect { x: mb_w - r.y - r.h, y: mb_h - r.x - r.w, w: r.h, h: r.w },
        _ => Rect { x: r.x, y: mb_h - r.y - r.h, w: r.w, h: r.h },
    }
}

/// From the unrotated MediaBox frame, as text bounds are reported in, to the
/// displayed top-down frame. The inverse of [`rect_to_media_box`].
pub fn media_box_to_displayed(rotate: i32, mb_w: i64, mb_h: i64, r: Rect) -> (d: Rect)
    requires
        in_range(mb_w as int),
        in_range(mb_h as int),
        in_range(r.w as int),
        in_range(r.h as int),
        -4 * COORD_LIMIT <= r.x <= 4 * COORD_LIMIT,
        -4 * COORD_LIMIT <= r.y <= 4 * COORD_LIMIT,
    ensures
        d@ == to_displayed(rotate as int, mb_w as int, mb_h as int, r@),
{
    match full_turn_rest(rotate) {
        90 => Rect { x: r.y, y: r.x, w: r.h, h: r.w },
        180 => Rect { x: mb_w - r.x - r.w, y: r.y, w: r.w, h: r.h },
        270 => Rect { x: mb_h - r.y - r.h, y: mb_w - r.x - r.w, w: r.h, h: r.w },
        _ => Rect { x: r.x, y: mb_h - r.y - r.h, w: r.w, h: r.h },
    }
}

/// A page's rotation and its unrotated MediaBox extents.
#[derive(Clone, Copy, Debug, PartialEq, Eq, Structural)]
pub struct PageFrame {
    pub rotate: i32,
    pub mb_w: i64,
    pub mb_h: i64,
}

impl PageFrame {
    pub open spec fn wf(self) -> bool {
        in_range(self.mb_w as int) && in_range(self.mb_h as int)
    }
}

/// The frame of a page displayed at `shown_w` by `shown_h`.
pub open spec fn frame_of(shown_w: i64, shown_h: i64, rotate: i32) -> PageFrame {
    if rotate == 90 || rotate == 270 {
        PageFrame { rotate, mb_w: shown_h, mb_h: shown_w }
    } else {
        PageFrame { rotate, mb_w: shown_w, mb_h: shown_h }
    }
}

/// The frame of a page displayed at `shown_w` by `shown_h`: on a page that
/// lies on its side the extents are swapped back.
pub fn page_frame(shown_w: i64, shown_h: i64, rotate: i32) -> (f: PageFrame)
    ensures
        f == frame_of(shown_w, shown_h, rotate),
        f.rotate == rotate,
        rotate == 90 || rotate == 270 ==> f.mb_w == shown_h && f.mb_h == shown_w,
        !(rotate == 90 || rotate == 270) ==> f.mb_w == shown_w && f.mb_h == shown_h,
{
    if rotate == 90 || rotate == 270 {
        PageFrame { rotate, mb_w: shown_h, mb_h: shown_w }
    } else {
        PageFrame { rotate, mb_w: shown_w, mb_h: shown_h }
    }
}

// ---------------------------------------------------------------------------
// Words against a selection
// ---------------------------------------------------------------------------

/// The middle of `a` lies in `b` or on its border.
pub open spec fn middle_in(a: Rect, b: Rect) -> bool {
    &&& 2 * b.x <= 2 * a.x + a.w <= 2 * b.right()
    &&& 2 * b.y <= 2 * a.y + a.h <= 2 * b.bottom()
}

/// The common part of two rectangles that overlap.
pub open spec fn clip(a: Rect, b: Rect) -> Rect {
    Rect {
        x: spec_max(a.x as int, b.x as int) as i64,
        y: spec_max(a.y as int, b.y as int) as i64,
        w: shared_width(a, b) as i64,
        h: shared_height(a, b) as i64,
    }
}

/// What of `word` a selection marks: their common part, if the middle of one
/// lies in the other.
pub open spec fn matched(word: Rect, sel: Rect) -> Option<Rect> {
    if (middle_in(word, sel) || middle_in(sel, word)) && overlap(word, sel) {
        Some(clip(word, sel))
    } else {
        None
    }
}

/// A mark lies within both the word and the selection, and has an area.
pub proof fn match_lies_in_both(word: Rect, sel: Rect)
    requires
        word.wf(),
        sel.wf(),
        matched(word, sel) is Some,
    ensures
        word.covers(matched(word, sel)->0),
        sel.covers(matched(word, sel)->0),
        matched(word, sel)->0.w > 0,
        matched(word, sel)->0.h > 0,
{
}

/// A word that lies within the selection and has an area is marked whole.
pub proof fn covered_word_is_marked_whole(word: Rect, sel: Rect)
    requires
        word.wf(),
        sel.wf(),
        sel.covers(word),
        word.w > 0,
        word.h > 0,
    ensures
        matched(word, sel) == Some(word),
{
}

fn middle_lies_in(a: Rect, b: Rect) -> (r: bool)
    requires
        a.wf(),
        b.wf(),
    ensures
        r == middle_in(a, b),
{
    let mx = 2 * a.x + a.w;
    let my = 2 * a.y + a.h;
    2 * b.x <= mx && mx <= 2 * (b.x + b.w) && 2 * b.y <= my && my <= 2 * (b.y + b.h)
}

/// Whether a word is marked by a selection, and if so which part of it.
///
/// A word qualifies when its middle lies inside the selection (a wide drag)
/// or the selection's middle lies inside the word (a tight drag on an inflated
/// word box). The result is the intersection, so a mark never reaches beyond
/// what was dragged.
pub fn match_and_clip(word: Rect, sel: Rect) -> (r: Option<Rect>)
    requires
        word.wf(),
        sel.wf(),
    ensures
        r == matched(word, sel),
        r matches Some(m) ==> m.w > 0 && m.h > 0,
{
    if !(middle_lies_in(word, sel) || middle_lies_in(sel, word)) {
        return None;
    }
    let left = max(word.x, sel.x);
    let top = max(word.y, sel.y);
    let right = min(word.x + word.w, sel.x + sel.w);
    let bottom = min(word.y + word.h, sel.y + sel.h);
    if right > left && bottom > top {
        Some(Rect { x: left, y: top, w: right - left, h: bottom - top })
    } else {
        None
    }
}

} // verus!
