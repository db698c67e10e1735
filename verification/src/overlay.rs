//! What can be placed on a page: signature images, text labels, redactions
//! and marks that still await their redaction.

use vstd::prelude::*;

use crate::units::{clamp, clamped, in_range, is_extent, max, min, spec_max, spec_min, COORD_LIMIT};

verus! {

/// Smallest and largest size of a text label, in ticks.
pub const TEXT_SIZE_MIN: i64 = 60_000;
pub const TEXT_SIZE_MAX: i64 = 720_000;

/// Smallest and largest width of an image, in ticks.
pub const IMG_WIDTH_MIN: i64 = 100_000;
pub const IMG_WIDTH_MAX: i64 = 6_000_000;

/// Something placed on a page. Positions are the top left corner in the
/// displayed frame, in ticks.
pub enum Overlay {
    Image { path: Vec<u8>, x: i64, y: i64, w: i64, h: i64 },
    Text { text: String, x: i64, y: i64, size_pt: i64, color: [u8; 3] },
    /// Opaque black rectangle. It covers what is underneath and removes
    /// nothing: text below it can still be extracted from the file.
    Redact { x: i64, y: i64, w: i64, h: i64 },
    /// Highlight awaiting its redaction. It is never written to a file.
    PendingMark { x: i64, y: i64, w: i64, h: i64 },
}

/// The mathematical content of an [`Overlay`].
#[verifier::ext_equal]
pub enum OverlayView {
    Image { path: Seq<u8>, x: int, y: int, w: int, h: int },
    Text { text: Seq<char>, x: int, y: int, size_pt: int, color: [u8; 3] },
    Redact { x: int, y: int, w: int, h: int },
    PendingMark { x: int, y: int, w: int, h: int },
}

impl View for Overlay {
    type V = OverlayView;

    open spec fn view(&self) -> OverlayView {
        match *self {
            Overlay::Image { path, x, y, w, h } => OverlayView::Image {
                path: path@,
                x: x as int,
                y: y as int,
                w: w as int,
                h: h as int,
            },
            Overlay::Text { text, x, y, size_pt, color } => OverlayView::Text {
                text: text@,
                x: x as int,
                y: y as int,
                size_pt: size_pt as int,
                color,
            },
            Overlay::Redact { x, y, w, h } => OverlayView::Redact {
                x: x as int,
                y: y as int,
                w: w as int,
                h: h as int,
            },
            Overlay::PendingMark { x, y, w, h } => OverlayView::PendingMark {
                x: x as int,
                y: y as int,
                w: w as int,
                h: h as int,
            },
        }
    }
}

impl OverlayView {
    /// Positions, extents and sizes are in range.
    pub open spec fn bounded(self) -> bool {
        &&& in_range(self.left())
        &&& in_range(self.top())
        &&& match self {
            OverlayView::Image { w, h, .. } => in_range(w) && in_range(h),
            OverlayView::Text { size_pt, .. } => in_range(size_pt),
            OverlayView::Redact { x, y, w, h } => in_range(x + w) && in_range(y + h),
            OverlayView::PendingMark { x, y, w, h } => in_range(x + w) && in_range(y + h),
        }
    }

    /// Positions and extents are in range; sizes that can be adjusted lie
    /// between their limits, and the proportion of an image is one that a number
    /// of pixels can have.
    pub open spec fn wf(self) -> bool {
        &&& in_range(self.left())
        &&& in_range(self.top())
        &&& match self {
            OverlayView::Image { w, h, .. } => IMG_WIDTH_MIN <= w <= IMG_WIDTH_MAX
                && 0 <= h <= u32::MAX * w,
            OverlayView::Text { size_pt, .. } => TEXT_SIZE_MIN <= size_pt <= TEXT_SIZE_MAX,
            OverlayView::Redact { x, y, w, h } => in_range(x + w) && in_range(y + h),
            OverlayView::PendingMark { x, y, w, h } => in_range(x + w) && in_range(y + h),
        }
    }

    pub open spec fn left(self) -> int {
        match self {
            OverlayView::Image { x, .. } => x,
            OverlayView::Text { x, .. } => x,
            OverlayView::Redact { x, .. } => x,
            OverlayView::PendingMark { x, .. } => x,
        }
    }

    pub open spec fn top(self) -> int {
        match self {
            OverlayView::Image { y, .. } => y,
            OverlayView::Text { y, .. } => y,
            OverlayView::Redact { y, .. } => y,
            OverlayView::PendingMark { y, .. } => y,
        }
    }

    /// How far the overlay reaches from its corner, where its far corner has to be a
    /// position too: the extent of a rectangle.
    pub open spec fn reach(self) -> (int, int) {
        match self {
            OverlayView::Redact { w, h, .. } => (w, h),
            OverlayView::PendingMark { w, h, .. } => (w, h),
            _ => (0, 0),
        }
    }

    /// The same overlay with its top left corner at `(nx, ny)`, or as near to that as
    /// keeps it in range.
    pub open spec fn brought_to(self, nx: int, ny: int) -> OverlayView {
        self.moved_to(kept_in(nx, self.reach().0), kept_in(ny, self.reach().1))
    }

    /// The same overlay with its top left corner at `(nx, ny)`.
    pub open spec fn moved_to(self, nx: int, ny: int) -> OverlayView {
        match self {
            OverlayView::Image { path, x, y, w, h } => OverlayView::Image { path, x: nx, y: ny, w, h },
            OverlayView::Text { text, x, y, size_pt, color } => OverlayView::Text {
                text,
                x: nx,
                y: ny,
                size_pt,
                color,
            },
            OverlayView::Redact { x, y, w, h } => OverlayView::Redact { x: nx, y: ny, w, h },
            OverlayView::PendingMark { x, y, w, h } => OverlayView::PendingMark { x: nx, y: ny, w, h },
        }
    }
}

/// `v` moved to the nearest value that is in range together with `v + extent`.
pub open spec fn kept_in(v: int, extent: int) -> int {
    clamped(v, -COORD_LIMIT - spec_min(extent, 0), COORD_LIMIT - spec_max(extent, 0))
}

/// `v` moved to the nearest value that is in range together with `v + extent`.
fn keep_in(v: i128, extent: i64) -> (r: i64)
    requires
        is_extent(extent as int),
    ensures
        r == kept_in(v as int, extent as int),
        in_range(r as int),
        in_range(r + extent),
{
    clamp(v, -COORD_LIMIT - min(extent, 0), COORD_LIMIT - max(extent, 0))
}

/// The contents of a list of overlays.
pub open spec fn overlay_views(overlays: Seq<Overlay>) -> Seq<OverlayView> {
    overlays.map_values(|o: Overlay| o@)
}

/// Every overlay of the list has its numbers in range.
pub open spec fn overlays_bounded(overlays: Seq<OverlayView>) -> bool {
    forall|i: int| 0 <= i < overlays.len() ==> (#[trigger] overlays[i]).bounded()
}

/// Every overlay of the list is well formed.
pub open spec fn overlays_wf(overlays: Seq<OverlayView>) -> bool {
    forall|i: int| 0 <= i < overlays.len() ==> (#[trigger] overlays[i]).wf()
}

/// What is well formed has its numbers in range.
pub proof fn wf_is_bounded(overlays: Seq<OverlayView>)
    requires
        overlays_wf(overlays),
    ensures
        overlays_bounded(overlays),
{
    assert forall|i: int| 0 <= i < overlays.len() implies (#[trigger] overlays[i]).bounded() by {
        assert(overlays[i].wf());
    }
}

/// A copy of a list of bytes.
pub fn copy_bytes(bytes: &[u8]) -> (r: Vec<u8>)
    ensures
        r@ == bytes@,
{
    let mut r: Vec<u8> = Vec::new();
    r.extend_from_slice(bytes);
    assert(r@ =~= bytes@);
    r
}

impl Clone for Overlay {
    fn clone(&self) -> (r: Overlay)
        ensures
            r@ == self@,
    {
        match self {
            Overlay::Image { path, x, y, w, h } => Overlay::Image {
                path: copy_bytes(path.as_slice()),
                x: *x,
                y: *y,
                w: *w,
                h: *h,
            },
            Overlay::Text { text, x, y, size_pt, color } => Overlay::Text {
                text: text.clone(),
                x: *x,
                y: *y,
                size_pt: *size_pt,
                color: *color,
            },
            Overlay::Redact { x, y, w, h } => Overlay::Redact { x: *x, y: *y, w: *w, h: *h },
            Overlay::PendingMark { x, y, w, h } => Overlay::PendingMark { x: *x, y: *y, w: *w, h: *h },
        }
    }
}

impl Overlay {
    /// Top left corner, mutable.
    pub fn position_mut(&mut self) -> (r: (&mut i64, &mut i64))
        ensures
            *r.0 == old(self)@.left(),
            *r.1 == old(self)@.top(),
            final(self)@ == old(self)@.moved_to(*final(r.0) as int, *final(r.1) as int),
    {
        match self {
            Overlay::Image { x, y, .. } => (x, y),
            Overlay::Text { x, y, .. } => (x, y),
            Overlay::Redact { x, y, .. } => (x, y),
            Overlay::PendingMark { x, y, .. } => (x, y),
        }
    }

    /// Top left corner.
    pub fn position(&self) -> (r: (i64, i64))
        ensures
            r.0 == self@.left(),
            r.1 == self@.top(),
    {
        match self {
            Overlay::Image { x, y, .. } => (*x, *y),
            Overlay::Text { x, y, .. } => (*x, *y),
            Overlay::Redact { x, y, .. } => (*x, *y),
            Overlay::PendingMark { x, y, .. } => (*x, *y),
        }
    }

    /// Move the top left corner to a position, or as near to it as keeps the overlay
    /// in range.
    pub fn bring_to(&mut self, x: i128, y: i128)
        requires
            old(self)@.bounded(),
        ensures
            final(self)@ == old(self)@.brought_to(x as int, y as int),
            final(self)@.bounded(),
            old(self)@.wf() ==> final(self)@.wf(),
    {
        let (w, h): (i64, i64) = match self {
            Overlay::Redact { w, h, .. } => (*w, *h),
            Overlay::PendingMark { w, h, .. } => (*w, *h),
            _ => (0, 0),
        };
        let (px, py) = self.position_mut();
        *px = keep_in(x, w);
        *py = keep_in(y, h);
    }

    /// Whether this is a redaction.
    pub fn is_redact(&self) -> (r: bool)
        ensures
            r == (self@ is Redact),
    {
        matches!(self, Overlay::Redact { .. })
    }

    /// Whether this is a mark that awaits its redaction.
    pub fn is_pending_mark(&self) -> (r: bool)
        ensures
            r == (self@ is PendingMark),
    {
        matches!(self, Overlay::PendingMark { .. })
    }

    /// Whether this is a text label.
    pub fn is_text(&self) -> (r: bool)
        ensures
            r == (self@ is Text),
    {
        matches!(self, Overlay::Text { .. })
    }
}

} // verus!
