//! The pointer on the page: clicks, drags and rubber bands.

use vstd::prelude::*;

use crate::app::{is_selected, point_wf, App, AppView};
use crate::files::labelled;
use crate::geom::Rect;
use crate::merge::{
    all_on_plane, merge_overlapping_marks, merge_overlapping_redacts, merged_overlays, of_kind,
    RectKind,
};
use crate::overlay::{overlay_views, overlays_wf, wf_is_bounded, Overlay, OverlayView};
use crate::screen::{
    band_between, band_of, band_on_page, hit_test, pdf_coords_from_band, points, rects_touch,
    rects_wf, scale_wf, to_points, topmost, touches, PageLayout, Point,
};
use crate::units::COORD_LIMIT;

verus! {

/// The least extent of a rubber band, in ticks of the screen: what is smaller is
/// taken for a slip.
pub const BAND_MIN: i64 = 30_000;

/// What the pointer did in one frame.
pub struct PointerInput {
    pub drag_started: bool,
    /// Where the button was pressed.
    pub press_origin: Option<Point>,
    pub dragged: bool,
    pub drag_stopped: bool,
    pub clicked: bool,
    pub ctrl: bool,
    /// Where the pointer is.
    pub pos: Option<Point>,
}

impl PointerInput {
    pub open spec fn wf(self) -> bool {
        point_wf(self.press_origin) && point_wf(self.pos)
    }
}

impl PageLayout {
    pub open spec fn wf(self) -> bool {
        self.page_rect.wf() && scale_wf(self.scale)
    }
}

/// The first of two optional positions that is there.
pub open spec fn either(a: Option<Point>, b: Option<Point>) -> Option<Point> {
    match a {
        Some(p) => Some(p),
        None => b,
    }
}

// ---------------------------------------------------------------------------
// Starting a drag
// ---------------------------------------------------------------------------

/// How far a position is from the corners of the selected rectangles.
pub open spec fn offsets_from(selected: Seq<usize>, rects: Seq<Rect>, pos: Point) -> Seq<
    (usize, Point),
>
    decreases selected.len(),
{
    if selected.len() == 0 {
        Seq::empty()
    } else {
        let front = offsets_from(selected.drop_last(), rects, pos);
        let j = selected.last();
        if j < rects.len() {
            let r = rects[j as int];
            front.push((j, Point { x: (pos.x - r.x) as i64, y: (pos.y - r.y) as i64 }))
        } else {
            front
        }
    }
}

impl AppView {
    /// The state after a drag has begun at a position: on an overlay, which moves
    /// it and what is selected with it, or beside all, which begins a rubber band.
    pub open spec fn drag_begun(self, rects: Seq<Rect>, pos: Point) -> AppView {
        match topmost(rects, pos) {
            Some(i) => {
                let selected = if self.selected.contains(i) {
                    self.selected
                } else {
                    seq![i]
                };
                AppView {
                    selected,
                    drag_offsets: offsets_from(selected, rects, pos),
                    rubber_band: None,
                    ..self
                }
            },
            None => AppView {
                selected: Seq::empty(),
                drag_offsets: Seq::empty(),
                rubber_band: Some(pos),
                ..self
            },
        }
    }
}

fn drag_offsets_from(selected: &Vec<usize>, rects: &Vec<Rect>, pos: Point) -> (r: Vec<
    (usize, Point),
>)
    requires
        rects_wf(rects@),
        pos.wf(),
    ensures
        r@ == offsets_from(selected@, rects@, pos),
        forall|i: int|
            0 <= i < r.len() ==> -2 * COORD_LIMIT <= (#[trigger] r@[i]).1.x <= 2 * COORD_LIMIT && -2
                * COORD_LIMIT <= r@[i].1.y <= 2 * COORD_LIMIT,
{
    let n = selected.len();
    let mut r: Vec<(usize, Point)> = Vec::new();
    let mut k: usize = 0;
    assert(selected@.take(0) =~= Seq::empty());
    while k < n
        invariant
            n == selected.len(),
            k <= n,
            rects_wf(rects@),
            pos.wf(),
            r@ == offsets_from(selected@.take(k as int), rects@, pos),
            forall|i: int|
                0 <= i < r.len() ==> -2 * COORD_LIMIT <= (#[trigger] r@[i]).1.x <= 2 * COORD_LIMIT
                    && -2 * COORD_LIMIT <= r@[i].1.y <= 2 * COORD_LIMIT,
        decreases n - k,
    {
        let j = selected[k];
        assert(selected@.take(k + 1).drop_last() =~= selected@.take(k as int));
        if j < rects.len() {
            let rect = rects[j];
            assert(rects@[j as int].wf());
            r.push((j, Point { x: pos.x - rect.x, y: pos.y - rect.y }));
        }
        k += 1;
    }
    assert(selected@.take(n as int) =~= selected@);
    r
}

impl App {
    fn begin_drag(&mut self, rects: &Vec<Rect>, pos: Point)
        requires
            old(self).wf(),
            old(self)@.has_page(),
            rects_wf(rects@),
            pos.wf(),
        ensures
            final(self)@ == old(self)@.drag_begun(rects@, pos),
            final(self).wf(),
            final(self)@.has_page(),
    {
        match hit_test(rects, pos) {
            Some(i) => {
                if !is_selected(&self.selected, i) {
                    let mut selected: Vec<usize> = Vec::new();
                    selected.push(i);
                    self.selected = selected;
                    assert(self.selected@ =~= seq![i]);
                }
                self.drag_offsets = drag_offsets_from(&self.selected, rects, pos);
                self.rubber_band = None;
            },
            None => {
                self.selected = Vec::new();
                self.drag_offsets = Vec::new();
                self.rubber_band = Some(pos);
                assert(self.selected@ =~= Seq::empty());
                assert(self.drag_offsets@ =~= Seq::empty());
            },
        }
    }
}

// ---------------------------------------------------------------------------
// Dragging
// ---------------------------------------------------------------------------

/// An overlay moved so that the pointer keeps its distance from its corner.
pub open spec fn dragged_overlay(
    o: OverlayView,
    offset: Point,
    pos: Point,
    layout: PageLayout,
) -> OverlayView {
    o.brought_to(
        points(pos.x - offset.x - layout.page_rect.x, layout.scale),
        points(pos.y - offset.y - layout.page_rect.y, layout.scale),
    )
}

/// The overlays with the first `n` dragged ones moved.
pub open spec fn with_dragged(
    overlays: Seq<OverlayView>,
    offsets: Seq<(usize, Point)>,
    pos: Point,
    layout: PageLayout,
    n: int,
) -> Seq<OverlayView>
    decreases n,
{
    if n <= 0 {
        overlays
    } else {
        let front = with_dragged(overlays, offsets, pos, layout, n - 1);
        let (i, offset) = offsets[n - 1];
        if i < front.len() {
            front.update(i as int, dragged_overlay(front[i as int], offset, pos, layout))
        } else {
            front
        }
    }
}

impl AppView {
    /// The state after the pointer has been dragged to a position.
    pub open spec fn dragged_to(self, pos: Point, layout: PageLayout) -> AppView {
        if self.drag_offsets.len() == 0 {
            self
        } else {
            self.with_overlays(
                with_dragged(
                    self.overlays(),
                    self.drag_offsets,
                    pos,
                    layout,
                    self.drag_offsets.len() as int,
                ),
            )
        }
    }
}

fn move_overlay(o: &mut Overlay, offset: Point, pos: Point, layout: PageLayout)
    requires
        old(o)@.wf(),
        -2 * COORD_LIMIT <= offset.x <= 2 * COORD_LIMIT,
        -2 * COORD_LIMIT <= offset.y <= 2 * COORD_LIMIT,
        pos.wf(),
        layout.wf(),
    ensures
        final(o)@ == dragged_overlay(old(o)@, offset, pos, layout),
        final(o)@.wf(),
{
    let new_x = to_points(pos.x - offset.x - layout.page_rect.x, layout.scale);
    let new_y = to_points(pos.y - offset.y - layout.page_rect.y, layout.scale);
    o.bring_to(new_x as i128, new_y as i128);
}

fn move_overlays(
    overlays: &mut Vec<Overlay>,
    offsets: &Vec<(usize, Point)>,
    pos: Point,
    layout: PageLayout,
)
    requires
        overlays_wf(overlay_views(old(overlays)@)),
        forall|i: int|
            0 <= i < offsets.len() ==> -2 * COORD_LIMIT <= (#[trigger] offsets@[i]).1.x <= 2
                * COORD_LIMIT && -2 * COORD_LIMIT <= offsets@[i].1.y <= 2 * COORD_LIMIT,
        pos.wf(),
        layout.wf(),
    ensures
        overlay_views(final(overlays)@) == with_dragged(
            overlay_views(old(overlays)@),
            offsets@,
            pos,
            layout,
            offsets@.len() as int,
        ),
        overlays_wf(overlay_views(final(overlays)@)),
{
    let ghost start = overlay_views(overlays@);
    let n = offsets.len();
    let mut k: usize = 0;
    while k < n
        invariant
            n == offsets.len(),
            k <= n,
            pos.wf(),
            layout.wf(),
            forall|i: int|
                0 <= i < offsets.len() ==> -2 * COORD_LIMIT <= (#[trigger] offsets@[i]).1.x <= 2
                    * COORD_LIMIT && -2 * COORD_LIMIT <= offsets@[i].1.y <= 2 * COORD_LIMIT,
            overlays_wf(overlay_views(overlays@)),
            overlay_views(overlays@) == with_dragged(start, offsets@, pos, layout, k as int),
        decreases n - k,
    {
        let (i, offset) = offsets[k];
        assert(-2 * COORD_LIMIT <= offsets@[k as int].1.x);
        if i < overlays.len() {
            let ghost before = overlay_views(overlays@);
            assert(before[i as int] == overlays@[i as int]@);
            assert(before[i as int].wf());
            move_overlay(&mut overlays[i], offset, pos, layout);
            let ghost moved = overlays@[i as int]@;
            assert(overlay_views(overlays@) =~= before.update(i as int, moved));
        }
        k += 1;
    }
}

impl App {
    fn drag_to(&mut self, pos: Point, layout: PageLayout)
        requires
            old(self).wf(),
            old(self)@.has_page(),
            pos.wf(),
            layout.wf(),
        ensures
            final(self)@ == old(self)@.dragged_to(pos, layout),
            final(self).wf(),
            final(self)@.has_page(),
    {
        if self.drag_offsets.len() == 0 {
            return;
        }
        proof {
            assert(self@.pages[self.current as int].wf());
        }
        let mut offsets: Vec<(usize, Point)> = Vec::new();
        std::mem::swap(&mut self.drag_offsets, &mut offsets);
        proof {
            assert(offsets@ == old(self)@.drag_offsets);
        }
        move_overlays(self.overlays_mut(), &offsets, pos, layout);
        std::mem::swap(&mut self.drag_offsets, &mut offsets);
        assert(self@.pages =~= old(self)@.dragged_to(pos, layout).pages);
    }
}

// ---------------------------------------------------------------------------
// Ending a drag
// ---------------------------------------------------------------------------

/// The indices of the rectangles that a band touches, ascending.
pub open spec fn touched(rects: Seq<Rect>, band: Rect) -> Seq<usize>
    decreases rects.len(),
{
    if rects.len() == 0 {
        Seq::empty()
    } else {
        let front = touched(rects.drop_last(), band);
        if touches(band, rects.last()) {
            front.push((rects.len() - 1) as usize)
        } else {
            front
        }
    }
}

/// A band so small that it is taken for a slip.
pub open spec fn too_small(band: Rect) -> bool {
    band.w < BAND_MIN || band.h < BAND_MIN
}

impl AppView {
    /// The state with one more redaction, merged with those that it overlaps.
    pub open spec fn redacted(self, area: Rect) -> AppView {
        self.with_overlays(
            merged_overlays(
                self.overlays().push(of_kind(RectKind::Redact, area)),
                RectKind::Redact,
            ),
        )
    }

    /// The state after a rubber band has been drawn, and the area of the page to
    /// look for text in, if it is to be marked.
    pub open spec fn band_drawn(self, band: Rect, rects: Seq<Rect>, layout: PageLayout) -> (
        AppView,
        Option<Rect>,
    ) {
        let area = band_on_page(band, layout.page_rect, layout.scale);
        if self.block_mode && !too_small(band) {
            (AppView { block_mode: false, ..self.redacted(area) }, None)
        } else if self.mark_mode && !too_small(band) {
            (self, Some(area))
        } else if !self.block_mode && !self.mark_mode {
            (AppView { selected: touched(rects, band), ..self }, None)
        } else {
            (self, None)
        }
    }

    /// The state after a rubber band has ended, if there was one.
    pub open spec fn band_ended(
        self,
        end: Option<Point>,
        rects: Seq<Rect>,
        layout: PageLayout,
    ) -> (AppView, Option<Rect>) {
        match self.rubber_band {
            Some(start) => {
                let band = band_of(
                    start,
                    match end {
                        Some(pos) => pos,
                        None => start,
                    },
                );
                (AppView { rubber_band: None, ..self }).band_drawn(band, rects, layout)
            },
            None => (self, None),
        }
    }

    /// The state after a drag has ended, and the area of the page to look for text
    /// in, if it is to be marked.
    pub open spec fn drag_ended(
        self,
        end: Option<Point>,
        rects: Seq<Rect>,
        layout: PageLayout,
    ) -> (AppView, Option<Rect>) {
        let (a, area) = self.band_ended(end, rects, layout);
        (AppView { drag_offsets: Seq::empty(), ..a }, area)
    }
}

proof fn lemma_touched(rects: Seq<Rect>, band: Rect)
    requires
        rects.len() <= usize::MAX,
    ensures
        touched(rects, band).no_duplicates(),
        forall|i: int|
            0 <= i < touched(rects, band).len() ==> #[trigger] touched(rects, band)[i]
                < rects.len(),
    decreases rects.len(),
{
    if rects.len() > 0 {
        lemma_touched(rects.drop_last(), band);
    }
}

fn touched_by(rects: &Vec<Rect>, band: Rect) -> (r: Vec<usize>)
    requires
        rects_wf(rects@),
        band.wf(),
    ensures
        r@ == touched(rects@, band),
        r@.no_duplicates(),
{
    let n = rects.len();
    let mut r: Vec<usize> = Vec::new();
    let mut i: usize = 0;
    assert(rects@.take(0) =~= Seq::empty());
    while i < n
        invariant
            n == rects.len(),
            i <= n,
            rects_wf(rects@),
            band.wf(),
            r@ == touched(rects@.take(i as int), band),
        decreases n - i,
    {
        assert(rects@.take(i + 1).drop_last() =~= rects@.take(i as int));
        assert(rects@[i as int].wf());
        if rects_touch(band, rects[i]) {
            r.push(i);
        }
        i += 1;
    }
    assert(rects@.take(n as int) =~= rects@);
    proof {
        lemma_touched(rects@, band);
    }
    r
}

impl App {
    fn add_redact(&mut self, area: Rect)
        requires
            old(self).wf(),
            old(self)@.has_page(),
            area.on_plane(),
        ensures
            final(self)@ == old(self)@.redacted(area),
            final(self).wf(),
            final(self)@.has_page(),
    {
        proof {
            assert(self@.pages[self.current as int].wf());
        }
        let ghost before = self@.overlays();
        let overlays = self.overlays_mut();
        let o = Overlay::Redact { x: area.x, y: area.y, w: area.w, h: area.h };
        overlays.push(o);
        assert(overlay_views(overlays@) =~= before.push(of_kind(RectKind::Redact, area)));
        proof {
            wf_is_bounded(overlay_views(overlays@));
        }
        merge_overlapping_redacts(overlays);
    }

    #[verifier::rlimit(40)]
    fn draw_band(&mut self, band: Rect, rects: &Vec<Rect>, layout: PageLayout) -> (r: Option<Rect>)
        requires
            old(self).wf(),
            old(self)@.has_page(),
            band.wf(),
            rects_wf(rects@),
            layout.wf(),
        ensures
            (final(self)@, r) == old(self)@.band_drawn(band, rects@, layout),
            final(self).wf(),
            final(self)@.has_page(),
            r matches Some(area) ==> area.on_plane(),
    {
        let small = band.w < BAND_MIN || band.h < BAND_MIN;
        let area = pdf_coords_from_band(band, layout.page_rect, layout.scale);
        if self.block_mode && !small {
            self.add_redact(area);
            self.block_mode = false;
        } else if self.mark_mode && !small {
            return Some(area);
        } else if !self.block_mode && !self.mark_mode {
            self.selected = touched_by(rects, band);
        }
        None
    }

    fn end_band(&mut self, end: Option<Point>, rects: &Vec<Rect>, layout: PageLayout) -> (r: Option<
        Rect,
    >)
        requires
            old(self).wf(),
            old(self)@.has_page(),
            point_wf(end),
            rects_wf(rects@),
            layout.wf(),
        ensures
            (final(self)@, r) == old(self)@.band_ended(end, rects@, layout),
            final(self).wf(),
            final(self)@.has_page(),
            r matches Some(area) ==> area.on_plane(),
    {
        match self.rubber_band {
            Some(start) => {
                self.rubber_band = None;
                assert(self@ == (AppView { rubber_band: None, ..old(self)@ }));
                let end = match end {
                    Some(pos) => pos,
                    None => start,
                };
                self.draw_band(band_between(start, end), rects, layout)
            },
            None => None,
        }
    }

    #[verifier::rlimit(40)]
    fn end_drag(&mut self, end: Option<Point>, rects: &Vec<Rect>, layout: PageLayout) -> (r: Option<
        Rect,
    >)
        requires
            old(self).wf(),
            old(self)@.has_page(),
            point_wf(end),
            rects_wf(rects@),
            layout.wf(),
        ensures
            (final(self)@, r) == old(self)@.drag_ended(end, rects@, layout),
            final(self).wf(),
            final(self)@.has_page(),
            r matches Some(area) ==> area.on_plane(),
    {
        let area = self.end_band(end, rects, layout);
        self.drag_offsets = Vec::new();
        assert(self.drag_offsets@ =~= Seq::empty());
        area
    }
}

// ---------------------------------------------------------------------------
// Marks
// ---------------------------------------------------------------------------

/// Overlays with marks behind them.
pub open spec fn with_marks(overlays: Seq<OverlayView>, areas: Seq<Rect>) -> Seq<OverlayView> {
    overlays + areas.map_values(|r: Rect| of_kind(RectKind::PendingMark, r))
}

impl AppView {
    /// The state after an area has been marked in which some words were found. Where
    /// none was found, the area itself is marked.
    pub open spec fn marked(self, area: Rect, found: Seq<Rect>) -> AppView {
        let areas = if found.len() == 0 {
            seq![area]
        } else {
            found
        };
        let a = self.with_overlays(
            merged_overlays(with_marks(self.overlays(), areas), RectKind::PendingMark),
        );
        if found.len() == 0 {
            a.with_status("No text detected — using rectangle."@)
        } else {
            a
        }
    }
}

fn push_marks(overlays: &mut Vec<Overlay>, areas: &Vec<Rect>)
    requires
        overlays_wf(overlay_views(old(overlays)@)),
        all_on_plane(areas@),
    ensures
        overlay_views(final(overlays)@) == with_marks(overlay_views(old(overlays)@), areas@),
        overlays_wf(overlay_views(final(overlays)@)),
{
    let ghost start = overlay_views(overlays@);
    let n = areas.len();
    let mut i: usize = 0;
    assert(with_marks(start, areas@.take(0)) =~= start);
    while i < n
        invariant
            n == areas.len(),
            i <= n,
            all_on_plane(areas@),
            overlays_wf(overlay_views(overlays@)),
            overlay_views(overlays@) == with_marks(start, areas@.take(i as int)),
        decreases n - i,
    {
        let r = areas[i];
        assert(areas@[i as int].on_plane());
        let ghost before = overlay_views(overlays@);
        let o = Overlay::PendingMark { x: r.x, y: r.y, w: r.w, h: r.h };
        overlays.push(o);
        assert(overlay_views(overlays@) =~= before.push(of_kind(RectKind::PendingMark, r)));
        i += 1;
        assert(with_marks(start, areas@.take(i as int)) =~= before.push(
            of_kind(RectKind::PendingMark, r),
        ));
    }
    assert(areas@.take(n as int) =~= areas@);
}

impl App {
    /// Mark the words that were found in an area of the page, or, where none was
    /// found, the area itself. Marks that overlap become one.
    pub fn add_marks(&mut self, area: Rect, found: Vec<Rect>)
        requires
            old(self).wf(),
            old(self)@.has_page(),
            area.on_plane(),
            all_on_plane(found@),
        ensures
            final(self)@ == old(self)@.marked(area, found@),
            final(self).wf(),
    {
        proof {
            assert(self@.pages[self.current as int].wf());
        }
        let none_found = found.len() == 0;
        let areas = if none_found {
            let mut one: Vec<Rect> = Vec::new();
            one.push(area);
            assert(one@ =~= seq![area]);
            one
        } else {
            found
        };
        assert(all_on_plane(areas@));
        let overlays = self.overlays_mut();
        push_marks(overlays, &areas);
        proof {
            wf_is_bounded(overlay_views(overlays@));
        }
        merge_overlapping_marks(overlays);
        if none_found {
            self.status = labelled("No text detected — using rectangle.", "");
            proof {
                reveal_strlit("");
                assert(self.status@ =~= "No text detected — using rectangle."@);
            }
        }
    }
}

// ---------------------------------------------------------------------------
// Clicks
// ---------------------------------------------------------------------------

/// A selection with one index more, or one less where it was there.
pub open spec fn toggled(selected: Seq<usize>, i: usize) -> Seq<usize> {
    if selected.contains(i) {
        selected.remove(selected.index_of(i))
    } else {
        selected.push(i)
    }
}

impl AppView {
    /// The state after a click. It selects what is under the pointer; a text is then
    /// edited. With Ctrl it adds to the selection or takes from it.
    pub open spec fn clicked(self, rects: Seq<Rect>, pos: Point, ctrl: bool) -> AppView {
        match topmost(rects, pos) {
            Some(i) => if ctrl {
                AppView { selected: toggled(self.selected, i), ..self }
            } else if self.overlay(i) matches Some(OverlayView::Text { .. }) {
                AppView {
                    selected: seq![i],
                    editing: Some(i),
                    editing_just_focused: false,
                    ..self
                }
            } else {
                AppView { selected: seq![i], ..self }
            },
            None => AppView { selected: Seq::empty(), ..self },
        }
    }
}

fn position_of(selected: &Vec<usize>, i: usize) -> (r: Option<usize>)
    requires
        selected@.no_duplicates(),
    ensures
        match r {
            Some(k) => selected@.contains(i) && k == selected@.index_of(i) && k < selected.len(),
            None => !selected@.contains(i),
        },
{
    let n = selected.len();
    let mut k: usize = 0;
    while k < n
        invariant
            n == selected.len(),
            k <= n,
            selected@.no_duplicates(),
            forall|j: int| 0 <= j < k ==> selected@[j] != i,
        decreases n - k,
    {
        if selected[k] == i {
            assert(selected@.contains(i));
            return Some(k);
        }
        k += 1;
    }
    None
}

impl App {
    fn click(&mut self, rects: &Vec<Rect>, pos: Point, ctrl: bool)
        requires
            old(self).wf(),
            old(self)@.has_page(),
            rects_wf(rects@),
            pos.wf(),
        ensures
            final(self)@ == old(self)@.clicked(rects@, pos, ctrl),
            final(self).wf(),
    {
        match hit_test(rects, pos) {
            Some(i) => {
                if ctrl {
                    match position_of(&self.selected, i) {
                        Some(k) => {
                            self.selected.remove(k);
                        },
                        None => {
                            self.selected.push(i);
                        },
                    }
                    assert(self.selected@ =~= toggled(old(self).selected@, i));
                    assert(self.selected@.no_duplicates());
                } else {
                    let mut selected: Vec<usize> = Vec::new();
                    selected.push(i);
                    self.selected = selected;
                    assert(self.selected@ =~= seq![i]);
                    let overlays = &self.pages[self.current].overlays;
                    if i < overlays.len() {
                        assert(self@.overlays()[i as int] == overlays@[i as int]@);
                        if overlays[i].is_text() {
                            self.editing = Some(i);
                            self.editing_just_focused = false;
                        }
                    }
                }
            },
            None => {
                self.selected = Vec::new();
                assert(self.selected@ =~= Seq::empty());
            },
        }
    }
}

// ---------------------------------------------------------------------------
// One frame
// ---------------------------------------------------------------------------

impl AppView {
    /// The state after the drags of a frame, and the area of the page to look for
    /// text in, if it is to be marked.
    pub open spec fn after_drags(
        self,
        input: PointerInput,
        rects: Seq<Rect>,
        layout: PageLayout,
    ) -> (AppView, Option<Rect>) {
        let a = match either(input.press_origin, input.pos) {
            Some(pos) if input.drag_started => self.drag_begun(rects, pos),
            _ => self,
        };
        let b = match input.pos {
            Some(pos) if input.dragged => a.dragged_to(pos, layout),
            _ => a,
        };
        if input.drag_stopped {
            b.drag_ended(input.pos, rects, layout)
        } else {
            (b, None)
        }
    }

    /// The state after the clicks of a frame.
    pub open spec fn after_clicks(self, input: PointerInput, rects: Seq<Rect>) -> AppView {
        match input.pos {
            Some(pos) if input.clicked => self.clicked(rects, pos, input.ctrl),
            _ => self,
        }
    }
}

impl App {
    /// The drags of a frame, given the rectangles of the overlays on the screen.
    /// Where the result is an area of the page, the words in it are to be found and
    /// marked. The clicks of the frame come after that.
    #[verifier::rlimit(40)]
    pub fn handle_pointer(&mut self, input: &PointerInput, rects: &Vec<Rect>, layout: PageLayout)
        -> (r: Option<Rect>)
        requires
            old(self).wf(),
            old(self)@.has_page(),
            input.wf(),
            rects_wf(rects@),
            layout.wf(),
        ensures
            (final(self)@, r) == old(self)@.after_drags(*input, rects@, layout),
            final(self).wf(),
            final(self)@.has_page(),
            r matches Some(area) ==> area.on_plane(),
    {
        if input.drag_started {
            let origin = match input.press_origin {
                Some(pos) => Some(pos),
                None => input.pos,
            };
            if let Some(pos) = origin {
                self.begin_drag(rects, pos);
            }
        }
        if input.dragged {
            if let Some(pos) = input.pos {
                self.drag_to(pos, layout);
            }
        }
        if input.drag_stopped {
            self.end_drag(input.pos, rects, layout)
        } else {
            None
        }
    }

    /// The clicks of a frame, given the rectangles of the overlays on the screen.
    pub fn handle_click(&mut self, input: &PointerInput, rects: &Vec<Rect>)
        requires
            old(self).wf(),
            old(self)@.has_page(),
            input.wf(),
            rects_wf(rects@),
        ensures
            final(self)@ == old(self)@.after_clicks(*input, rects@),
            final(self).wf(),
    {
        if input.clicked {
            if let Some(pos) = input.pos {
                self.click(rects, pos, input.ctrl);
            }
        }
    }
}

// ---------------------------------------------------------------------------
// Laws
// ---------------------------------------------------------------------------

/// Dragging moves what is dragged, changes nothing else of it, and leaves every
/// other overlay where it is.
pub proof fn drag_moves_only_dragged(
    overlays: Seq<OverlayView>,
    offsets: Seq<(usize, Point)>,
    pos: Point,
    layout: PageLayout,
    n: int,
    i: int,
)
    requires
        0 <= i < overlays.len(),
        0 <= n <= offsets.len(),
    ensures
        with_dragged(overlays, offsets, pos, layout, n).len() == overlays.len(),
        ({
            let after = with_dragged(overlays, offsets, pos, layout, n)[i];
            after == overlays[i].moved_to(after.left(), after.top())
        }),
        (forall|k: int| 0 <= k < n ==> (#[trigger] offsets[k]).0 != i) ==> with_dragged(
            overlays,
            offsets,
            pos,
            layout,
            n,
        )[i] == overlays[i],
    decreases n,
{
    if n > 0 {
        drag_moves_only_dragged(overlays, offsets, pos, layout, n - 1, i);
    }
}

/// A click with Ctrl, and another on the same overlay, leave the same overlays selected
/// as before. The first click selects what was not selected, beside the others, or the
/// other way round; what was not selected before leaves the others in their order.
pub proof fn second_ctrl_click_undoes(selected: Seq<usize>, i: usize)
    requires
        selected.no_duplicates(),
    ensures
        toggled(selected, i).contains(i) == !selected.contains(i),
        forall|j: usize|
            j != i ==> #[trigger] toggled(selected, i).contains(j) == selected.contains(j),
        forall|j: usize|
            #[trigger] toggled(toggled(selected, i), i).contains(j) == selected.contains(j),
        toggled(toggled(selected, i), i).len() == selected.len(),
        toggled(toggled(selected, i), i).no_duplicates(),
        !selected.contains(i) ==> toggled(toggled(selected, i), i) == selected,
{
    lemma_toggled(selected, i);
    lemma_toggled(toggled(selected, i), i);
    if !selected.contains(i) {
        lemma_added_and_removed(selected, i);
    }
}

proof fn lemma_toggled(selected: Seq<usize>, i: usize)
    requires
        selected.no_duplicates(),
    ensures
        toggled(selected, i).no_duplicates(),
        toggled(selected, i).contains(i) == !selected.contains(i),
        toggled(selected, i).len() == selected.len() + if selected.contains(i) {
            -1int
        } else {
            1int
        },
        forall|j: usize|
            j != i ==> #[trigger] toggled(selected, i).contains(j) == selected.contains(j),
{
    let t = toggled(selected, i);
    if selected.contains(i) {
        let at = selected.index_of(i);
        assert(t == selected.remove(at));
        assert forall|j: usize| j != i implies #[trigger] t.contains(j) == selected.contains(j) by {
            if t.contains(j) {
                let k = choose|k: int| 0 <= k < t.len() && t[k] == j;
                assert(selected[if k < at {
                    k
                } else {
                    k + 1
                }] == j);
            }
            if selected.contains(j) {
                let k = choose|k: int| 0 <= k < selected.len() && selected[k] == j;
                assert(t[if k < at {
                    k
                } else {
                    k - 1
                }] == j);
            }
        }
        if t.contains(i) {
            let k = choose|k: int| 0 <= k < t.len() && t[k] == i;
            assert(selected[if k < at {
                k
            } else {
                k + 1
            }] == i);
        }
    } else {
        assert(t[selected.len() as int] == i);
        assert forall|j: usize| j != i implies #[trigger] t.contains(j) == selected.contains(j) by {
            if t.contains(j) {
                let k = choose|k: int| 0 <= k < t.len() && t[k] == j;
                assert(selected[k] == j);
            }
            if selected.contains(j) {
                let k = choose|k: int| 0 <= k < selected.len() && selected[k] == j;
                assert(t[k] == j);
            }
        }
    }
}

proof fn lemma_added_and_removed(selected: Seq<usize>, i: usize)
    requires
        !selected.contains(i),
    ensures
        toggled(toggled(selected, i), i) == selected,
{
    let one = selected.push(i);
    assert(one[selected.len() as int] == i);
    assert(one.index_of(i) == selected.len()) by {
        let k = one.index_of(i);
        assert(one[k] == i);
        if k < selected.len() {
            assert(selected[k] == i);
        }
    }
    assert(one.remove(selected.len() as int) =~= selected);
}

/// A band in the block mode makes one redaction and leaves the mode, and no two
/// redactions of the page have a common area.
pub proof fn block_mode_is_single_shot(
    app: AppView,
    band: Rect,
    rects: Seq<Rect>,
    layout: PageLayout,
)
    requires
        app.wf(),
        app.has_page(),
        app.block_mode,
        !too_small(band),
    ensures
        ({
            let (after, area) = app.band_drawn(band, rects, layout);
            &&& area is None
            &&& !after.block_mode
            &&& crate::merge::apart(
                crate::merge::rects_of(after.overlays(), RectKind::Redact),
            )
        }),
{
    let area = band_on_page(band, layout.page_rect, layout.scale);
    crate::merge::merge_settles(
        app.overlays().push(of_kind(RectKind::Redact, area)),
        RectKind::Redact,
    );
}

/// Drawing a band turns no mode on: the block mode and the mark mode are not both on
/// after it either.
pub proof fn bands_turn_no_mode_on(app: AppView, band: Rect, rects: Seq<Rect>, layout: PageLayout)
    ensures
        app.band_drawn(band, rects, layout).0.block_mode ==> app.block_mode,
        app.band_drawn(band, rects, layout).0.mark_mode ==> app.mark_mode,
{
}

/// Marking an area leaves no two marks with a common area, so that marking it again
/// looks the same as marking it once, and keeps every other overlay.
pub proof fn marks_never_overlap(app: AppView, area: Rect, found: Seq<Rect>)
    requires
        app.wf(),
        app.has_page(),
    ensures
        crate::merge::apart(
            crate::merge::rects_of(app.marked(area, found).overlays(), RectKind::PendingMark),
        ),
        crate::merge::others_of(app.marked(area, found).overlays(), RectKind::PendingMark)
            == crate::merge::others_of(app.overlays(), RectKind::PendingMark),
{
    let areas = if found.len() == 0 {
        seq![area]
    } else {
        found
    };
    crate::merge::merge_settles(with_marks(app.overlays(), areas), RectKind::PendingMark);
    lemma_marks_are_no_others(app.overlays(), areas);
}

proof fn lemma_marks_are_no_others(overlays: Seq<OverlayView>, areas: Seq<Rect>)
    ensures
        crate::merge::others_of(with_marks(overlays, areas), RectKind::PendingMark)
            == crate::merge::others_of(overlays, RectKind::PendingMark),
    decreases areas.len(),
{
    if areas.len() == 0 {
        assert(with_marks(overlays, areas) =~= overlays);
    } else {
        lemma_marks_are_no_others(overlays, areas.drop_last());
        assert(with_marks(overlays, areas).drop_last() =~= with_marks(
            overlays,
            areas.drop_last(),
        ));
    }
}

} // verus!
