//! What is shown: the bars above and below the page, how the overlays are drawn,
//! and what is handed on when the document is saved.

use image::DynamicImage;
use lopdf::Document;
use vstd::prelude::*;

use crate::app::{is_selected, App, AppView, PageView};
use crate::drawing::{fault_of, SaveError};
use crate::files::text_view;
use crate::font::Font;
use crate::merge::{rects_of, RectKind};
use crate::names::{base_of, first_free_output, free_output_name, output_name, text_views};
use crate::numtext::{decimal_text, push_decimal};
use crate::objects::doc_view;
use crate::overlay::{overlay_views, overlays_bounded, Overlay, OverlayView};
use crate::save::{has_kept_pages, page_views, picture_lists, save, work_of, Work};
use crate::units::TICKS_PER_PT;

verus! {

// ---------------------------------------------------------------------------
// The header
// ---------------------------------------------------------------------------

/// The whole number nearest to `n / d`; halfway cases go to the even one.
pub open spec fn rounded_even(n: int, d: int) -> int {
    let q = n / d;
    let r = n % d;
    if 2 * r < d || (2 * r == d && q % 2 == 0) {
        q
    } else {
        q + 1
    }
}

/// A text of a bar, and whether it stands out.
pub struct Segment {
    pub text: String,
    pub accent: bool,
}

/// The contents of the texts of a bar.
pub open spec fn segment_views(segments: Seq<Segment>) -> Seq<(Seq<char>, bool)> {
    segments.map_values(|s: Segment| (s.text@, s.accent))
}

/// The size of a text as it is shown.
pub open spec fn size_text(size: int) -> Seq<char> {
    decimal_text(rounded_even(size, TICKS_PER_PT as int) as nat) + " pt"@
}

impl AppView {
    /// The number of marks on the page.
    pub open spec fn pending_marks(self) -> nat {
        rects_of(self.overlays(), RectKind::PendingMark).len()
    }

    /// The size of the text that is edited or selected, as it is shown.
    pub open spec fn active_size_text(self) -> Option<Seq<char>> {
        match self.active_text() {
            Some(i) => match self.overlay(i) {
                Some(OverlayView::Text { size_pt, .. }) => Some(size_text(size_pt)),
                _ => None,
            },
            None => None,
        }
    }

    /// The texts of the header: the mode, the size of the active text, and the
    /// number of selected overlays, where there are several.
    pub open spec fn header(self) -> Seq<(Seq<char>, bool)> {
        let block = if self.block_mode {
            seq![("BLOCK"@, true)]
        } else {
            seq![]
        };
        let mark = if self.mark_mode {
            seq![("MARK · "@ + decimal_text(self.pending_marks()) + " pending"@, true)]
        } else {
            seq![]
        };
        let size = match self.active_size_text() {
            Some(text) => seq![(text, false)],
            None => seq![],
        };
        let count = if self.selected.len() > 1 {
            seq![(decimal_text(self.selected.len()) + " selected"@, false)]
        } else {
            seq![]
        };
        block + mark + size + count
    }

    /// The page that is shown and the number of pages; empty without a document.
    pub open spec fn page_text(self) -> Seq<char> {
        if self.has_page() {
            "["@ + decimal_text((self.current + 1) as nat) + "/"@ + decimal_text(self.pages.len())
                + "]"@
        } else {
            Seq::empty()
        }
    }
}

fn count_marks(overlays: &Vec<Overlay>) -> (r: usize)
    ensures
        r == rects_of(overlay_views(overlays@), RectKind::PendingMark).len(),
{
    let ghost views = overlay_views(overlays@);
    let n = overlays.len();
    let mut count: usize = 0;
    let mut i: usize = 0;
    assert(views.take(0) =~= Seq::empty());
    while i < n
        invariant
            n == overlays.len(),
            i <= n,
            views == overlay_views(overlays@),
            count == rects_of(views.take(i as int), RectKind::PendingMark).len(),
            count <= i,
        decreases n - i,
    {
        assert(views.take(i + 1).drop_last() =~= views.take(i as int));
        assert(views[i as int] == overlays@[i as int]@);
        if overlays[i].is_pending_mark() {
            count += 1;
        }
        i += 1;
    }
    assert(views.take(n as int) =~= views);
    count
}

fn round_even(n: i64, d: i64) -> (r: i64)
    requires
        0 <= n,
        0 < d <= 1_000_000,
    ensures
        r == rounded_even(n as int, d as int),
        0 <= r,
{
    let q = n / d;
    let r = n % d;
    assert(q <= n) by (nonlinear_arith)
        requires
            q == n / d,
            0 <= n,
            0 < d,
    ;
    assert(0 <= q && 0 <= r < d) by (nonlinear_arith)
        requires
            q == n / d,
            r == n % d,
            0 <= n,
            0 < d,
    ;
    if 2 * r < d || (2 * r == d && q % 2 == 0) {
        q
    } else {
        assert(d > 1);
        assert(q < n) by (nonlinear_arith)
            requires
                q == n / d,
                r == n % d,
                2 * r >= d,
                d > 1,
                0 <= n,
        ;
        q + 1
    }
}

impl App {
    fn active_size(&self) -> (r: Option<i64>)
        requires
            self.wf(),
            self@.has_page() || self@.editing is None,
        ensures
            match r {
                Some(size) => size >= 0 && self@.active_size_text() == Some(
                    size_text(size as int),
                ),
                None => self@.active_size_text() is None,
            },
    {
        let i = match self.active_text_idx() {
            Some(i) => i,
            None => return None,
        };
        proof {
            assert(self@.pages[self.current as int].wf());
        }
        let overlays = &self.pages[self.current].overlays;
        if i < overlays.len() {
            assert(self@.overlays()[i as int] == overlays@[i as int]@);
            assert(self@.overlays()[i as int].wf());
            if let Overlay::Text { text: _, x: _, y: _, size_pt, color: _ } = &overlays[i] {
                return Some(*size_pt);
            }
        }
        None
    }

    /// The texts of the header: the mode, the size of the active text, and the
    /// number of selected overlays, where there are several.
    pub fn header_segments(&self) -> (r: Vec<Segment>)
        requires
            self.wf(),
            self@.has_page() || (!self.mark_mode && self.editing is None),
        ensures
            segment_views(r@) == self@.header(),
    {
        let mut r: Vec<Segment> = Vec::new();
        if self.block_mode {
            let mut text = String::new();
            text.append("BLOCK");
            assert(text@ =~= "BLOCK"@);
            push_segment(&mut r, text, true);
        }
        if self.mark_mode {
            let n = count_marks(&self.pages[self.current].overlays);
            let mut text = String::new();
            text.append("MARK · ");
            push_decimal(&mut text, n as u128);
            text.append(" pending");
            assert(text@ =~= "MARK · "@ + decimal_text(n as nat) + " pending"@);
            push_segment(&mut r, text, true);
        }
        if let Some(size) = self.active_size() {
            let mut text = String::new();
            push_decimal(&mut text, round_even(size, TICKS_PER_PT) as u128);
            text.append(" pt");
            assert(text@ =~= size_text(size as int));
            push_segment(&mut r, text, false);
        }
        if self.selected.len() > 1 {
            let mut text = String::new();
            push_decimal(&mut text, self.selected.len() as u128);
            text.append(" selected");
            assert(text@ =~= decimal_text(self.selected@.len()) + " selected"@);
            push_segment(&mut r, text, false);
        }
        assert(segment_views(r@) =~= self@.header());
        r
    }

    /// The page that is shown and the number of pages; empty without a document.
    pub fn page_label(&self) -> (r: String)
        requires
            self.wf(),
        ensures
            r@ == self@.page_text(),
    {
        let mut r = String::new();
        if self.pages.len() > 0 {
            r.append("[");
            push_decimal(&mut r, self.current as u128 + 1);
            r.append("/");
            push_decimal(&mut r, self.pages.len() as u128);
            r.append("]");
        }
        assert(r@ =~= self@.page_text());
        r
    }
}

fn push_segment(out: &mut Vec<Segment>, text: String, accent: bool)
    ensures
        segment_views(final(out)@) == segment_views(old(out)@).push((text@, accent)),
{
    out.push(Segment { text, accent });
    assert(segment_views(out@) =~= segment_views(old(out)@).push((text@, accent)));
}

// ---------------------------------------------------------------------------
// Drawing
// ---------------------------------------------------------------------------

/// How an overlay is drawn.
#[derive(Clone, Copy, Debug, PartialEq, Eq, Structural)]
pub enum Paint {
    Nothing,
    Image,
    Text,
    Black,
    Rose,
}

/// How an overlay is drawn, and whether with an outline.
#[derive(Clone, Copy, Debug, PartialEq, Eq, Structural)]
pub struct DrawItem {
    pub paint: Paint,
    pub outlined: bool,
}

impl AppView {
    /// How the `i`th overlay is drawn. The one that is being edited is drawn by the
    /// editor; a redaction that is hidden is not drawn at all.
    pub open spec fn drawn(self, i: int) -> DrawItem {
        DrawItem {
            paint: if self.editing == Some(i as usize) {
                Paint::Nothing
            } else {
                match self.overlays()[i] {
                    OverlayView::Image { .. } => Paint::Image,
                    OverlayView::Text { .. } => Paint::Text,
                    OverlayView::Redact { .. } => if self.show_redacts {
                        Paint::Black
                    } else {
                        Paint::Nothing
                    },
                    OverlayView::PendingMark { .. } => Paint::Rose,
                }
            },
            outlined: self.selected.contains(i as usize),
        }
    }
}

/// How a rubber band is drawn.
#[derive(Clone, Copy, Debug, PartialEq, Eq, Structural)]
pub enum BandStyle {
    Block,
    Mark,
    Select,
}

impl AppView {
    /// How a rubber band is drawn.
    pub open spec fn band_look(self) -> BandStyle {
        if self.block_mode {
            BandStyle::Block
        } else if self.mark_mode {
            BandStyle::Mark
        } else {
            BandStyle::Select
        }
    }

    /// The pointer works on the page.
    pub open spec fn heeds_pointer(self) -> bool {
        !(self.color_menu is Some || self.color_custom is Some || self.color_menu_consume_click
            || self.help_open)
    }
}

impl App {
    /// How the overlays of the page are drawn, in order.
    pub fn draw_overlays(&self) -> (r: Vec<DrawItem>)
        requires
            self.wf(),
            self@.has_page(),
        ensures
            r@.len() == self@.overlays().len(),
            forall|i: int| 0 <= i < r@.len() ==> (#[trigger] r@[i]) == self@.drawn(i),
    {
        let overlays = &self.pages[self.current].overlays;
        let n = overlays.len();
        let mut r: Vec<DrawItem> = Vec::new();
        let mut i: usize = 0;
        while i < n
            invariant
                n == overlays.len(),
                i <= n,
                r.len() == i,
                self@.overlays() == overlay_views(overlays@),
                forall|k: int| 0 <= k < i ==> (#[trigger] r@[k]) == self@.drawn(k),
            decreases n - i,
        {
            assert(self@.overlays()[i as int] == overlays@[i as int]@);
            let edited = match self.editing {
                Some(e) => e == i,
                None => false,
            };
            let paint = if edited {
                Paint::Nothing
            } else {
                match &overlays[i] {
                    Overlay::Image { path: _, x: _, y: _, w: _, h: _ } => Paint::Image,
                    Overlay::Text { text: _, x: _, y: _, size_pt: _, color: _ } => Paint::Text,
                    Overlay::Redact { x: _, y: _, w: _, h: _ } => if self.show_redacts {
                        Paint::Black
                    } else {
                        Paint::Nothing
                    },
                    Overlay::PendingMark { x: _, y: _, w: _, h: _ } => Paint::Rose,
                }
            };
            r.push(DrawItem { paint, outlined: is_selected(&self.selected, i) });
            i += 1;
        }
        r
    }

    /// How a rubber band is drawn in the current mode.
    pub fn band_style(&self) -> (r: BandStyle)
        ensures
            r == self@.band_look(),
            r == if self.block_mode {
                BandStyle::Block
            } else if self.mark_mode {
                BandStyle::Mark
            } else {
                BandStyle::Select
            },
    {
        if self.block_mode {
            BandStyle::Block
        } else if self.mark_mode {
            BandStyle::Mark
        } else {
            BandStyle::Select
        }
    }

    /// Whether the pointer works on the page in this frame: not while a colour menu or
    /// the help is open, nor for the click that has closed a colour menu.
    pub fn takes_pointer(&mut self) -> (r: bool)
        requires
            old(self).wf(),
        ensures
            final(self)@ == (AppView { color_menu_consume_click: false, ..old(self)@ }),
            final(self).wf(),
            r == old(self)@.heeds_pointer(),
            r == !(old(self)@.color_menu is Some || old(self)@.color_custom is Some || old(
                self,
            )@.color_menu_consume_click || old(self)@.help_open),
    {
        let consumed = self.color_menu_consume_click;
        self.color_menu_consume_click = false;
        !(self.color_menu.is_some() || self.color_custom.is_some() || consumed || self.help_open)
    }
}

/// A hidden redaction is not drawn, and is drawn again once it is shown; the overlays
/// that are saved are the same either way.
pub proof fn hidden_redactions_are_not_drawn(app: AppView, i: int)
    requires
        app.wf(),
        app.has_page(),
        0 <= i < app.overlays().len(),
        app.overlays()[i] is Redact,
        !app.show_redacts,
    ensures
        app.drawn(i).paint == Paint::Nothing,
        (AppView { show_redacts: true, ..app }).pages == app.pages,
        app.editing != Some(i as usize) ==> (AppView { show_redacts: true, ..app }).drawn(i).paint
            == Paint::Black,
{
}

// ---------------------------------------------------------------------------
// Saving
// ---------------------------------------------------------------------------

/// One of the pages has a redaction.
pub open spec fn any_redact(pages: Seq<PageView>) -> bool {
    exists|p: int, i: int|
        0 <= p < pages.len() && 0 <= i < pages[p].overlays.len() && #[trigger] pages[p].overlays[i] is Redact
}

impl AppView {
    /// What is written when the document is saved.
    pub open spec fn work(self, pictures: Seq<Seq<Option<DynamicImage>>>, font: Seq<u8>) -> Work {
        Work {
            overlays: self.pages.map_values(|p: PageView| p.overlays),
            pictures,
            sizes: self.pages.map_values(|p: PageView| p.size_pt),
            font,
        }
    }
}

fn copy_overlays(overlays: &Vec<Overlay>) -> (r: Vec<Overlay>)
    ensures
        overlay_views(r@) == overlay_views(overlays@),
{
    let n = overlays.len();
    let mut r: Vec<Overlay> = Vec::new();
    let mut i: usize = 0;
    while i < n
        invariant
            n == overlays.len(),
            i <= n,
            overlay_views(r@) == overlay_views(overlays@).take(i as int),
        decreases n - i,
    {
        let ghost before = overlay_views(r@);
        let o = overlays[i].clone();
        r.push(o);
        assert(overlay_views(r@) =~= before.push(o@));
        i += 1;
        assert(overlay_views(r@) =~= overlay_views(overlays@).take(i as int));
    }
    assert(overlay_views(overlays@).take(n as int) =~= overlay_views(overlays@));
    r
}

impl App {
    /// Whether something is redacted on any page.
    pub fn has_redact(&self) -> (r: bool)
        ensures
            r == any_redact(self@.pages),
    {
        let n = self.pages.len();
        let mut p: usize = 0;
        while p < n
            invariant
                n == self.pages.len(),
                p <= n,
                forall|q: int, i: int|
                    0 <= q < p && 0 <= i < self@.pages[q].overlays.len() ==> !(
                    #[trigger] self@.pages[q].overlays[i] is Redact),
            decreases n - p,
        {
            let overlays = &self.pages[p].overlays;
            let m = overlays.len();
            assert(self@.pages[p as int].overlays == overlay_views(overlays@));
            let mut i: usize = 0;
            while i < m
                invariant
                    n == self.pages.len(),
                    p < n,
                    m == overlays.len(),
                    i <= m,
                    self@.pages[p as int].overlays == overlay_views(overlays@),
                    forall|k: int|
                        0 <= k < i ==> !(#[trigger] self@.pages[p as int].overlays[k] is Redact),
                decreases m - i,
            {
                assert(self@.pages[p as int].overlays[i as int] == overlays@[i as int]@);
                if overlays[i].is_redact() {
                    return true;
                }
                i += 1;
            }
            p += 1;
        }
        false
    }

    /// The overlays of all pages, and their sizes.
    pub fn pages_to_save(&self) -> (r: (Vec<Vec<Overlay>>, Vec<(i64, i64)>))
        ensures
            page_views(r.0@) == self@.pages.map_values(|p: PageView| p.overlays),
            r.1@ == self@.pages.map_values(|p: PageView| p.size_pt),
    {
        let ghost all = self@.pages.map_values(|p: PageView| p.overlays);
        let ghost all_sizes = self@.pages.map_values(|p: PageView| p.size_pt);
        let n = self.pages.len();
        let mut overlays: Vec<Vec<Overlay>> = Vec::new();
        let mut sizes: Vec<(i64, i64)> = Vec::new();
        let mut i: usize = 0;
        while i < n
            invariant
                n == self.pages.len(),
                i <= n,
                all == self@.pages.map_values(|p: PageView| p.overlays),
                all_sizes == self@.pages.map_values(|p: PageView| p.size_pt),
                page_views(overlays@) == all.take(i as int),
                sizes@ == all_sizes.take(i as int),
            decreases n - i,
        {
            let page = copy_overlays(&self.pages[i].overlays);
            let ghost before = page_views(overlays@);
            assert(self@.pages[i as int] == self.pages@[i as int]@);
            overlays.push(page);
            sizes.push(self.pages[i].size_pt);
            assert(page_views(overlays@) =~= before.push(overlay_views(page@)));
            i += 1;
            assert(page_views(overlays@) =~= all.take(i as int));
            assert(sizes@ =~= all_sizes.take(i as int));
        }
        assert(all.take(n as int) =~= all);
        assert(all_sizes.take(n as int) =~= all_sizes);
        (overlays, sizes)
    }

    /// Write the overlays of all pages into the document, and keep only the pages of
    /// the filter. Pictures are given beside the overlays that show them.
    pub fn save(
        &self,
        doc: &mut Document,
        pictures: &Vec<Vec<Option<DynamicImage>>>,
        font: &Font,
    ) -> (r: Result<(), SaveError>)
        requires
            self.wf(),
        ensures
            self@.work(picture_lists(pictures@), font.data()).saved(
                doc_view(*old(doc)),
                self@.pages_filter,
            ) == (doc_view(*final(doc)), fault_of(r)),
            r is Ok ==> self@.work(picture_lists(pictures@), font.data()).leaves_kept_pages(
                doc_view(*old(doc)),
                self@.pages_filter,
                doc_view(*final(doc)),
            ),
            r is Ok ==> has_kept_pages(
                doc_view(*old(doc)),
                self@.pages_filter,
                doc_view(*final(doc)),
            ),
    {
        let (overlays, sizes) = self.pages_to_save();
        let ghost work = self@.work(picture_lists(pictures@), font.data());
        assert(work == work_of(overlays@, pictures@, sizes@, font.data()));
        proof {
            assert forall|i: int| 0 <= i < work.overlays.len() implies overlays_bounded(
                #[trigger] work.overlays[i],
            ) by {
                assert(self@.pages[i].wf());
                let list = work.overlays[i];
                assert forall|k: int| 0 <= k < list.len() implies (#[trigger] list[k]).bounded() by {
                    assert(self@.pages[i].overlays[k].wf());
                }
            }
            assert forall|i: int| 0 <= i < work.sizes.len() implies crate::units::in_range(
                (#[trigger] work.sizes[i]).0 as int,
            ) && crate::units::in_range(work.sizes[i].1 as int) by {
                assert(self@.pages[i].wf());
            }
        }
        save(doc, &overlays, pictures, &sizes, self.pages_filter.as_str(), font)
    }

    /// The first name for the output of a file with the given stem that is not taken.
    pub fn free_output_name(&self, stem: Option<&str>, taken: &Vec<String>) -> (r: String)
        ensures
            exists|n: nat|
                r@ == output_name(base_of(text_view(stem)), any_redact(self@.pages), n)
                    && #[trigger] first_free_output(
                    text_views(taken@),
                    base_of(text_view(stem)),
                    any_redact(self@.pages),
                    n,
                ),
            !text_views(taken@).contains(r@),
    {
        free_output_name(stem, self.has_redact(), taken)
    }
}

} // verus!
