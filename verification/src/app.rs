//! The state of the program, and what can be done to the overlays of the
//! current page.

use vstd::prelude::*;

use crate::content::BASELINE_PER_MILLE;
use crate::overlay::{
    overlay_views, overlays_wf, Overlay, OverlayView, IMG_WIDTH_MAX, IMG_WIDTH_MIN, TEXT_SIZE_MAX,
    TEXT_SIZE_MIN,
};
use crate::screen::{size_wf, Point};
use crate::units::{
    clamp, clamped, in_range, limit, limited, round_div, rounded, spec_max, spec_min, COORD_LIMIT,
    TICKS_PER_PT,
};

verus! {

/// Width of a picture when it is placed, in ticks.
pub const DEFAULT_IMG_WIDTH: i64 = 1_500_000;

/// How far a duplicate lies from its original, in both directions.
pub const DUPLICATE_OFFSET: i64 = 100_000;

/// How far the wheel turns before the page changes, in ticks of the screen.
pub const WHEEL_PAGE_THRESHOLD: i64 = 600_000;

/// The size of new text to begin with.
pub const DEFAULT_TEXT_SIZE: i64 = 120_000;

/// The least extent of a rectangle that is made smaller.
pub const RECT_MIN: i64 = 40_000;

// ---------------------------------------------------------------------------
// State
// ---------------------------------------------------------------------------

/// A page of the open document.
pub struct PageData {
    /// Width and height as the page is displayed.
    pub size_pt: (i64, i64),
    pub overlays: Vec<Overlay>,
}

/// The state of the program.
pub struct App {
    /// The path of the open document.
    pub pdf_path: Option<Vec<u8>>,
    pub pages: Vec<PageData>,
    /// The index of the page that is shown.
    pub current: usize,
    /// Indices of the selected overlays of the current page, in the order in
    /// which they were selected.
    pub selected: Vec<usize>,
    /// The overlays that are being dragged, and how far the pointer is from
    /// their corner.
    pub drag_offsets: Vec<(usize, Point)>,
    /// Where a rubber band began.
    pub rubber_band: Option<Point>,
    /// The text overlay that is being edited.
    pub editing: Option<usize>,
    /// The editor already has had the focus.
    pub editing_just_focused: bool,
    /// The ends of the selection in the editor.
    pub edit_cursor_range: Option<(usize, usize)>,
    /// Size and colour of new text.
    pub text_size: i64,
    pub text_color: [u8; 3],
    /// The signatures to choose from.
    pub signatures: Vec<Vec<u8>>,
    /// The pages to be written.
    pub pages_filter: String,
    pub pages_filter_range: Option<(usize, usize)>,
    /// How far the wheel has turned since the last page.
    pub wheel_accum: i64,
    /// The message to the user.
    pub status: String,
    /// Where the menus are open.
    pub sig_menu: Option<Point>,
    pub color_menu: Option<Point>,
    /// The click that closed a colour menu must do nothing else.
    pub color_menu_consume_click: bool,
    pub color_custom: Option<Point>,
    pub help_open: bool,
    /// The next drag makes a redaction.
    pub block_mode: bool,
    /// Drags make marks.
    pub mark_mode: bool,
    pub show_redacts: bool,
}

/// The mathematical content of a page.
#[verifier::ext_equal]
pub struct PageView {
    pub size_pt: (i64, i64),
    pub overlays: Seq<OverlayView>,
}

impl View for PageData {
    type V = PageView;

    open spec fn view(&self) -> PageView {
        PageView { size_pt: self.size_pt, overlays: overlay_views(self.overlays@) }
    }
}

/// The mathematical content of the state.
#[verifier::ext_equal]
pub struct AppView {
    pub pdf_path: Option<Seq<u8>>,
    pub pages: Seq<PageView>,
    pub current: int,
    pub selected: Seq<usize>,
    pub drag_offsets: Seq<(usize, Point)>,
    pub rubber_band: Option<Point>,
    pub editing: Option<usize>,
    pub editing_just_focused: bool,
    pub edit_cursor_range: Option<(usize, usize)>,
    pub text_size: int,
    pub text_color: [u8; 3],
    pub signatures: Seq<Seq<u8>>,
    pub pages_filter: Seq<char>,
    pub pages_filter_range: Option<(usize, usize)>,
    pub wheel_accum: int,
    pub status: Seq<char>,
    pub sig_menu: Option<Point>,
    pub color_menu: Option<Point>,
    pub color_menu_consume_click: bool,
    pub color_custom: Option<Point>,
    pub help_open: bool,
    pub block_mode: bool,
    pub mark_mode: bool,
    pub show_redacts: bool,
}

/// The contents of a list of pages.
pub open spec fn pages_view(pages: Seq<PageData>) -> Seq<PageView> {
    pages.map_values(|p: PageData| p@)
}

impl View for App {
    type V = AppView;

    open spec fn view(&self) -> AppView {
        AppView {
            pdf_path: match self.pdf_path {
                Some(path) => Some(path@),
                None => None,
            },
            pages: pages_view(self.pages@),
            current: self.current as int,
            selected: self.selected@,
            drag_offsets: self.drag_offsets@,
            rubber_band: self.rubber_band,
            editing: self.editing,
            editing_just_focused: self.editing_just_focused,
            edit_cursor_range: self.edit_cursor_range,
            text_size: self.text_size as int,
            text_color: self.text_color,
            signatures: crate::names::name_views(self.signatures@),
            pages_filter: self.pages_filter@,
            pages_filter_range: self.pages_filter_range,
            wheel_accum: self.wheel_accum as int,
            status: self.status@,
            sig_menu: self.sig_menu,
            color_menu: self.color_menu,
            color_menu_consume_click: self.color_menu_consume_click,
            color_custom: self.color_custom,
            help_open: self.help_open,
            block_mode: self.block_mode,
            mark_mode: self.mark_mode,
            show_redacts: self.show_redacts,
        }
    }
}

impl PageView {
    pub open spec fn wf(self) -> bool {
        size_wf(self.size_pt) && overlays_wf(self.overlays)
    }
}

/// An optional position is in range.
pub open spec fn point_wf(p: Option<Point>) -> bool {
    match p {
        Some(p) => p.wf(),
        None => true,
    }
}

impl AppView {
    /// What every operation keeps.
    pub open spec fn wf(self) -> bool {
        &&& self.pages.len() > 0 ==> 0 <= self.current < self.pages.len()
        &&& self.pages.len() == 0 ==> self.selected.len() == 0
        &&& forall|i: int| 0 <= i < self.pages.len() ==> (#[trigger] self.pages[i]).wf()
        &&& self.selected.no_duplicates()
        &&& TEXT_SIZE_MIN <= self.text_size <= TEXT_SIZE_MAX
        &&& -WHEEL_PAGE_THRESHOLD < self.wheel_accum < WHEEL_PAGE_THRESHOLD
        &&& forall|i: int|
            0 <= i < self.drag_offsets.len() ==> -2 * COORD_LIMIT <= (
            #[trigger] self.drag_offsets[i]).1.x <= 2 * COORD_LIMIT && -2 * COORD_LIMIT
                <= self.drag_offsets[i].1.y <= 2 * COORD_LIMIT
        &&& point_wf(self.rubber_band)
        &&& point_wf(self.sig_menu)
        &&& point_wf(self.color_menu)
        &&& point_wf(self.color_custom)
    }

    /// A page is shown.
    pub open spec fn has_page(self) -> bool {
        self.pages.len() > 0
    }

    /// The overlays of the page that is shown.
    pub open spec fn overlays(self) -> Seq<OverlayView> {
        self.pages[self.current].overlays
    }

    /// The overlay with an index, if there is one.
    pub open spec fn overlay(self, i: usize) -> Option<OverlayView> {
        if self.has_page() && i < self.overlays().len() {
            Some(self.overlays()[i as int])
        } else {
            None
        }
    }

    /// The state with other overlays on the page that is shown.
    pub open spec fn with_overlays(self, overlays: Seq<OverlayView>) -> AppView {
        AppView {
            pages: self.pages.update(
                self.current,
                PageView { overlays, ..self.pages[self.current] },
            ),
            ..self
        }
    }

    /// The state with another message.
    pub open spec fn with_status(self, status: Seq<char>) -> AppView {
        AppView { status, ..self }
    }
}

impl App {
    pub open spec fn wf(&self) -> bool {
        self@.wf()
    }

    /// The overlays of the page that is shown, to be changed in place.
    pub(crate) fn overlays_mut(&mut self) -> (r: &mut Vec<Overlay>)
        requires
            old(self).wf(),
            old(self)@.has_page(),
        ensures
            overlay_views(r@) == old(self)@.overlays(),
            overlays_wf(overlay_views(r@)),
            final(self)@ == old(self)@.with_overlays(overlay_views(final(r)@)),
    {
        let cur = self.current;
        assert(pages_view(self.pages@)[cur as int] == self.pages@[cur as int]@);
        assert(self@.pages[cur as int].wf());
        let r = &mut self.pages[cur].overlays;
        assert(after_borrow(self)@.pages =~= old(self)@.with_overlays(overlay_views(final(r)@)).pages);
        r
    }
}

// ---------------------------------------------------------------------------
// Lifecycle
// ---------------------------------------------------------------------------

/// The message where the library that shows pages is missing.
pub open spec fn first_status(can_show: bool) -> Seq<char> {
    if can_show {
        ""@
    } else {
        "ERROR: pdfium library not found. Install pdfium-binaries."@
    }
}

/// The state at the start.
pub open spec fn initial(can_show: bool, signatures: Seq<Seq<u8>>) -> AppView {
    AppView {
        pdf_path: None,
        pages: Seq::empty(),
        current: 0,
        selected: Seq::empty(),
        drag_offsets: Seq::empty(),
        rubber_band: None,
        editing: None,
        editing_just_focused: false,
        edit_cursor_range: None,
        text_size: DEFAULT_TEXT_SIZE as int,
        text_color: [0, 0, 0],
        signatures,
        pages_filter: ""@,
        pages_filter_range: None,
        wheel_accum: 0,
        status: first_status(can_show),
        sig_menu: None,
        color_menu: None,
        color_menu_consume_click: false,
        color_custom: None,
        help_open: false,
        block_mode: false,
        mark_mode: false,
        show_redacts: true,
    }
}

/// Pages of the given sizes, with nothing on them.
pub open spec fn blank_pages(sizes: Seq<(i64, i64)>) -> Seq<PageView> {
    sizes.map_values(|size: (i64, i64)| PageView { size_pt: size, overlays: Seq::empty() })
}

impl AppView {
    /// The state after a document has been opened.
    pub open spec fn opened(self, path: Seq<u8>, sizes: Seq<(i64, i64)>) -> AppView {
        AppView {
            pdf_path: Some(path),
            pages: blank_pages(sizes),
            current: 0,
            selected: Seq::empty(),
            status: Seq::empty(),
            ..self
        }
    }
}

impl App {
    /// The state at the start. `can_show` says whether pages can be shown at all.
    pub fn new(can_show: bool, signatures: Vec<Vec<u8>>) -> (r: App)
        ensures
            r@ == initial(can_show, crate::names::name_views(signatures@)),
            r.wf(),
    {
        let mut status = String::new();
        let mut pages_filter = String::new();
        proof {
            reveal_strlit("");
        }
        assert(pages_filter@ =~= ""@);
        if !can_show {
            status.append("ERROR: pdfium library not found. Install pdfium-binaries.");
        }
        assert(status@ =~= first_status(can_show));
        let r = App {
            pdf_path: None,
            pages: Vec::new(),
            current: 0,
            selected: Vec::new(),
            drag_offsets: Vec::new(),
            rubber_band: None,
            editing: None,
            editing_just_focused: false,
            edit_cursor_range: None,
            text_size: DEFAULT_TEXT_SIZE,
            text_color: [0, 0, 0],
            signatures,
            pages_filter,
            pages_filter_range: None,
            wheel_accum: 0,
            status,
            sig_menu: None,
            color_menu: None,
            color_menu_consume_click: false,
            color_custom: None,
            help_open: false,
            block_mode: false,
            mark_mode: false,
            show_redacts: true,
        };
        assert(r@.pages =~= Seq::empty());
        r
    }

    /// Take over a document that has been opened, given the sizes of its pages.
    pub fn open_pdf(&mut self, path: Vec<u8>, sizes: &Vec<(i64, i64)>)
        requires
            old(self).wf(),
            forall|i: int| 0 <= i < sizes.len() ==> size_wf(#[trigger] sizes@[i]),
        ensures
            final(self)@ == old(self)@.opened(path@, sizes@),
            final(self).wf(),
    {
        let n = sizes.len();
        let mut pages: Vec<PageData> = Vec::new();
        let mut i: usize = 0;
        assert(pages_view(pages@) =~= blank_pages(sizes@.take(0)));
        while i < n
            invariant
                n == sizes.len(),
                i <= n,
                pages_view(pages@) == blank_pages(sizes@.take(i as int)),
            decreases n - i,
        {
            let overlays: Vec<Overlay> = Vec::new();
            let page = PageData { size_pt: sizes[i], overlays };
            let ghost before = pages_view(pages@);
            assert(page@.overlays =~= Seq::empty());
            pages.push(page);
            i += 1;
            assert(pages_view(pages@) =~= before.push(page@));
            assert(pages_view(pages@) =~= blank_pages(sizes@.take(i as int)));
        }
        assert(sizes@.take(n as int) =~= sizes@);
        self.pages = pages;
        self.pdf_path = Some(path);
        self.current = 0;
        self.selected = Vec::new();
        self.status = String::new();
        assert(self@.status =~= Seq::empty());
    }
}

// ---------------------------------------------------------------------------
// Placing
// ---------------------------------------------------------------------------

/// A text whose baseline begins at a position.
pub open spec fn text_at(text: Seq<char>, x: int, y: int, size: int, color: [u8; 3]) -> OverlayView {
    OverlayView::Text {
        text,
        x,
        y: limited(y - rounded(size * BASELINE_PER_MILLE, 1000)),
        size_pt: size,
        color,
    }
}

/// The height of a picture that is placed with the default width.
pub open spec fn placed_height(iw: u32, ih: u32) -> int {
    rounded(DEFAULT_IMG_WIDTH * ih, iw as int)
}

/// A picture around a position.
pub open spec fn image_around(path: Seq<u8>, iw: u32, ih: u32, x: int, y: int) -> OverlayView {
    let h = placed_height(iw, ih);
    OverlayView::Image {
        path,
        x: limited(x - DEFAULT_IMG_WIDTH / 2),
        y: limited(rounded(2 * y - h, 2)),
        w: DEFAULT_IMG_WIDTH as int,
        h,
    }
}

/// A picture in the middle of a page.
pub open spec fn image_centred(path: Seq<u8>, iw: u32, ih: u32, size: (i64, i64)) -> OverlayView {
    let h = placed_height(iw, ih);
    OverlayView::Image {
        path,
        x: rounded(size.0 - DEFAULT_IMG_WIDTH, 2),
        y: rounded(size.1 - h, 2),
        w: DEFAULT_IMG_WIDTH as int,
        h,
    }
}

impl AppView {
    /// The state with one more overlay, which is selected.
    pub open spec fn placed(self, o: OverlayView) -> AppView {
        AppView {
            selected: seq![self.overlays().len() as usize],
            ..self.with_overlays(self.overlays().push(o))
        }
    }
}

impl App {
    fn place(&mut self, o: Overlay) -> (r: usize)
        requires
            old(self).wf(),
            old(self)@.has_page(),
            o@.wf(),
        ensures
            final(self)@ == old(self)@.placed(o@),
            final(self).wf(),
            r == old(self)@.overlays().len(),
    {
        let ghost before = self@.overlays();
        let overlays = self.overlays_mut();
        let idx = overlays.len();
        overlays.push(o);
        assert(overlay_views(overlays@) =~= before.push(o@));
        let mut selected: Vec<usize> = Vec::new();
        selected.push(idx);
        self.selected = selected;
        assert(self.selected@ =~= seq![idx]);
        assert(self@.pages =~= old(self)@.placed(o@).pages);
        idx
    }

    /// Place a text so that its baseline begins at a position of the page, and
    /// select it. The result is its index.
    pub fn add_text_at(&mut self, text: String, pdf_x: i64, pdf_y: i64) -> (r: usize)
        requires
            old(self).wf(),
            old(self)@.has_page(),
            in_range(pdf_x as int),
            in_range(pdf_y as int),
        ensures
            final(self)@ == old(self)@.placed(
                text_at(
                    text@,
                    pdf_x as int,
                    pdf_y as int,
                    old(self)@.text_size,
                    old(self)@.text_color,
                ),
            ),
            final(self).wf(),
            r == old(self)@.overlays().len(),
    {
        let size = self.text_size;
        let up = round_div(size as i128 * BASELINE_PER_MILLE as i128, 1000);
        let y = limit(pdf_y as i128 - up);
        self.place(Overlay::Text { text, x: pdf_x, y, size_pt: size, color: self.text_color })
    }

    /// Place a picture of the given number of pixels around a position of the
    /// page, and select it.
    pub fn add_signature_at(&mut self, path: Vec<u8>, iw: u32, ih: u32, pdf_x: i64, pdf_y: i64)
        requires
            old(self).wf(),
            old(self)@.has_page(),
            iw > 0,
            in_range(pdf_x as int),
            in_range(pdf_y as int),
        ensures
            final(self)@ == old(self)@.placed(
                image_around(path@, iw, ih, pdf_x as int, pdf_y as int),
            ),
            final(self).wf(),
    {
        let w = DEFAULT_IMG_WIDTH;
        let h = place_height(iw, ih);
        let x = limit(pdf_x as i128 - (w / 2) as i128);
        let y = limit(round_div(2 * pdf_y as i128 - h as i128, 2));
        self.place(Overlay::Image { path, x, y, w, h });
    }

    /// Place a picture of the given number of pixels in the middle of the page,
    /// and select it.
    pub fn add_image_centered(&mut self, path: Vec<u8>, iw: u32, ih: u32)
        requires
            old(self).wf(),
            old(self)@.has_page(),
            iw > 0,
        ensures
            final(self)@ == old(self)@.placed(
                image_centred(path@, iw, ih, old(self)@.pages[old(self)@.current].size_pt),
            ),
            final(self).wf(),
    {
        let size = self.pages[self.current].size_pt;
        proof {
            assert(self@.pages[self.current as int].wf());
        }
        let w = DEFAULT_IMG_WIDTH;
        let h = place_height(iw, ih);
        proof {
            crate::units::rounded_is_nearest(size.0 - w, 2);
            crate::units::rounded_is_nearest(size.1 - h, 2);
        }
        let x = round_div(size.0 as i128 - w as i128, 2) as i64;
        let y = round_div(size.1 as i128 - h as i128, 2) as i64;
        self.place(Overlay::Image { path, x, y, w, h });
    }
}

// ---------------------------------------------------------------------------
// Deleting and duplicating
// ---------------------------------------------------------------------------

/// The overlays that are not selected, in their order.
pub open spec fn unselected(overlays: Seq<OverlayView>, selected: Seq<usize>) -> Seq<OverlayView>
    decreases overlays.len(),
{
    if overlays.len() == 0 {
        Seq::empty()
    } else {
        let front = unselected(overlays.drop_last(), selected);
        if selected.contains((overlays.len() - 1) as usize) {
            front
        } else {
            front.push(overlays.last())
        }
    }
}

/// An overlay beside its original.
pub open spec fn duplicate_of(o: OverlayView) -> OverlayView {
    o.brought_to(o.left() + DUPLICATE_OFFSET, o.top() + DUPLICATE_OFFSET)
}

/// The overlays with duplicates of the first `n` selected ones behind them. An
/// index without an overlay is passed over.
pub open spec fn with_duplicates(
    overlays: Seq<OverlayView>,
    selected: Seq<usize>,
    n: int,
) -> Seq<OverlayView>
    decreases n,
{
    if n <= 0 {
        overlays
    } else {
        let front = with_duplicates(overlays, selected, n - 1);
        let i = selected[n - 1] as int;
        if i < front.len() {
            front.push(duplicate_of(front[i]))
        } else {
            front
        }
    }
}

/// The indices from `lo` to before `hi`.
pub open spec fn indices(lo: int, hi: int) -> Seq<usize> {
    Seq::new(
        if lo <= hi {
            (hi - lo) as nat
        } else {
            0
        },
        |k: int| (lo + k) as usize,
    )
}

impl AppView {
    /// The state without the selected overlays.
    pub open spec fn deleted(self) -> AppView {
        if self.selected.len() == 0 {
            self
        } else {
            AppView {
                selected: Seq::empty(),
                ..self.with_overlays(unselected(self.overlays(), self.selected))
            }
        }
    }

    /// The state with the selected overlays twice, the new ones selected.
    pub open spec fn duplicated(self) -> AppView {
        if self.selected.len() == 0 {
            self
        } else {
            let overlays = with_duplicates(
                self.overlays(),
                self.selected,
                self.selected.len() as int,
            );
            AppView {
                selected: indices(self.overlays().len() as int, overlays.len() as int),
                ..self.with_overlays(overlays)
            }
        }
    }
}

/// Whether an index is selected.
pub(crate) fn is_selected(selected: &Vec<usize>, i: usize) -> (r: bool)
    ensures
        r == selected@.contains(i),
{
    let n = selected.len();
    let mut k: usize = 0;
    while k < n
        invariant
            n == selected.len(),
            k <= n,
            forall|j: int| 0 <= j < k ==> selected@[j] != i,
        decreases n - k,
    {
        if selected[k] == i {
            return true;
        }
        k += 1;
    }
    false
}

proof fn lemma_wf_of_part(overlays: Seq<OverlayView>, selected: Seq<usize>)
    requires
        overlays_wf(overlays),
    ensures
        overlays_wf(unselected(overlays, selected)),
    decreases overlays.len(),
{
    if overlays.len() > 0 {
        let front = overlays.drop_last();
        assert forall|i: int| 0 <= i < front.len() implies (#[trigger] front[i]).wf() by {
            assert(overlays[i].wf());
        }
        lemma_wf_of_part(front, selected);
        assert(overlays[overlays.len() - 1].wf());
    }
}

fn remove_selected(overlays: &mut Vec<Overlay>, selected: &Vec<usize>)
    ensures
        overlay_views(final(overlays)@) == unselected(overlay_views(old(overlays)@), selected@),
{
    let ghost start = overlay_views(overlays@);
    let ghost mut tail = Seq::<OverlayView>::empty();
    let mut i = overlays.len();
    assert(start.take(i as int) =~= start);
    assert(unselected(start, selected@) =~= unselected(start, selected@) + tail);
    assert(overlay_views(overlays@) =~= start.take(i as int) + tail);
    while i > 0
        invariant
            i <= start.len(),
            overlay_views(overlays@) == start.take(i as int) + tail,
            unselected(start, selected@) == unselected(start.take(i as int), selected@) + tail,
        decreases i,
    {
        i -= 1;
        let ghost front = start.take(i as int);
        assert(start.take(i + 1).drop_last() =~= front);
        assert(start.take(i + 1).last() == start[i as int]);
        assert(overlay_views(overlays@).len() == overlays@.len());
        if is_selected(selected, i) {
            let ghost before = overlays@;
            overlays.remove(i);
            assert(overlay_views(overlays@) =~= overlay_views(before).remove(i as int));
            assert(overlay_views(overlays@) =~= front + tail);
        } else {
            proof {
                let one = seq![start[i as int]];
                assert(unselected(start.take(i + 1), selected@) + tail =~= unselected(
                    front,
                    selected@,
                ) + (one + tail));
                assert(start.take(i + 1) + tail =~= front + (one + tail));
                tail = one + tail;
            }
        }
    }
    assert(overlay_views(overlays@) =~= unselected(start, selected@));
}

fn add_duplicates(overlays: &mut Vec<Overlay>, selected: &Vec<usize>)
    requires
        overlays_wf(overlay_views(old(overlays)@)),
    ensures
        overlay_views(final(overlays)@) == with_duplicates(
            overlay_views(old(overlays)@),
            selected@,
            selected@.len() as int,
        ),
        overlays_wf(overlay_views(final(overlays)@)),
{
    let ghost start = overlay_views(overlays@);
    let n = selected.len();
    let mut k: usize = 0;
    while k < n
        invariant
            n == selected.len(),
            k <= n,
            overlays_wf(overlay_views(overlays@)),
            overlay_views(overlays@) == with_duplicates(start, selected@, k as int),
        decreases n - k,
    {
        let i = selected[k];
        if i < overlays.len() {
            let ghost before = overlay_views(overlays@);
            assert(before[i as int] == overlays@[i as int]@);
            assert(before[i as int].wf());
            let mut copy = overlays[i].clone();
            let (x, y) = copy.position();
            copy.bring_to(
                x as i128 + DUPLICATE_OFFSET as i128,
                y as i128 + DUPLICATE_OFFSET as i128,
            );
            assert(copy@ == duplicate_of(before[i as int]));
            overlays.push(copy);
            assert(overlay_views(overlays@) =~= before.push(copy@));
        }
        k += 1;
    }
}

impl App {
    /// Delete the selected overlays.
    pub fn delete_selected(&mut self)
        requires
            old(self).wf(),
        ensures
            final(self)@ == old(self)@.deleted(),
            final(self).wf(),
    {
        if self.selected.len() == 0 {
            return;
        }
        let mut selected: Vec<usize> = Vec::new();
        std::mem::swap(&mut self.selected, &mut selected);
        let ghost before = self@.overlays();
        proof {
            assert(self@.pages[self.current as int].wf());
            lemma_wf_of_part(before, selected@);
        }
        remove_selected(self.overlays_mut(), &selected);
        assert(self@.pages =~= old(self)@.deleted().pages);
    }

    /// Duplicate the selected overlays, each a little below and beside its
    /// original, and select the duplicates.
    pub fn duplicate_selected(&mut self)
        requires
            old(self).wf(),
        ensures
            final(self)@ == old(self)@.duplicated(),
            final(self).wf(),
    {
        if self.selected.len() == 0 {
            return;
        }
        let mut selected: Vec<usize> = Vec::new();
        std::mem::swap(&mut self.selected, &mut selected);
        proof {
            assert(self@.pages[self.current as int].wf());
        }
        let overlays = self.overlays_mut();
        let lo = overlays.len();
        add_duplicates(overlays, &selected);
        let hi = overlays.len();
        proof {
            lemma_duplicates_follow(
                old(self)@.overlays(),
                selected@,
                selected@.len() as int,
            );
        }
        let mut new: Vec<usize> = Vec::new();
        let mut i = lo;
        while i < hi
            invariant
                lo <= i <= hi,
                new@ == indices(lo as int, i as int),
            decreases hi - i,
        {
            new.push(i);
            i += 1;
            assert(new@ =~= indices(lo as int, i as int));
        }
        self.selected = new;
        assert(self@.pages =~= old(self)@.duplicated().pages);
    }
}

proof fn lemma_duplicates_follow(overlays: Seq<OverlayView>, selected: Seq<usize>, n: int)
    requires
        0 <= n <= selected.len(),
    ensures
        with_duplicates(overlays, selected, n).len() >= overlays.len(),
        with_duplicates(overlays, selected, n).take(overlays.len() as int) == overlays,
    decreases n,
{
    if n > 0 {
        lemma_duplicates_follow(overlays, selected, n - 1);
        let front = with_duplicates(overlays, selected, n - 1);
        let after = with_duplicates(overlays, selected, n);
        assert(after.take(overlays.len() as int) =~= front.take(overlays.len() as int));
    } else {
        assert(overlays.take(overlays.len() as int) =~= overlays);
    }
}

proof fn lemma_unselected_of_tail(overlays: Seq<OverlayView>, lo: int, hi: int)
    requires
        0 <= lo <= overlays.len() <= hi,
        hi <= usize::MAX,
    ensures
        unselected(overlays, indices(lo, hi)) == overlays.take(lo),
    decreases overlays.len(),
{
    let sel = indices(lo, hi);
    if overlays.len() == 0 {
        assert(overlays.take(lo) =~= Seq::empty());
    } else {
        let last = overlays.len() - 1;
        if lo <= last {
            assert(sel[last - lo] == last as usize);
            lemma_unselected_of_tail(overlays.drop_last(), lo, hi);
            assert(overlays.drop_last().take(lo) =~= overlays.take(lo));
        } else {
            assert(lo == overlays.len());
            lemma_unselected_all_kept(overlays, sel);
            assert(overlays.take(lo) =~= overlays);
        }
    }
}

proof fn lemma_unselected_all_kept(overlays: Seq<OverlayView>, selected: Seq<usize>)
    requires
        overlays.len() <= usize::MAX,
        forall|i: int| 0 <= i < selected.len() ==> #[trigger] selected[i] >= overlays.len(),
    ensures
        unselected(overlays, selected) == overlays,
    decreases overlays.len(),
{
    if overlays.len() > 0 {
        lemma_unselected_all_kept(overlays.drop_last(), selected);
        assert(overlays.drop_last().push(overlays.last()) =~= overlays);
        assert(!selected.contains((overlays.len() - 1) as usize)) by {
            if selected.contains((overlays.len() - 1) as usize) {
                let i = choose|i: int|
                    0 <= i < selected.len() && selected[i] == (overlays.len() - 1) as usize;
                assert(selected[i] >= overlays.len());
            }
        }
    }
}

/// Deleting undoes duplicating: the pages are as before, and nothing is
/// selected.
pub proof fn delete_undoes_duplicate(app: AppView)
    requires
        app.wf(),
        app.duplicated().selected.len() > 0,
        app.duplicated().overlays().len() <= usize::MAX,
        app.selected.len() > 0,
    ensures
        app.duplicated().deleted() == (AppView { selected: Seq::empty(), ..app }),
{
    let before = app.overlays();
    let after = app.duplicated().overlays();
    lemma_duplicates_follow(before, app.selected, app.selected.len() as int);
    lemma_unselected_of_tail(after, before.len() as int, after.len() as int);
    assert(app.duplicated().deleted().pages =~= app.pages);
}

/// Deleting removes the selected overlays and no others: an overlay stays, in
/// its place among the others, exactly if it is not selected.
pub proof fn delete_keeps_unselected(overlays: Seq<OverlayView>, selected: Seq<usize>, i: int)
    requires
        0 <= i < overlays.len() <= usize::MAX,
    ensures
        unselected(overlays, selected).len() == count_unselected(selected, overlays.len() as int),
        !selected.contains(i as usize) ==> unselected(overlays, selected)[count_unselected(
            selected,
            i,
        )] == overlays[i],
    decreases overlays.len(),
{
    let front = overlays.drop_last();
    if i < front.len() {
        delete_keeps_unselected(front, selected, i);
        lemma_count_is_natural(selected, i);
        if !selected.contains(i as usize) {
            lemma_count_grows(selected, i, front.len() as int);
            assert(unselected(overlays, selected)[count_unselected(selected, i)] == unselected(
                front,
                selected,
            )[count_unselected(selected, i)]);
        }
    } else if front.len() > 0 {
        delete_keeps_unselected(front, selected, front.len() - 1);
    } else {
        assert(unselected(front, selected).len() == 0);
        assert(count_unselected(selected, 0) == 0);
    }
}

/// How many of the first `n` indices are not selected.
pub open spec fn count_unselected(selected: Seq<usize>, n: int) -> int
    decreases n,
{
    if n <= 0 {
        0
    } else {
        count_unselected(selected, n - 1) + if selected.contains((n - 1) as usize) {
            0int
        } else {
            1int
        }
    }
}

proof fn lemma_count_is_natural(selected: Seq<usize>, n: int)
    ensures
        0 <= count_unselected(selected, n),
    decreases n,
{
    if n > 0 {
        lemma_count_is_natural(selected, n - 1);
    }
}

proof fn lemma_count_grows(selected: Seq<usize>, i: int, n: int)
    requires
        0 <= i < n,
        !selected.contains(i as usize),
    ensures
        count_unselected(selected, i) < count_unselected(selected, n),
    decreases n - i,
{
    if i + 1 < n {
        lemma_count_grows(selected, i, n - 1);
    }
}

// ---------------------------------------------------------------------------
// Resizing
// ---------------------------------------------------------------------------

/// A length made larger or smaller by a sixteenth of the smaller one.
pub open spec fn rescaled(v: int, grow: bool) -> int {
    if grow {
        rounded(v * 17, 16)
    } else {
        rounded(v * 16, 17)
    }
}

/// An extent of a rectangle made larger or smaller. It stops at a least extent; one
/// that is less already is made no smaller, and never larger by shrinking. It grows
/// from `from` on, as far as positions go.
pub open spec fn rescaled_extent(from: int, v: int, grow: bool) -> int {
    let stopped = spec_max(rescaled(v, grow), RECT_MIN as int);
    if grow {
        limited(from + stopped) - from
    } else {
        spec_min(v, stopped)
    }
}

/// A size of text after a number of steps of a point.
pub open spec fn stepped_size(size: int, dir: int) -> int {
    clamped(size + dir * TICKS_PER_PT, TEXT_SIZE_MIN as int, TEXT_SIZE_MAX as int)
}

/// An overlay made larger or smaller. Text changes by steps of a point; anything
/// else by a constant factor, from its top left corner. A picture keeps its shape.
pub open spec fn resized(o: OverlayView, dir: int) -> OverlayView {
    let grow = dir > 0;
    match o {
        OverlayView::Text { text, x, y, size_pt, color } => OverlayView::Text {
            text,
            x,
            y,
            size_pt: stepped_size(size_pt, dir),
            color,
        },
        OverlayView::Image { path, x, y, w, h } => {
            let wider = clamped(rescaled(w, grow), IMG_WIDTH_MIN as int, IMG_WIDTH_MAX as int);
            OverlayView::Image { path, x, y, w: wider, h: rounded(h * wider, w) }
        },
        OverlayView::Redact { x, y, w, h } => OverlayView::Redact {
            x,
            y,
            w: rescaled_extent(x, w, grow),
            h: rescaled_extent(y, h, grow),
        },
        OverlayView::PendingMark { x, y, w, h } => OverlayView::PendingMark {
            x,
            y,
            w: rescaled_extent(x, w, grow),
            h: rescaled_extent(y, h, grow),
        },
    }
}

/// The overlays with the selected ones resized.
pub open spec fn with_resized(
    overlays: Seq<OverlayView>,
    selected: Seq<usize>,
    dir: int,
) -> Seq<OverlayView> {
    Seq::new(
        overlays.len(),
        |i: int|
            if selected.contains(i as usize) {
                resized(overlays[i], dir)
            } else {
                overlays[i]
            },
    )
}

/// At least one of the selected overlays is there.
pub open spec fn any_present(selected: Seq<usize>, n: int) -> bool {
    exists|k: int| 0 <= k < selected.len() && #[trigger] selected[k] < n
}

impl AppView {
    /// The state with the selected overlays resized, or, where none is there, with
    /// another size for new text.
    pub open spec fn size_adjusted(self, dir: int) -> AppView {
        if self.has_page() && any_present(self.selected, self.overlays().len() as int) {
            self.with_overlays(with_resized(self.overlays(), self.selected, dir))
        } else {
            AppView { text_size: stepped_size(self.text_size, dir), ..self }
        }
    }
}

fn rescale(v: i64, grow: bool) -> (r: i128)
    ensures
        r == rescaled(v as int, grow),
        -0x1_0000_0000_0000_0000_0000 <= r <= 0x1_0000_0000_0000_0000_0000,
{
    if grow {
        round_div(v as i128 * 17, 16)
    } else {
        round_div(v as i128 * 16, 17)
    }
}

fn rescale_extent(from: i64, v: i64, grow: bool) -> (r: i64)
    requires
        in_range(from as int),
        in_range(from + v),
    ensures
        r == rescaled_extent(from as int, v as int, grow),
        in_range(from + r),
{
    let free = rescale(v, grow);
    let stopped = if free >= RECT_MIN as i128 {
        free
    } else {
        RECT_MIN as i128
    };
    if grow {
        limit(from as i128 + stopped) - from
    } else if v as i128 <= stopped {
        v
    } else {
        stopped as i64
    }
}

fn step_size(size: i64, dir: i32) -> (r: i64)
    requires
        in_range(size as int),
    ensures
        r == stepped_size(size as int, dir as int),
        TEXT_SIZE_MIN <= r <= TEXT_SIZE_MAX,
{
    clamp(size as i128 + dir as i128 * TICKS_PER_PT as i128, TEXT_SIZE_MIN, TEXT_SIZE_MAX)
}

fn resize(o: &mut Overlay, dir: i32)
    requires
        old(o)@.wf(),
    ensures
        final(o)@ == resized(old(o)@, dir as int),
        final(o)@.wf(),
{
    let grow = dir > 0;
    match o {
        Overlay::Text { text: _, x: _, y: _, size_pt, color: _ } => {
            *size_pt = step_size(*size_pt, dir);
        },
        Overlay::Image { path: _, x: _, y: _, w, h } => {
            let wider = clamp(rescale(*w, grow), IMG_WIDTH_MIN, IMG_WIDTH_MAX);
            proof {
                lemma_proportion_kept(*w as int, *h as int, wider as int);
            }
            *h = round_div(*h as i128 * wider as i128, *w as i128) as i64;
            *w = wider;
        },
        Overlay::Redact { x, y, w, h } => {
            *w = rescale_extent(*x, *w, grow);
            *h = rescale_extent(*y, *h, grow);
        },
        Overlay::PendingMark { x, y, w, h } => {
            *w = rescale_extent(*x, *w, grow);
            *h = rescale_extent(*y, *h, grow);
        },
    }
}

proof fn lemma_proportion_kept(w: int, h: int, wider: int)
    requires
        IMG_WIDTH_MIN <= w <= IMG_WIDTH_MAX,
        IMG_WIDTH_MIN <= wider <= IMG_WIDTH_MAX,
        0 <= h <= u32::MAX * w,
    ensures
        0 <= h * wider <= u32::MAX * IMG_WIDTH_MAX * IMG_WIDTH_MAX,
        0 <= rounded(h * wider, w) <= u32::MAX * wider,
{
    assert(0 <= h * wider <= u32::MAX * IMG_WIDTH_MAX * IMG_WIDTH_MAX) by (nonlinear_arith)
        requires
            0 <= h <= u32::MAX * IMG_WIDTH_MAX,
            0 <= wider <= IMG_WIDTH_MAX,
    ;
    assert(h * wider <= u32::MAX * wider * w) by (nonlinear_arith)
        requires
            h <= u32::MAX * w,
            wider >= 0,
    ;
    lemma_rounded_at_most(h * wider, w, u32::MAX * wider);
}

/// A quotient that is at most a whole number is rounded to at most that number.
proof fn lemma_rounded_at_most(num: int, den: int, most: int)
    requires
        den > 0,
        0 <= num <= most * den,
    ensures
        0 <= rounded(num, den) <= most,
{
    crate::units::rounded_is_nearest(num, den);
    let r = rounded(num, den);
    assert(r >= 0) by (nonlinear_arith)
        requires
            r == (2 * num + den) / (2 * den),
            num >= 0,
            den > 0,
    ;
    assert(r <= most) by (nonlinear_arith)
        requires
            2 * (r * den - num) <= den,
            num <= most * den,
            den > 0,
    ;
}

/// The height of a picture that is placed with the default width.
fn place_height(iw: u32, ih: u32) -> (r: i64)
    requires
        iw > 0,
    ensures
        r == placed_height(iw, ih),
        0 <= r <= u32::MAX * DEFAULT_IMG_WIDTH,
{
    proof {
        assert(DEFAULT_IMG_WIDTH * ih <= (u32::MAX * DEFAULT_IMG_WIDTH) * iw) by (nonlinear_arith)
            requires
                ih <= u32::MAX,
                iw >= 1,
        ;
        lemma_rounded_at_most(
            DEFAULT_IMG_WIDTH * ih,
            iw as int,
            u32::MAX * DEFAULT_IMG_WIDTH,
        );
    }
    round_div(DEFAULT_IMG_WIDTH as i128 * ih as i128, iw as i128) as i64
}

fn resize_selected(overlays: &mut Vec<Overlay>, selected: &Vec<usize>, dir: i32) -> (applied: bool)
    requires
        overlays_wf(overlay_views(old(overlays)@)),
    ensures
        overlay_views(final(overlays)@) == with_resized(
            overlay_views(old(overlays)@),
            selected@,
            dir as int,
        ),
        overlays_wf(overlay_views(final(overlays)@)),
        applied == any_present(selected@, old(overlays)@.len() as int),
{
    let ghost start = overlay_views(overlays@);
    let n = overlays.len();
    let mut applied = false;
    let mut i: usize = 0;
    while i < n
        invariant
            n == overlays.len(),
            n == start.len(),
            i <= n,
            overlays_wf(start),
            overlays_wf(overlay_views(overlays@)),
            forall|k: int|
                0 <= k < i ==> (#[trigger] overlays@[k])@ == with_resized(
                    start,
                    selected@,
                    dir as int,
                )[k],
            forall|k: int| i <= k < n ==> (#[trigger] overlays@[k])@ == start[k],
            applied == any_present(selected@, i as int),
        decreases n - i,
    {
        let ghost before = overlay_views(overlays@);
        assert(start[i as int].wf());
        assert(overlays@[i as int]@ == start[i as int]);
        if is_selected(selected, i) {
            resize(&mut overlays[i], dir);
            assert(overlays@[i as int]@.wf());
            applied = true;
            proof {
                let k = choose|k: int| 0 <= k < selected@.len() && selected@[k] == i;
                assert(selected@[k] < i + 1);
            }
        }
        i += 1;
        proof {
            assert forall|k: int| 0 <= k < n implies (#[trigger] overlay_views(overlays@)[k]).wf() by {
                assert(overlay_views(overlays@)[k] == overlays@[k]@);
                assert(before[k].wf());
            }
            if any_present(selected@, i as int) && !any_present(selected@, i - 1) {
                let k = choose|k: int| 0 <= k < selected@.len() && #[trigger] selected@[k] < i;
                assert(!(selected@[k] < i - 1));
                assert(selected@.contains((i - 1) as usize));
            }
            if any_present(selected@, i - 1) {
                let k = choose|k: int| 0 <= k < selected@.len() && #[trigger] selected@[k] < i - 1;
                assert(selected@[k] < i);
            }
        }
    }
    assert(overlay_views(overlays@) =~= with_resized(start, selected@, dir as int));
    applied
}

impl App {
    /// Make the selected overlays larger, where `dir` is positive, or smaller.
    /// Where none is selected, the size of new text changes instead.
    pub fn adjust_size(&mut self, dir: i32)
        requires
            old(self).wf(),
        ensures
            final(self)@ == old(self)@.size_adjusted(dir as int),
            final(self).wf(),
    {
        let mut applied = false;
        if self.pages.len() > 0 {
            let mut selected: Vec<usize> = Vec::new();
            std::mem::swap(&mut self.selected, &mut selected);
            proof {
                assert(self@.pages[self.current as int].wf());
            }
            let overlays = self.overlays_mut();
            let n = overlays.len();
            assert(n == old(self)@.overlays().len());
            applied = resize_selected(overlays, &selected, dir);
            std::mem::swap(&mut self.selected, &mut selected);
            if !applied {
                proof {
                    lemma_nothing_resized(
                        old(self)@.overlays(),
                        old(self)@.selected,
                        dir as int,
                    );
                    assert(self@.pages =~= old(self)@.pages);
                }
            }
        }
        if !applied {
            self.text_size = step_size(self.text_size, dir);
        }
        assert(self@.pages =~= old(self)@.size_adjusted(dir as int).pages);
    }
}

proof fn lemma_nothing_resized(overlays: Seq<OverlayView>, selected: Seq<usize>, dir: int)
    requires
        overlays.len() <= usize::MAX,
        !any_present(selected, overlays.len() as int),
    ensures
        with_resized(overlays, selected, dir) == overlays,
{
    assert forall|i: int| 0 <= i < overlays.len() implies #[trigger] with_resized(
        overlays,
        selected,
        dir,
    )[i] == overlays[i] by {
        if selected.contains(i as usize) {
            let k = choose|k: int| 0 <= k < selected.len() && selected[k] == i as usize;
            assert(selected[k] < overlays.len());
        }
    }
    assert(with_resized(overlays, selected, dir) =~= overlays);
}

/// The extents of an overlay: of a text its size, in both directions.
pub open spec fn extents(o: OverlayView) -> (int, int) {
    match o {
        OverlayView::Text { size_pt, .. } => (size_pt, size_pt),
        OverlayView::Image { w, h, .. } => (w, h),
        OverlayView::Redact { w, h, .. } => (w, h),
        OverlayView::PendingMark { w, h, .. } => (w, h),
    }
}

/// A picture keeps its proportion when it is resized, as closely as whole ticks tell it.
pub proof fn resizing_keeps_proportion(o: OverlayView, dir: int)
    requires
        o.wf(),
        o is Image,
    ensures
        ({
            let (w, h) = extents(o);
            let (new_w, new_h) = extents(resized(o, dir));
            -w <= 2 * (new_h * w - h * new_w) <= w
        }),
{
    let (w, h) = extents(o);
    let wider = clamped(rescaled(w, dir > 0), IMG_WIDTH_MIN as int, IMG_WIDTH_MAX as int);
    crate::units::rounded_is_nearest(h * wider, w);
}

/// A step down makes no overlay larger, and a step up makes none smaller. Neither
/// moves it.
pub proof fn resizing_goes_one_way(o: OverlayView, dir: int)
    requires
        o.wf(),
        extents(o).0 >= 0,
        extents(o).1 >= 0,
    ensures
        dir < 0 ==> extents(resized(o, dir)).0 <= extents(o).0 && extents(resized(o, dir)).1
            <= extents(o).1,
        dir > 0 ==> extents(resized(o, dir)).0 >= extents(o).0 && extents(resized(o, dir)).1
            >= extents(o).1,
        resized(o, dir).left() == o.left(),
        resized(o, dir).top() == o.top(),
{
    match o {
        OverlayView::Text { .. } => {
            assert(dir < 0 ==> dir * TICKS_PER_PT <= 0) by (nonlinear_arith);
            assert(dir > 0 ==> dir * TICKS_PER_PT >= 0) by (nonlinear_arith);
        },
        OverlayView::Image { path, x, y, w, h } => {
            lemma_rescaled(w);
            let wider = clamped(
                rescaled(w, dir > 0),
                IMG_WIDTH_MIN as int,
                IMG_WIDTH_MAX as int,
            );
            crate::units::rounded_is_nearest(h * wider, w);
            let r = rounded(h * wider, w);
            if dir < 0 {
                assert(h * wider <= h * w) by (nonlinear_arith)
                    requires
                        wider <= w,
                        h >= 0,
                ;
                assert(r <= h) by (nonlinear_arith)
                    requires
                        2 * (r * w - h * wider) <= w,
                        h * wider <= h * w,
                        w > 0,
                ;
            }
            if dir > 0 {
                assert(h * wider >= h * w) by (nonlinear_arith)
                    requires
                        wider >= w,
                        h >= 0,
                ;
                assert(r >= h) by (nonlinear_arith)
                    requires
                        2 * (r * w - h * wider) >= -w,
                        h * wider >= h * w,
                        w > 0,
                ;
            }
        },
        OverlayView::Redact { w, h, .. } => {
            lemma_rescaled(w);
            lemma_rescaled(h);
        },
        OverlayView::PendingMark { w, h, .. } => {
            lemma_rescaled(w);
            lemma_rescaled(h);
        },
    }
}

proof fn lemma_rescaled(v: int)
    requires
        v >= 0,
    ensures
        rescaled(v, true) >= v,
        rescaled(v, false) <= v,
{
    crate::units::rounded_is_nearest(v * 17, 16);
    crate::units::rounded_is_nearest(v * 16, 17);
}

/// A text that is made larger and then smaller, or the other way round, by the
/// same number of steps has its size back, unless a limit was met.
pub proof fn text_size_steps_back(size: int, dir: int)
    requires
        TEXT_SIZE_MIN <= size + dir * TICKS_PER_PT <= TEXT_SIZE_MAX,
        TEXT_SIZE_MIN <= size <= TEXT_SIZE_MAX,
    ensures
        stepped_size(stepped_size(size, dir), -dir) == size,
{
    assert((-dir) * TICKS_PER_PT == -(dir * TICKS_PER_PT)) by (nonlinear_arith);
}

// ---------------------------------------------------------------------------
// Colour
// ---------------------------------------------------------------------------

/// A text in another colour; anything else as it is.
pub open spec fn recolored(o: OverlayView, color: [u8; 3]) -> OverlayView {
    match o {
        OverlayView::Text { text, x, y, size_pt, .. } => OverlayView::Text {
            text,
            x,
            y,
            size_pt,
            color,
        },
        _ => o,
    }
}

/// The overlays with the selected texts in another colour.
pub open spec fn with_recolored(
    overlays: Seq<OverlayView>,
    selected: Seq<usize>,
    color: [u8; 3],
) -> Seq<OverlayView> {
    Seq::new(
        overlays.len(),
        |i: int|
            if selected.contains(i as usize) {
                recolored(overlays[i], color)
            } else {
                overlays[i]
            },
    )
}

/// The colour of the first selected text.
pub open spec fn first_color(overlays: Seq<OverlayView>, selected: Seq<usize>) -> Option<[u8; 3]>
    decreases selected.len(),
{
    if selected.len() == 0 {
        None
    } else {
        match text_color_at(overlays, selected[0]) {
            Some(color) => Some(color),
            None => first_color(overlays, selected.drop_first()),
        }
    }
}

/// The first of the selected overlays that is a text.
pub open spec fn first_text(overlays: Seq<OverlayView>, selected: Seq<usize>) -> Option<usize>
    decreases selected.len(),
{
    if selected.len() == 0 {
        None
    } else if text_color_at(overlays, selected[0]) is Some {
        Some(selected[0])
    } else {
        first_text(overlays, selected.drop_first())
    }
}

/// The first selected text is the selected overlay with the least place in the
/// selection that is a text; there is none only where no selected overlay is a text.
pub proof fn first_text_is_first(overlays: Seq<OverlayView>, selected: Seq<usize>)
    ensures
        match first_text(overlays, selected) {
            Some(i) => exists|k: int|
                0 <= k < selected.len() && #[trigger] selected[k] == i && text_color_at(
                    overlays,
                    i,
                ) is Some && forall|j: int|
                    0 <= j < k ==> text_color_at(overlays, #[trigger] selected[j]) is None,
            None => forall|j: int|
                0 <= j < selected.len() ==> text_color_at(overlays, #[trigger] selected[j]) is None,
        },
    decreases selected.len(),
{
    if selected.len() > 0 {
        let rest = selected.drop_first();
        first_text_is_first(overlays, rest);
        if text_color_at(overlays, selected[0]) is Some {
            assert(selected[0] == selected[0]);
        } else {
            assert forall|j: int| 0 < j < selected.len() implies rest[j - 1] == #[trigger] selected[j] by {}
            if let Some(i) = first_text(overlays, rest) {
                let k = choose|k: int|
                    0 <= k < rest.len() && #[trigger] rest[k] == i && text_color_at(overlays, i) is Some
                        && forall|j: int|
                        0 <= j < k ==> text_color_at(overlays, #[trigger] rest[j]) is None;
                assert(selected[k + 1] == i);
                assert forall|j: int| 0 <= j < k + 1 implies text_color_at(
                    overlays,
                    #[trigger] selected[j],
                ) is None by {
                    if j > 0 {
                        assert(rest[j - 1] == selected[j]);
                    }
                }
            } else {
                assert forall|j: int| 0 <= j < selected.len() implies text_color_at(
                    overlays,
                    #[trigger] selected[j],
                ) is None by {
                    if j > 0 {
                        assert(rest[j - 1] == selected[j]);
                    }
                }
            }
        }
    }
}

/// The colour of a text; `None` where something else or nothing is.
pub open spec fn text_color_at(overlays: Seq<OverlayView>, i: usize) -> Option<[u8; 3]> {
    if i < overlays.len() {
        match overlays[i as int] {
            OverlayView::Text { color, .. } => Some(color),
            _ => None,
        }
    } else {
        None
    }
}

impl AppView {
    /// The state with the selected texts in another colour.
    pub open spec fn recolored(self, color: [u8; 3]) -> AppView {
        if self.has_page() {
            self.with_overlays(with_recolored(self.overlays(), self.selected, color))
        } else {
            self
        }
    }

    /// The colour of the first selected text.
    pub open spec fn first_selected_color(self) -> Option<[u8; 3]> {
        if self.has_page() {
            first_color(self.overlays(), self.selected)
        } else {
            None
        }
    }

    /// The text that is being edited, or else the first selected text.
    pub open spec fn active_text(self) -> Option<usize> {
        match self.editing {
            Some(i) => Some(i),
            None => if self.has_page() {
                first_text(self.overlays(), self.selected)
            } else {
                None
            },
        }
    }
}

fn recolor(o: &mut Overlay, to: [u8; 3])
    ensures
        final(o)@ == recolored(old(o)@, to),
{
    match o {
        Overlay::Text { text: _, x: _, y: _, size_pt: _, color } => {
            *color = to;
        },
        _ => {},
    }
}

fn recolor_selected(overlays: &mut Vec<Overlay>, selected: &Vec<usize>, color: [u8; 3])
    requires
        overlays_wf(overlay_views(old(overlays)@)),
    ensures
        overlay_views(final(overlays)@) == with_recolored(
            overlay_views(old(overlays)@),
            selected@,
            color,
        ),
        overlays_wf(overlay_views(final(overlays)@)),
{
    let ghost start = overlay_views(overlays@);
    let n = overlays.len();
    let mut i: usize = 0;
    while i < n
        invariant
            n == overlays.len(),
            n == start.len(),
            i <= n,
            forall|k: int|
                0 <= k < i ==> (#[trigger] overlays@[k])@ == with_recolored(
                    start,
                    selected@,
                    color,
                )[k],
            forall|k: int| i <= k < n ==> (#[trigger] overlays@[k])@ == start[k],
        decreases n - i,
    {
        assert(overlays@[i as int]@ == start[i as int]);
        if is_selected(selected, i) {
            recolor(&mut overlays[i], color);
        }
        i += 1;
    }
    assert(overlay_views(overlays@) =~= with_recolored(start, selected@, color));
    assert forall|k: int| 0 <= k < n implies (#[trigger] overlay_views(overlays@)[k]).wf() by {
        assert(start[k].wf());
    }
}

impl App {
    /// Give every selected text a colour.
    pub fn apply_color_to_selected_text(&mut self, color: [u8; 3])
        requires
            old(self).wf(),
        ensures
            final(self)@ == old(self)@.recolored(color),
            final(self).wf(),
    {
        if self.pages.len() == 0 {
            return;
        }
        let mut selected: Vec<usize> = Vec::new();
        std::mem::swap(&mut self.selected, &mut selected);
        proof {
            assert(self@.pages[self.current as int].wf());
        }
        recolor_selected(self.overlays_mut(), &selected, color);
        std::mem::swap(&mut self.selected, &mut selected);
        assert(self@.pages =~= old(self)@.recolored(color).pages);
    }

    /// The colour of the first selected text, if there is one.
    pub fn first_selected_text_color(&self) -> (r: Option<[u8; 3]>)
        requires
            self.wf(),
        ensures
            r == self@.first_selected_color(),
    {
        if self.pages.len() == 0 {
            return None;
        }
        let overlays = &self.pages[self.current].overlays;
        let ghost views = self@.overlays();
        let n = self.selected.len();
        let mut k: usize = 0;
        assert(self.selected@.skip(0) =~= self.selected@);
        while k < n
            invariant
                n == self.selected.len(),
                k <= n,
                self@.has_page(),
                views == self@.overlays(),
                views == overlay_views(overlays@),
                first_color(views, self.selected@) == first_color(
                    views,
                    self.selected@.skip(k as int),
                ),
            decreases n - k,
        {
            let i = self.selected[k];
            assert(self.selected@.skip(k as int).drop_first() =~= self.selected@.skip(k + 1));
            if i < overlays.len() {
                assert(views[i as int] == overlays@[i as int]@);
                if let Overlay::Text { text: _, x: _, y: _, size_pt: _, color } = &overlays[i] {
                    return Some(*color);
                }
            }
            k += 1;
        }
        None
    }

    /// The text that is being edited, or else the first selected text.
    pub fn active_text_idx(&self) -> (r: Option<usize>)
        requires
            self.wf(),
        ensures
            r == self@.active_text(),
    {
        if self.editing.is_some() {
            return self.editing;
        }
        if self.pages.len() == 0 {
            return None;
        }
        let overlays = &self.pages[self.current].overlays;
        let ghost views = self@.overlays();
        let n = self.selected.len();
        let mut k: usize = 0;
        assert(self.selected@.skip(0) =~= self.selected@);
        while k < n
            invariant
                n == self.selected.len(),
                k <= n,
                self@.has_page(),
                self@.editing is None,
                views == self@.overlays(),
                views == overlay_views(overlays@),
                first_text(views, self.selected@) == first_text(
                    views,
                    self.selected@.skip(k as int),
                ),
            decreases n - k,
        {
            let i = self.selected[k];
            assert(self.selected@.skip(k as int).drop_first() =~= self.selected@.skip(k + 1));
            if i < overlays.len() {
                assert(views[i as int] == overlays@[i as int]@);
                if overlays[i].is_text() {
                    return Some(i);
                }
            }
            k += 1;
        }
        None
    }
}

} // verus!
