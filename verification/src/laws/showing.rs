//! What is shown and chosen: the page in its area, the menus and the bars.

use vstd::prelude::*;

use crate::app::{initial, AppView};
use crate::geom::Rect;
use crate::laws::filter::writes;
use crate::laws::moving::{at_most, is_nearest_length, screen_is_divided_by_the_scale};
use crate::laws::placing::shown;
use crate::merge::{rects_of, RectKind};
use crate::menus::{menu_rows, preset_color, preset_label, row_area, row_at, widest};
use crate::numtext::{decimal_text, decimal_text_reads_back};
use crate::overlay::OverlayView;
use crate::panels::{size_text, Paint};
use crate::screen::{centred, fitting_scale, topmost, topmost_is_last_hit, PageLayout, Point};
use crate::units::{rounded, rounded_is_nearest, COORD_LIMIT};

verus! {

// ---------------------------------------------------------------------------
// The start
// ---------------------------------------------------------------------------

/// At the start no document is open and nothing is selected; new text is black and of
/// twelve points, redactions are shown, and neither mode is on.
pub proof fn start_is_empty(can_show: bool, signatures: Seq<Seq<u8>>)
    ensures
        ({
            let app = initial(can_show, signatures);
            &&& app.pages.len() == 0 && app.pdf_path is None && app.selected.len() == 0
            &&& app.text_size == 120_000 && app.text_color == [0u8, 0u8, 0u8]
            &&& app.show_redacts && !app.block_mode && !app.mark_mode && !app.help_open
            &&& app.signatures == signatures
            &&& app.pages_filter.len() == 0
            &&& app.editing is None && app.rubber_band is None
            &&& app.sig_menu is None && app.color_menu is None && app.color_custom is None
            &&& can_show ==> app.status.len() == 0
            &&& !can_show ==> app.status
                == "ERROR: pdfium library not found. Install pdfium-binaries."@
        }),
{
    reveal_strlit("");
}

/// An opened document has a page of each given size with nothing on it, and its first page
/// is shown.
pub proof fn opened_document_is_blank(
    app: AppView,
    path: Seq<u8>,
    sizes: Seq<(i64, i64)>,
    i: int,
)
    requires
        0 <= i < sizes.len(),
    ensures
        ({
            let after = app.opened(path, sizes);
            &&& after == (AppView {
                pdf_path: Some(path),
                pages: after.pages,
                current: 0,
                selected: Seq::empty(),
                status: Seq::empty(),
                ..app
            })
            &&& after.pages.len() == sizes.len()
            &&& after.pages[i].size_pt == sizes[i]
            &&& after.pages[i].overlays.len() == 0
        }),
{
}

// ---------------------------------------------------------------------------
// The page in its area
// ---------------------------------------------------------------------------

/// A page is shown as large as its area allows in both directions, but at no less than a
/// tenth of a pixel to the point: a larger scale would not fit.
pub proof fn page_is_shown_as_large_as_fits(avail: Rect, size: (i64, i64))
    requires
        size.0 > 0,
        size.1 > 0,
    ensures
        ({
            let scale = fitting_scale(avail, size);
            &&& scale >= 429_496_730
            &&& 429_496_730 < scale < 0xffff_ffff_ffff_ffff ==> {
                &&& 2 * (scale * size.0 - avail.w * 0x1_0000_0000) <= size.0
                &&& 2 * (scale * size.1 - avail.h * 0x1_0000_0000) <= size.1
                &&& 2 * (scale * size.0 - avail.w * 0x1_0000_0000) >= -size.0 || 2 * (scale * size.1
                    - avail.h * 0x1_0000_0000) >= -size.1
            }
        }),
{
    rounded_is_nearest(avail.w * 0x1_0000_0000, size.0 as int);
    rounded_is_nearest(avail.h * 0x1_0000_0000, size.1 as int);
    let a = rounded(avail.w * 0x1_0000_0000, size.0 as int);
    let b = rounded(avail.h * 0x1_0000_0000, size.1 as int);
    let scale = fitting_scale(avail, size);
    if 429_496_730 < scale < 0xffff_ffff_ffff_ffff {
        assert(scale == a || scale == b);
        assert(scale <= a && scale <= b);
        assert(scale * size.0 <= a * size.0) by (nonlinear_arith)
            requires
                scale <= a,
                size.0 > 0,
        ;
        assert(scale * size.1 <= b * size.1) by (nonlinear_arith)
            requires
                scale <= b,
                size.1 > 0,
        ;
    }
}

/// A page is shown in the middle of its area: as much is left free on either side, to the
/// nearest tick.
pub proof fn page_is_shown_in_the_middle(avail: Rect, size: (i64, i64), scale: u64)
    requires
        -(COORD_LIMIT / 4) <= avail.x <= COORD_LIMIT / 4,
        -(COORD_LIMIT / 4) <= avail.y <= COORD_LIMIT / 4,
        0 <= avail.w <= COORD_LIMIT / 4,
        0 <= avail.h <= COORD_LIMIT / 4,
    ensures
        ({
            let r = centred(avail, size, scale);
            &&& -1 <= (2 * r.x + r.w) - (2 * avail.x + avail.w) <= 1
            &&& -1 <= (2 * r.y + r.h) - (2 * avail.y + avail.h) <= 1
        }),
{
    let w = crate::screen::pixels(size.0 as int, scale);
    let h = crate::screen::pixels(size.1 as int, scale);
    rounded_is_nearest(2 * avail.x + avail.w - w, 2);
    rounded_is_nearest(2 * avail.y + avail.h - h, 2);
}

// ---------------------------------------------------------------------------
// Menus
// ---------------------------------------------------------------------------

/// The rows of a menu lie one below the other from where it opened, eighteen pixels high,
/// and the row under the pointer is the one that the pointer lies in; on the border of two
/// it is the lower.
pub proof fn rows_lie_below_each_other(menu_pos: Point, menu_w: i64, n: int, i: int, pos: Point)
    requires
        0 <= i < n <= 1_000_000,
        -(COORD_LIMIT / 2) <= menu_pos.y <= COORD_LIMIT / 2,
        menu_pos.x <= pos.x <= menu_pos.x + menu_w,
    ensures
        menu_pos.y + 180_000 * i <= pos.y < menu_pos.y + 180_000 * (i + 1) ==> row_at(
            menu_pos,
            menu_w,
            n,
            Some(pos),
        ) == Some(i as usize),
        pos.y < menu_pos.y ==> row_at(menu_pos, menu_w, n, Some(pos)) is None,
        pos.y > menu_pos.y + 180_000 * n ==> row_at(menu_pos, menu_w, n, Some(pos)) is None,
        row_at(menu_pos, menu_w, n, None) is None,
{
    let rows = menu_rows(menu_pos, menu_w, n);
    topmost_is_last_hit(rows, pos);
    assert forall|k: int| 0 <= k < n implies (#[trigger] rows[k]).y == menu_pos.y + 180_000 * k
        && rows[k].h == 180_000 && rows[k].x == menu_pos.x && rows[k].w == menu_w by {
        assert(rows[k] == row_area(menu_pos, menu_w, k));
    }
    match topmost(rows, pos) {
        Some(m) => {
            assert(rows[m as int].contains(pos.x as int, pos.y as int));
            if menu_pos.y + 180_000 * i <= pos.y < menu_pos.y + 180_000 * (i + 1) {
                if m < i {
                    assert(!rows[i].contains(pos.x as int, pos.y as int));
                }
            }
        },
        None => {
            assert(!rows[i].contains(pos.x as int, pos.y as int));
        },
    }
}

/// A menu is as wide as its widest text, and no narrower than the least width.
pub proof fn menu_holds_its_texts(widths: Seq<i64>, least: int, i: int)
    requires
        0 <= i < widths.len(),
    ensures
        widest(widths, least) >= widths[i],
        widest(widths, least) >= least,
        widest(widths, least) == least || exists|k: int|
            0 <= k < widths.len() && widest(widths, least) == #[trigger] widths[k],
    decreases widths.len(),
{
    let front = widths.drop_last();
    if front.len() > 0 {
        menu_holds_its_texts(
            front,
            least,
            if i < front.len() {
                i
            } else {
                0
            },
        );
        if widest(front, least) != least {
            let k = choose|k: int|
                0 <= k < front.len() && widest(front, least) == #[trigger] front[k];
            assert(widths[k] == front[k]);
        }
    } else {
        assert(widest(front, least) == least);
    }
    assert(widths[widths.len() - 1] == widths.last());
    if i < front.len() {
        assert(front[i] == widths[i]);
    }
}

/// The signature menu opens on the page where the right button is pressed, if there are
/// signatures. Released over a row it gives the signature of that row, to be placed where
/// the menu was opened; released beside the rows it gives none. It is closed either way.
pub proof fn signatures_are_placed_where_the_menu_opened(
    app: AppView,
    pos: Point,
    page_rect: Rect,
    row: usize,
    layout: PageLayout,
)
    requires
        app.signatures.len() > 0,
        !app.help_open,
        page_rect.x <= pos.x <= page_rect.x + page_rect.w,
        page_rect.y <= pos.y <= page_rect.y + page_rect.h,
        layout.scale > 0,
        at_most(pos.x - layout.page_rect.x, layout.scale, COORD_LIMIT as int),
        at_most(pos.y - layout.page_rect.y, layout.scale, COORD_LIMIT as int),
    ensures
        ({
            let open = app.sig_menu_opened(Some(pos), page_rect);
            let (after, pick) = open.sig_menu_released(Some(row), layout);
            &&& open == (AppView { sig_menu: Some(pos), ..app })
            &&& after == (AppView { sig_menu: None, ..app })
            &&& row < app.signatures.len() ==> (pick matches Some((path, at)) && path
                == app.signatures[row as int] && is_nearest_length(
                at.x as int,
                pos.x - layout.page_rect.x,
                layout.scale,
            ) && is_nearest_length(at.y as int, pos.y - layout.page_rect.y, layout.scale))
            &&& row >= app.signatures.len() ==> pick is None
            &&& open.sig_menu_released(None, layout) == (
                AppView { sig_menu: None, ..app },
                None::<(Seq<u8>, Point)>,
            )
        }),
{
    screen_is_divided_by_the_scale(
        pos.x - layout.page_rect.x,
        layout.scale,
        COORD_LIMIT as int,
    );
    screen_is_divided_by_the_scale(
        pos.y - layout.page_rect.y,
        layout.scale,
        COORD_LIMIT as int,
    );
}

/// The menu does not open beside the page, without signatures, or under the help.
pub proof fn signature_menu_stays_closed(app: AppView, pos: Point, page_rect: Rect)
    ensures
        app.signatures.len() == 0 || app.help_open || pos.x < page_rect.x || pos.x > page_rect.x
            + page_rect.w || pos.y < page_rect.y || pos.y > page_rect.y + page_rect.h
            ==> app.sig_menu_opened(Some(pos), page_rect) == app,
        app.sig_menu_opened(None, page_rect) == app,
{
}

/// The colour menu has black, red and blue, and a row that opens the picker.
pub proof fn three_colours_and_a_picker()
    ensures
        preset_color(0) == Some([0u8, 0u8, 0u8]),
        preset_color(1) == Some([200u8, 30u8, 30u8]),
        preset_color(2) == Some([30u8, 60u8, 200u8]),
        preset_color(3) is None,
        preset_label(0) == "Black"@,
        preset_label(1) == "Red"@,
        preset_label(2) == "Blue"@,
        preset_label(3) == "Custom…"@,
{
}

/// A press on a row of the colour menu gives its colour to the selected texts, or opens the
/// picker where the menu was; a press beside the rows and Escape change no text. All of
/// them close the menu.
pub proof fn colour_menu_colours_and_closes(app: AppView, menu: Point, row: usize)
    requires
        app.color_menu == Some(menu),
    ensures
        row < 3 ==> app.color_menu_used(Some(row), true, false) == (AppView {
            color_menu: None,
            color_menu_consume_click: true,
            ..app.recolored(preset_color(row as int)->Some_0)
        }),
        app.color_menu_used(Some(3), true, false) == (AppView {
            color_menu: None,
            color_menu_consume_click: true,
            color_custom: Some(menu),
            ..app
        }),
        app.color_menu_used(None, true, false) == (AppView {
            color_menu: None,
            color_menu_consume_click: true,
            ..app
        }),
        app.color_menu_used(Some(row), false, true) == (AppView { color_menu: None, ..app }),
        app.color_menu_used(Some(row), false, false) == app,
{
}

/// The picker colours the selected texts as it is moved, until it is closed.
pub proof fn picker_colours_at_once(app: AppView, at: Point, color: [u8; 3])
    requires
        app.color_custom == Some(at),
    ensures
        app.color_picked(Some(color), false) == app.recolored(color),
        app.color_picked(None, false) == app,
        app.color_picked(None, true) == (AppView {
            color_custom: None,
            color_menu_consume_click: true,
            ..app
        }),
        app.color_picked(Some(color), true) == (AppView {
            color_custom: None,
            color_menu_consume_click: true,
            ..app.recolored(color)
        }),
        (AppView { color_custom: None, ..app }).color_picked(Some(color), true) == (AppView {
            color_custom: None,
            ..app
        }),
{
}

// ---------------------------------------------------------------------------
// Bars and drawing
// ---------------------------------------------------------------------------

/// The footer gives the number of the page that is shown, from one on, and how many there
/// are.
pub proof fn page_number_counts_from_one(app: AppView)
    requires
        app.has_page(),
        app.current >= 0,
    ensures
        exists|a: Seq<char>, b: Seq<char>| #[trigger]
            writes(a, (app.current + 1) as nat) && #[trigger] writes(b, app.pages.len())
                && app.page_text() == "["@ + a + "/"@ + b + "]"@,
{
    decimal_text_reads_back((app.current + 1) as nat);
    decimal_text_reads_back(app.pages.len());
    assert(writes(decimal_text((app.current + 1) as nat), (app.current + 1) as nat));
    assert(writes(decimal_text(app.pages.len()), app.pages.len()));
}

/// The size of a text is shown in whole points, to the nearest.
pub proof fn sizes_are_shown_in_points(size: int)
    requires
        size >= 0,
    ensures
        exists|d: Seq<char>, n: nat| #[trigger]
            writes(d, n) && size_text(size) == d + " pt"@ && -5_000 <= 10_000 * n - size <= 5_000,
{
    let n = crate::panels::rounded_even(size, 10_000);
    assert(n >= 0);
    decimal_text_reads_back(n as nat);
    assert(writes(decimal_text(n as nat), n as nat));
}

/// A size halfway between two whole points is shown as the even one.
pub proof fn half_points_are_shown_even(n: nat)
    ensures
        size_text((10_000 * n + 5_000) as int) == decimal_text(
            if n % 2 == 0 {
                n
            } else {
                n + 1
            },
        ) + " pt"@,
{
    assert((10_000 * n + 5_000) / 10_000 == n);
    assert((10_000 * n + 5_000) % 10_000 == 5_000);
}

/// The header tells the block mode, or the mark mode with the number of marks on the page,
/// and then how many overlays are selected, where there are several.
pub proof fn header_tells_mode_and_selection(app: AppView)
    requires
        app.active_size_text() is None,
    ensures
        !app.block_mode && !app.mark_mode && app.selected.len() <= 1 ==> app.header().len() == 0,
        app.block_mode && !app.mark_mode && app.selected.len() <= 1 ==> app.header() == seq![
            ("BLOCK"@, true),
        ],
        app.mark_mode && !app.block_mode && app.selected.len() <= 1 ==> app.header() == seq![
            (
                "MARK · "@ + decimal_text(rects_of(shown(app), RectKind::PendingMark).len())
                    + " pending"@,
                true,
            ),
        ],
        !app.block_mode && !app.mark_mode && app.selected.len() > 1 ==> app.header() == seq![
            (decimal_text(app.selected.len()) + " selected"@, false),
        ],
{
    if app.block_mode && !app.mark_mode && app.selected.len() <= 1 {
        assert(app.header() =~= seq![("BLOCK"@, true)]);
    }
    if app.mark_mode && !app.block_mode && app.selected.len() <= 1 {
        assert(app.header() =~= seq![
            (
                "MARK · "@ + decimal_text(rects_of(shown(app), RectKind::PendingMark).len())
                    + " pending"@,
                true,
            ),
        ]);
    }
    if !app.block_mode && !app.mark_mode && app.selected.len() > 1 {
        assert(app.header() =~= seq![(decimal_text(app.selected.len()) + " selected"@, false)]);
    }
}

/// Each overlay is drawn as what it is, but for the text that is being edited and for
/// redactions while they are hidden; the selected ones have an outline.
pub proof fn overlays_are_drawn_as_they_are(app: AppView, i: int)
    requires
        app.has_page(),
        0 <= i < shown(app).len() <= usize::MAX,
    ensures
        app.drawn(i).outlined == app.selected.contains(i as usize),
        app.editing == Some(i as usize) ==> app.drawn(i).paint == Paint::Nothing,
        app.editing != Some(i as usize) ==> match shown(app)[i] {
            OverlayView::Image { .. } => app.drawn(i).paint == Paint::Image,
            OverlayView::Text { .. } => app.drawn(i).paint == Paint::Text,
            OverlayView::PendingMark { .. } => app.drawn(i).paint == Paint::Rose,
            OverlayView::Redact { .. } => app.drawn(i).paint == (if app.show_redacts {
                Paint::Black
            } else {
                Paint::Nothing
            }),
        },
{
}

} // verus!
