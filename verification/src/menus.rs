//! The menus: the signatures to place, the colours of text, and the help.

use vstd::prelude::*;

use crate::app::{point_wf, App, AppView};
use crate::geom::Rect;
use crate::overlay::copy_bytes;
use crate::screen::{
    hit_test, points, rect_contains, rects_wf, screen_to_pdf, topmost, PageLayout, Point,
};
use crate::units::{in_range, limit, limited, max, spec_max, COORD_LIMIT};

verus! {

/// The height of a row of a menu, in ticks of the screen.
pub const ITEM_H: i64 = 180_000;

/// What lies to the left and to the right of the text of a row.
pub const ROW_PAD_X: i64 = 100_000;

/// The extents of a sample of a colour, and the gap behind it.
pub const SWATCH_W: i64 = 180_000;
pub const SWATCH_H: i64 = 120_000;
pub const SWATCH_GAP: i64 = 80_000;

/// The least width of the text of the signature menu.
pub const SIG_MENU_MIN_W: i64 = 800_000;

// ---------------------------------------------------------------------------
// Rows
// ---------------------------------------------------------------------------

/// The `i`th row of a menu.
pub open spec fn row_area(menu_pos: Point, menu_w: i64, i: int) -> Rect {
    Rect {
        x: menu_pos.x,
        y: limited(menu_pos.y + i * ITEM_H) as i64,
        w: menu_w,
        h: ITEM_H,
    }
}

/// The rows of a menu.
pub open spec fn menu_rows(menu_pos: Point, menu_w: i64, n: int) -> Seq<Rect> {
    Seq::new(
        if n > 0 {
            n as nat
        } else {
            0
        },
        |i: int| row_area(menu_pos, menu_w, i),
    )
}

/// The `i`th row of a menu.
pub fn row_rect(menu_pos: Point, menu_w: i64, i: usize) -> (r: Rect)
    requires
        menu_pos.wf(),
        in_range(menu_w as int),
    ensures
        r == row_area(menu_pos, menu_w, i as int),
        r.wf(),
{
    Rect {
        x: menu_pos.x,
        y: limit(menu_pos.y as i128 + i as i128 * ITEM_H as i128),
        w: menu_w,
        h: ITEM_H,
    }
}

/// The row under the pointer. On the border between two rows it is the lower.
pub open spec fn row_at(menu_pos: Point, menu_w: i64, n: int, hover: Option<Point>) -> Option<
    usize,
> {
    match hover {
        Some(pos) => topmost(menu_rows(menu_pos, menu_w, n), pos),
        None => None,
    }
}

/// The row of a menu with `n` rows under the pointer. On the border between two rows
/// it is the lower.
pub fn hovered_row(menu_pos: Point, menu_w: i64, n: usize, hover: Option<Point>) -> (r: Option<
    usize,
>)
    requires
        menu_pos.wf(),
        in_range(menu_w as int),
        point_wf(hover),
    ensures
        r == row_at(menu_pos, menu_w, n as int, hover),
        r matches Some(i) ==> i < n,
{
    let pos = match hover {
        Some(pos) => pos,
        None => return None,
    };
    let mut rows: Vec<Rect> = Vec::new();
    let mut i: usize = 0;
    while i < n
        invariant
            menu_pos.wf(),
            in_range(menu_w as int),
            i <= n,
            rows@ == menu_rows(menu_pos, menu_w, i as int),
            rects_wf(rows@),
        decreases n - i,
    {
        rows.push(row_rect(menu_pos, menu_w, i));
        i += 1;
        assert(rows@ =~= menu_rows(menu_pos, menu_w, i as int));
    }
    hit_test(&rows, pos)
}

/// The largest of some widths, and at least a given one.
pub open spec fn widest(widths: Seq<i64>, least: int) -> int
    decreases widths.len(),
{
    if widths.len() == 0 {
        least
    } else {
        spec_max(widest(widths.drop_last(), least), widths.last() as int)
    }
}

/// The width of a menu: its widest text, but at least `least`, and `extra` for what
/// stands beside the texts.
pub fn menu_width(widths: &Vec<i64>, least: i64, extra: i64) -> (r: i64)
    requires
        0 <= least <= COORD_LIMIT,
        0 <= extra <= COORD_LIMIT,
        forall|i: int| 0 <= i < widths.len() ==> in_range(#[trigger] widths@[i] as int),
    ensures
        r == limited(widest(widths@, least as int) + extra),
{
    let n = widths.len();
    let mut w = least;
    let mut i: usize = 0;
    assert(widths@.take(0) =~= Seq::empty());
    while i < n
        invariant
            n == widths.len(),
            i <= n,
            forall|k: int| 0 <= k < widths.len() ==> in_range(#[trigger] widths@[k] as int),
            w == widest(widths@.take(i as int), least as int),
            in_range(w as int),
        decreases n - i,
    {
        assert(widths@.take(i + 1).drop_last() =~= widths@.take(i as int));
        assert(in_range(widths@[i as int] as int));
        w = max(w, widths[i]);
        i += 1;
    }
    assert(widths@.take(n as int) =~= widths@);
    limit(w as i128 + extra as i128)
}

// ---------------------------------------------------------------------------
// The signature menu
// ---------------------------------------------------------------------------

/// A signature to be placed, and where its middle is to be.
pub struct SignaturePick {
    pub path: Vec<u8>,
    pub at: Point,
}

/// The mathematical content of an optional [`SignaturePick`].
pub open spec fn pick_view(pick: Option<SignaturePick>) -> Option<(Seq<u8>, Point)> {
    match pick {
        Some(p) => Some((p.path@, p.at)),
        None => None,
    }
}

impl AppView {
    /// The state after the right button has been pressed at a position: the menu
    /// opens there, on the page, if there is anything to choose.
    pub open spec fn sig_menu_opened(self, pos: Option<Point>, page_rect: Rect) -> AppView {
        match pos {
            Some(p) if self.signatures.len() > 0 && !self.help_open && page_rect.contains(
                p.x as int,
                p.y as int,
            ) => AppView { sig_menu: Some(p), ..self },
            _ => self,
        }
    }

    /// The state after the right button has been released over a row, and what is to
    /// be placed. It is placed where the menu was opened.
    pub open spec fn sig_menu_released(self, row: Option<usize>, layout: PageLayout) -> (
        AppView,
        Option<(Seq<u8>, Point)>,
    ) {
        match self.sig_menu {
            Some(p) => (
                AppView { sig_menu: None, ..self },
                match row {
                    Some(i) if i < self.signatures.len() => Some(
                        (
                            self.signatures[i as int],
                            Point {
                                x: points(p.x - layout.page_rect.x, layout.scale) as i64,
                                y: points(p.y - layout.page_rect.y, layout.scale) as i64,
                            },
                        ),
                    ),
                    _ => None,
                },
            ),
            None => (self, None),
        }
    }
}

impl App {
    /// The right button was pressed at a position.
    pub fn open_sig_menu(&mut self, pos: Option<Point>, page_rect: Rect)
        requires
            old(self).wf(),
            point_wf(pos),
            page_rect.wf(),
        ensures
            final(self)@ == old(self)@.sig_menu_opened(pos, page_rect),
            final(self).wf(),
    {
        if let Some(p) = pos {
            if self.signatures.len() > 0 && !self.help_open && rect_contains(page_rect, p) {
                self.sig_menu = Some(p);
            }
        }
    }

    /// The right button was released over a row of the signature menu, or beside it.
    #[verifier::rlimit(40)]
    pub fn release_sig_menu(&mut self, row: Option<usize>, layout: PageLayout) -> (r: Option<
        SignaturePick,
    >)
        requires
            old(self).wf(),
            layout.wf(),
        ensures
            (final(self)@, pick_view(r)) == old(self)@.sig_menu_released(row, layout),
            final(self).wf(),
            r matches Some(pick) ==> pick.at.wf(),
    {
        let p = match self.sig_menu {
            Some(p) => p,
            None => return None,
        };
        self.sig_menu = None;
        assert(self@ == (AppView { sig_menu: None, ..old(self)@ }));
        assert(self.wf());
        match row {
            Some(i) => if i < self.signatures.len() {
                let at = screen_to_pdf(p, layout.page_rect, layout.scale);
                let path = copy_bytes(self.signatures[i].as_slice());
                assert(self@.signatures[i as int] == path@);
                Some(SignaturePick { path, at })
            } else {
                None
            },
            None => None,
        }
    }
}

// ---------------------------------------------------------------------------
// The colour menu
// ---------------------------------------------------------------------------

/// The number of rows of the colour menu.
pub const COLOR_PRESETS: usize = 4;

/// The colour of a row of the colour menu; the last has none, and opens the picker.
pub open spec fn preset_color(row: int) -> Option<[u8; 3]> {
    if row == 0 {
        Some([0, 0, 0])
    } else if row == 1 {
        Some([200, 30, 30])
    } else if row == 2 {
        Some([30, 60, 200])
    } else {
        None
    }
}

/// The text of a row of the colour menu.
pub open spec fn preset_label(row: int) -> Seq<char> {
    if row == 0 {
        "Black"@
    } else if row == 1 {
        "Red"@
    } else if row == 2 {
        "Blue"@
    } else {
        "Custom…"@
    }
}

/// The text and the colour of a row of the colour menu.
pub fn color_preset(row: usize) -> (r: (&'static str, Option<[u8; 3]>))
    requires
        row < COLOR_PRESETS,
    ensures
        r.0@ == preset_label(row as int),
        r.1 == preset_color(row as int),
{
    match row {
        0 => ("Black", Some([0, 0, 0])),
        1 => ("Red", Some([200, 30, 30])),
        2 => ("Blue", Some([30, 60, 200])),
        _ => ("Custom…", None),
    }
}

impl AppView {
    /// The state after a frame of the colour menu: a press chooses the row under the
    /// pointer and closes the menu, wherever it is; Escape only closes it.
    pub open spec fn color_menu_used(self, row: Option<usize>, pressed: bool, esc: bool) -> AppView {
        match self.color_menu {
            Some(p) => if pressed {
                let a = match row {
                    Some(i) => match preset_color(i as int) {
                        Some(color) => self.recolored(color),
                        None => AppView { color_custom: Some(p), ..self },
                    },
                    None => self,
                };
                AppView { color_menu: None, color_menu_consume_click: true, ..a }
            } else if esc {
                AppView { color_menu: None, ..self }
            } else {
                self
            },
            None => self,
        }
    }

    /// The state after a frame of the colour picker.
    pub open spec fn color_picked(self, color: Option<[u8; 3]>, closed: bool) -> AppView {
        match self.color_custom {
            Some(_) => {
                let a = match color {
                    Some(c) => self.recolored(c),
                    None => self,
                };
                if closed {
                    AppView { color_custom: None, color_menu_consume_click: true, ..a }
                } else {
                    a
                }
            },
            None => self,
        }
    }

    /// The colour that the picker begins with.
    pub open spec fn picker_start(self) -> [u8; 3] {
        match self.first_selected_color() {
            Some(color) => color,
            None => self.text_color,
        }
    }
}

impl App {
    /// A frame of the colour menu, given the row under the pointer.
    pub fn use_color_menu(&mut self, row: Option<usize>, pressed: bool, esc: bool)
        requires
            old(self).wf(),
            row matches Some(i) ==> i < COLOR_PRESETS,
        ensures
            final(self)@ == old(self)@.color_menu_used(row, pressed, esc),
            final(self).wf(),
    {
        let p = match self.color_menu {
            Some(p) => p,
            None => return,
        };
        if pressed {
            if let Some(i) = row {
                match color_preset(i).1 {
                    Some(color) => self.apply_color_to_selected_text(color),
                    None => {
                        self.color_custom = Some(p);
                    },
                }
            }
            self.color_menu = None;
            self.color_menu_consume_click = true;
        } else if esc {
            self.color_menu = None;
        }
    }

    /// A frame of the colour picker: the colour, if it was changed, and whether the
    /// picker is to be closed.
    pub fn pick_color(&mut self, color: Option<[u8; 3]>, closed: bool)
        requires
            old(self).wf(),
        ensures
            final(self)@ == old(self)@.color_picked(color, closed),
            final(self).wf(),
    {
        if self.color_custom.is_none() {
            return;
        }
        if let Some(c) = color {
            self.apply_color_to_selected_text(c);
        }
        if closed {
            self.color_custom = None;
            self.color_menu_consume_click = true;
        }
    }

    /// The colour that the picker begins with: that of the first selected text, or
    /// else that of new text.
    pub fn picker_color(&self) -> (r: [u8; 3])
        requires
            self.wf(),
        ensures
            r == self@.picker_start(),
    {
        match self.first_selected_text_color() {
            Some(color) => color,
            None => self.text_color,
        }
    }
}

/// Choosing a colour gives it to every selected text and to nothing else: every
/// other overlay, and everything else about the texts, stays as it was.
pub proof fn colour_changes_only_texts(app: AppView, color: [u8; 3], i: int)
    requires
        app.wf(),
        app.has_page(),
        0 <= i < app.overlays().len(),
    ensures
        app.recolored(color).overlays().len() == app.overlays().len(),
        !app.selected.contains(i as usize) || !(app.overlays()[i] is Text)
            ==> app.recolored(color).overlays()[i] == app.overlays()[i],
        app.recolored(color).recolored(color) == app.recolored(color),
{
    let once = app.recolored(color);
    assert(once.recolored(color).overlays() =~= once.overlays());
    assert(once.recolored(color).pages =~= once.pages);
}

// ---------------------------------------------------------------------------
// Help
// ---------------------------------------------------------------------------

/// A row of the help: keys, and what they do.
pub struct HelpRow {
    pub keys: &'static str,
    pub desc: &'static str,
}

/// A section of the help.
pub struct HelpSection {
    pub title: &'static str,
    pub rows: Vec<HelpRow>,
}

/// The rows of a section of the help.
pub open spec fn help_rows_view(rows: Seq<HelpRow>) -> Seq<(Seq<char>, Seq<char>)> {
    rows.map_values(|r: HelpRow| (r.keys@, r.desc@))
}

/// The titles of the help, in order.
pub open spec fn help_titles() -> Seq<Seq<char>> {
    seq!["place (cursor over page)"@, "selection"@, "redact"@, "file"@]
}

/// The rows of the sections of the help.
pub open spec fn help_rows(section: int) -> Seq<(Seq<char>, Seq<char>)> {
    if section == 0 {
        seq![
            ("s"@, "stamp date · DD.MM.YYYY"@),
            ("Shift+S"@, "stamp date · MM/DD/YYYY"@),
            ("x"@, "checkbox mark"@),
            ("t"@, "text label (inline edit)"@),
            ("right-drag"@, "signature menu"@),
        ]
    } else if section == 1 {
        seq![
            ("d / Del"@, "delete"@),
            ("Ctrl+D"@, "duplicate"@),
            ("+ / -"@, "resize · text pt, image %"@),
            ("wheel"@, "resize sel, else paginate"@),
            ("c"@, "colour picker"@),
        ]
    } else if section == 2 {
        seq![
            ("b"@, "block mode · drag to blacken area"@),
            ("Shift+B"@, "mark mode · drag to mark text"@),
            ("b"@, "commit marks to redactions"@),
            ("r"@, "toggle redact visibility"@),
            ("Esc"@, "leave block / mark mode"@),
        ]
    } else {
        seq![
            ("Ctrl+S"@, "save signed PDF"@),
            ("q"@, "quit"@),
            ("h / Esc"@, "close this help"@),
        ]
    }
}

fn push_row(rows: &mut Vec<HelpRow>, keys: &'static str, desc: &'static str)
    ensures
        help_rows_view(final(rows)@) == help_rows_view(old(rows)@).push((keys@, desc@)),
{
    rows.push(HelpRow { keys, desc });
    assert(help_rows_view(rows@) =~= help_rows_view(old(rows)@).push((keys@, desc@)));
}

fn rows_of_section(section: usize) -> (r: Vec<HelpRow>)
    requires
        section < 4,
    ensures
        help_rows_view(r@) == help_rows(section as int),
{
    let mut rows: Vec<HelpRow> = Vec::new();
    match section {
        0 => {
            push_row(&mut rows, "s", "stamp date · DD.MM.YYYY");
            push_row(&mut rows, "Shift+S", "stamp date · MM/DD/YYYY");
            push_row(&mut rows, "x", "checkbox mark");
            push_row(&mut rows, "t", "text label (inline edit)");
            push_row(&mut rows, "right-drag", "signature menu");
        },
        1 => {
            push_row(&mut rows, "d / Del", "delete");
            push_row(&mut rows, "Ctrl+D", "duplicate");
            push_row(&mut rows, "+ / -", "resize · text pt, image %");
            push_row(&mut rows, "wheel", "resize sel, else paginate");
            push_row(&mut rows, "c", "colour picker");
        },
        2 => {
            push_row(&mut rows, "b", "block mode · drag to blacken area");
            push_row(&mut rows, "Shift+B", "mark mode · drag to mark text");
            push_row(&mut rows, "b", "commit marks to redactions");
            push_row(&mut rows, "r", "toggle redact visibility");
            push_row(&mut rows, "Esc", "leave block / mark mode");
        },
        _ => {
            push_row(&mut rows, "Ctrl+S", "save signed PDF");
            push_row(&mut rows, "q", "quit");
            push_row(&mut rows, "h / Esc", "close this help");
        },
    }
    assert(help_rows_view(rows@) =~= help_rows(section as int));
    rows
}

/// The help: what the keys do, in sections.
pub fn help_sections() -> (r: Vec<HelpSection>)
    ensures
        r@.len() == 4,
        forall|i: int| 0 <= i < 4 ==> (#[trigger] r@[i]).title@ == help_titles()[i],
        forall|i: int| 0 <= i < 4 ==> help_rows_view((#[trigger] r@[i]).rows@) == help_rows(i),
{
    let mut r: Vec<HelpSection> = Vec::new();
    r.push(HelpSection { title: "place (cursor over page)", rows: rows_of_section(0) });
    r.push(HelpSection { title: "selection", rows: rows_of_section(1) });
    r.push(HelpSection { title: "redact", rows: rows_of_section(2) });
    r.push(HelpSection { title: "file", rows: rows_of_section(3) });
    r
}

} // verus!
