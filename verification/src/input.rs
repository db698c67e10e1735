//! Keys and the wheel: what they do to the state.

use vstd::prelude::*;

use crate::app::{text_at, App, AppView, WHEEL_PAGE_THRESHOLD};
use crate::files::{file_kind, kind_of, labelled, text_view, FileKind};
use crate::geom::Rect;
use crate::merge::{
    apart, lemma_others_not_of_kind, lemma_others_wf, merge_overlapping_redacts, merge_settles,
    merged, merged_overlays, of_kind, others_of, rect_of, rects_of, RectKind,
};
use crate::overlay::{overlay_views, overlays_wf, Overlay, OverlayView};
use crate::screen::{points, scale_wf, screen_to_pdf, PageLayout, Point};
use crate::stamp::{date_text, Date};
use crate::units::in_range;

verus! {

// ---------------------------------------------------------------------------
// Keys
// ---------------------------------------------------------------------------

/// The keys that do something.
#[derive(Clone, Copy, Debug, PartialEq, Eq, Structural)]
pub enum Key {
    Plus,
    Equals,
    Minus,
    S,
    X,
    T,
    D,
    C,
    B,
    R,
    Escape,
    Other,
}

/// A key that was pressed, and what was held with it.
#[derive(Clone, Copy, Debug, PartialEq, Eq, Structural)]
pub struct KeyEvent {
    pub key: Key,
    /// The key is held down and repeats.
    pub repeat: bool,
    pub shift: bool,
    pub ctrl: bool,
    pub command: bool,
    pub alt: bool,
}

impl KeyEvent {
    /// Something else than Shift is held with the key.
    pub open spec fn is_chord(self) -> bool {
        self.ctrl || self.command || self.alt
    }

    fn chord(&self) -> (r: bool)
        ensures
            r == self.is_chord(),
    {
        self.ctrl || self.command || self.alt
    }
}

/// By how many steps keys change a size.
pub open spec fn steps_of(events: Seq<KeyEvent>) -> int
    decreases events.len(),
{
    if events.len() == 0 {
        0
    } else {
        let e = events.last();
        steps_of(events.drop_last()) + if e.is_chord() {
            0int
        } else if e.key == Key::Plus || e.key == Key::Equals {
            1int
        } else if e.key == Key::Minus {
            -1int
        } else {
            0int
        }
    }
}

/// By how many steps keys change a size.
pub fn size_steps(events: &Vec<KeyEvent>) -> (r: i32)
    requires
        events.len() <= i32::MAX,
    ensures
        r == steps_of(events@),
{
    let n = events.len();
    let mut d: i32 = 0;
    let mut i: usize = 0;
    while i < n
        invariant
            n == events.len(),
            n <= i32::MAX,
            i <= n,
            d == steps_of(events@.take(i as int)),
            -(i as int) <= d <= i,
        decreases n - i,
    {
        let e = events[i];
        assert(events@.take(i + 1).drop_last() =~= events@.take(i as int));
        if !e.chord() {
            match e.key {
                Key::Plus => {
                    d += 1;
                },
                Key::Equals => {
                    d += 1;
                },
                Key::Minus => {
                    d -= 1;
                },
                _ => {},
            }
        }
        i += 1;
    }
    assert(events@.take(n as int) =~= events@);
    d
}

/// The keys that work everywhere, in one frame.
pub struct GlobalKeys {
    /// Text is being entered.
    pub typing: bool,
    pub help: bool,
    pub escape: bool,
    pub quit: bool,
    /// Delete or Backspace.
    pub delete: bool,
    /// With Ctrl.
    pub save: bool,
    pub duplicate: bool,
    pub events: Vec<KeyEvent>,
}

/// What is to be done, in this order.
#[derive(Clone, Copy, Debug, PartialEq, Eq, Structural)]
pub struct GlobalOutcome {
    pub quit: bool,
    pub save: bool,
    pub duplicate: bool,
}

impl AppView {
    /// The state after the help key.
    pub open spec fn help_toggled(self, pressed: bool) -> AppView {
        AppView {
            help_open: if pressed {
                !self.help_open
            } else {
                self.help_open
            },
            ..self
        }
    }

    /// The state after the keys that work everywhere, and what is to be done. While
    /// text is being entered only those with Ctrl work; while the help is open only
    /// those that close it.
    pub open spec fn after_global_keys(self, keys: GlobalKeys) -> (AppView, GlobalOutcome) {
        let nothing = GlobalOutcome { quit: false, save: false, duplicate: false };
        if keys.typing {
            (
                self,
                GlobalOutcome {
                    save: keys.save && self.has_page(),
                    duplicate: keys.duplicate,
                    ..nothing
                },
            )
        } else {
            let a = self.help_toggled(keys.help);
            if a.help_open {
                (AppView { help_open: !(keys.escape || keys.quit), ..a }, nothing)
            } else {
                let b = if keys.delete {
                    a.deleted()
                } else {
                    a
                };
                let steps = steps_of(keys.events@);
                let c = if steps != 0 {
                    b.size_adjusted(steps)
                } else {
                    b
                };
                (
                    c,
                    GlobalOutcome {
                        quit: keys.quit,
                        save: keys.save && self.has_page(),
                        duplicate: keys.duplicate,
                    },
                )
            }
        }
    }
}

/// The help key pressed twice changes nothing.
pub proof fn help_toggles_back(app: AppView)
    ensures
        app.help_toggled(true).help_toggled(true) == app,
{
}

/// While the help is open, and nothing is being entered, no key does anything but
/// to close it.
pub proof fn open_help_blocks_keys(app: AppView, keys: GlobalKeys)
    requires
        app.help_open,
        !keys.typing,
        !keys.help,
    ensures
        app.after_global_keys(keys).0 == (AppView {
            help_open: !(keys.escape || keys.quit),
            ..app
        }),
        app.after_global_keys(keys).1 == (GlobalOutcome {
            quit: false,
            save: false,
            duplicate: false,
        }),
{
}

impl App {
    /// The keys that work everywhere. The result says what is to be done, in order:
    /// to quit, to save what is there now, and then to duplicate the selection.
    pub fn handle_global_hotkeys(&mut self, keys: &GlobalKeys) -> (r: GlobalOutcome)
        requires
            old(self).wf(),
            keys.events.len() <= i32::MAX,
        ensures
            (final(self)@, r) == old(self)@.after_global_keys(*keys),
            final(self).wf(),
    {
        let mut quit = false;
        if !keys.typing {
            if keys.help {
                self.help_open = !self.help_open;
            }
            if self.help_open {
                if keys.escape || keys.quit {
                    self.help_open = false;
                }
                return GlobalOutcome { quit: false, save: false, duplicate: false };
            }
            if keys.delete {
                self.delete_selected();
            }
            quit = keys.quit;
            let steps = size_steps(&keys.events);
            if steps != 0 {
                self.adjust_size(steps);
            }
        }
        GlobalOutcome { quit, save: keys.save && self.pages.len() > 0, duplicate: keys.duplicate }
    }

    /// Report what came of saving: the path that was written, or why it failed.
    pub fn report_save(&mut self, saved: bool, text: &str)
        requires
            old(self).wf(),
        ensures
            final(self)@ == old(self)@.with_status(
                if saved {
                    "Saved "@ + text@
                } else {
                    "Save error: "@ + text@
                },
            ),
            final(self).wf(),
    {
        self.status = if saved {
            labelled("Saved ", text)
        } else {
            labelled("Save error: ", text)
        };
    }

    /// Report that a picture could not be opened.
    pub fn report_image_error(&mut self, text: &str)
        requires
            old(self).wf(),
        ensures
            final(self)@ == old(self)@.with_status("Image error: "@ + text@),
            final(self).wf(),
    {
        self.status = labelled("Image error: ", text);
    }

    /// Report that a document could not be opened.
    pub fn report_open_error(&mut self, text: &str)
        requires
            old(self).wf(),
        ensures
            final(self)@ == old(self)@.with_status("Error: "@ + text@),
            final(self).wf(),
    {
        self.status = labelled("Error: ", text);
    }
}

// ---------------------------------------------------------------------------
// Dropped files
// ---------------------------------------------------------------------------

/// What is to be done with a dropped file.
#[derive(Clone, Copy, Debug, PartialEq, Eq, Structural)]
pub enum DropAction {
    OpenPdf,
    AddImage,
    Nothing,
}

impl AppView {
    /// The state after a file has been dropped, and what is to be done with it.
    pub open spec fn after_drop(self, kind: FileKind, shown: Seq<char>) -> (AppView, DropAction) {
        match kind {
            FileKind::Pdf => (self, DropAction::OpenPdf),
            FileKind::Image => if self.has_page() {
                (self, DropAction::AddImage)
            } else {
                (
                    self.with_status("Drop a PDF first, then drop the signature image."@),
                    DropAction::Nothing,
                )
            },
            FileKind::Other => (
                self.with_status("Unsupported file type: "@ + shown),
                DropAction::Nothing,
            ),
        }
    }
}

impl App {
    /// Decide what to do with a dropped file, by its extension. `shown` is its path
    /// as it is shown to the user.
    pub fn handle_dropped_file(&mut self, extension: Option<&str>, shown: &str) -> (r: DropAction)
        requires
            old(self).wf(),
        ensures
            (final(self)@, r) == old(self)@.after_drop(kind_of(text_view(extension)), shown@),
            final(self).wf(),
    {
        match file_kind(extension) {
            FileKind::Pdf => DropAction::OpenPdf,
            FileKind::Image => {
                if self.pages.len() > 0 {
                    DropAction::AddImage
                } else {
                    self.status = labelled("Drop a PDF first, then drop the signature image.", "");
                    proof {
                        reveal_strlit("");
                        assert(self.status@
                            =~= "Drop a PDF first, then drop the signature image."@);
                    }
                    DropAction::Nothing
                }
            },
            FileKind::Other => {
                self.status = labelled("Unsupported file type: ", shown);
                DropAction::Nothing
            },
        }
    }
}

// ---------------------------------------------------------------------------
// The wheel
// ---------------------------------------------------------------------------

/// The page and the rest after the wheel has turned by `total` in all.
pub open spec fn paged(total: int, current: int, pages: int) -> (int, int) {
    let t = WHEEL_PAGE_THRESHOLD as int;
    if total >= t {
        let n = total / t;
        (
            if n <= current {
                current - n
            } else {
                0
            },
            total % t,
        )
    } else if total <= -t {
        let n = (-total) / t;
        (
            if current + n < pages {
                current + n
            } else {
                pages - 1
            },
            -((-total) % t),
        )
    } else {
        (current, total)
    }
}

impl AppView {
    /// The state after the wheel has turned. With a selection its direction resizes;
    /// otherwise it turns pages, one for each full step.
    pub open spec fn after_wheel(self, direction: int, distance: int) -> AppView {
        if !self.has_page() || self.help_open {
            self
        } else if self.selected.len() > 0 {
            let a = if direction != 0 {
                self.size_adjusted(direction)
            } else {
                self
            };
            AppView { wheel_accum: 0, ..a }
        } else {
            let (current, rest) = paged(
                self.wheel_accum + distance,
                self.current,
                self.pages.len() as int,
            );
            AppView { current, wheel_accum: rest, ..self }
        }
    }
}

impl App {
    /// Turn the wheel: `direction` is the sign of the notches that were turned, and
    /// `distance` how far the page would scroll.
    pub fn handle_wheel(&mut self, direction: i32, distance: i64)
        requires
            old(self).wf(),
            -1 <= direction <= 1,
            in_range(distance as int),
        ensures
            final(self)@ == old(self)@.after_wheel(direction as int, distance as int),
            final(self).wf(),
    {
        if self.pages.len() == 0 || self.help_open {
            return;
        }
        if self.selected.len() > 0 {
            if direction != 0 {
                self.adjust_size(direction);
            }
            self.wheel_accum = 0;
            return;
        }
        let total = self.wheel_accum + distance;
        let t = WHEEL_PAGE_THRESHOLD;
        if total >= t {
            let n = (total / t) as u64;
            self.wheel_accum = total % t;
            self.current = if n <= self.current as u64 {
                self.current - n as usize
            } else {
                0
            };
        } else if total <= -t {
            let n = ((-total) / t) as u64;
            self.wheel_accum = -((-total) % t);
            let last = self.pages.len() - 1;
            self.current = if n <= (last - self.current) as u64 {
                self.current + n as usize
            } else {
                last
            };
        } else {
            self.wheel_accum = total;
        }
    }
}

/// Turning the wheel by a whole step moves on by one page, unless the pages end there,
/// and turning it back leaves everything as it was.
pub proof fn wheel_turns_back(app: AppView)
    requires
        app.wf(),
        app.has_page(),
        !app.help_open,
        app.selected.len() == 0,
        app.current + 1 < app.pages.len(),
        app.wheel_accum == 0,
    ensures
        app.after_wheel(0, -WHEEL_PAGE_THRESHOLD as int).current == app.current + 1,
        app.after_wheel(0, -WHEEL_PAGE_THRESHOLD as int).after_wheel(
            0,
            WHEEL_PAGE_THRESHOLD as int,
        ) == app,
{
}

proof fn lemma_turns_add_up(v: int, b: int, t: int)
    requires
        t > 0,
        v >= 0,
        b >= 0,
    ensures
        (v + b) / t == v / t + (v % t + b) / t,
        (v + b) % t == (v % t + b) % t,
        0 <= v % t < t,
        0 <= v / t,
        0 <= (v % t + b) / t,
        (v < t ==> v % t == v && v / t == 0),
        (v % t + b < t ==> (v % t + b) / t == 0 && (v % t + b) % t == v % t + b),
        (v >= t ==> v / t >= 1),
{
    vstd::arithmetic::div_mod::lemma_fundamental_div_mod(v, t);
    vstd::arithmetic::div_mod::lemma_fundamental_div_mod(v % t + b, t);
    let q = v / t + (v % t + b) / t;
    let r = (v % t + b) % t;
    assert(v + b == t * q + r) by (nonlinear_arith)
        requires
            v == t * (v / t) + v % t,
            v % t + b == t * ((v % t + b) / t) + r,
            q == v / t + (v % t + b) / t,
    ;
    vstd::arithmetic::div_mod::lemma_fundamental_div_mod_converse(v + b, t, q, r);
    assert(v / t >= 1 || v < t) by (nonlinear_arith)
        requires
            v == t * (v / t) + v % t,
            0 <= v % t < t,
            t > 0,
    ;
    assert(0 <= v / t && 0 <= (v % t + b) / t) by (nonlinear_arith)
        requires
            v >= 0,
            b >= 0,
            t > 0,
            0 <= v % t,
    ;
    if v < t {
        vstd::arithmetic::div_mod::lemma_fundamental_div_mod_converse(v, t, 0, v);
    }
    if v % t + b < t {
        vstd::arithmetic::div_mod::lemma_fundamental_div_mod_converse(v % t + b, t, 0, v % t + b);
    }
}

/// Turning the wheel one way in two goes passes the same pages as turning it in one,
/// in either direction, as long as the end of the document is not reached.
pub proof fn wheel_adds_up(app: AppView, a: int, b: int)
    requires
        app.wf(),
        app.has_page(),
        !app.help_open,
        app.selected.len() == 0,
        ({
            ||| 0 <= app.wheel_accum && 0 <= a && 0 <= b && (app.wheel_accum + a + b) / (
            WHEEL_PAGE_THRESHOLD as int) <= app.current
            ||| app.wheel_accum <= 0 && a <= 0 && b <= 0 && app.current + (-(app.wheel_accum + a
                + b)) / (WHEEL_PAGE_THRESHOLD as int) < app.pages.len()
        }),
    ensures
        app.after_wheel(0, a).after_wheel(0, b) == app.after_wheel(0, a + b),
{
    let t = WHEEL_PAGE_THRESHOLD as int;
    let v = app.wheel_accum + a;
    if 0 <= app.wheel_accum && 0 <= a && 0 <= b {
        lemma_turns_add_up(v, b, t);
        lemma_turns_add_up(v + b, 0, t);
    } else {
        lemma_turns_add_up(-v, -b, t);
        lemma_turns_add_up(-v - b, 0, t);
    }
}

// ---------------------------------------------------------------------------
// Keys over the page
// ---------------------------------------------------------------------------

/// A mark as the redaction that it awaits; anything else as it is.
pub open spec fn committed(o: OverlayView) -> OverlayView {
    match o {
        OverlayView::PendingMark { x, y, w, h } => OverlayView::Redact { x, y, w, h },
        _ => o,
    }
}

/// All marks as the redactions that they await.
pub open spec fn all_committed(overlays: Seq<OverlayView>) -> Seq<OverlayView> {
    overlays.map_values(|o: OverlayView| committed(o))
}

impl AppView {
    /// The state with a new text at a position.
    pub open spec fn stamped(self, text: Seq<char>, at: Point) -> AppView {
        self.placed(text_at(text, at.x as int, at.y as int, self.text_size, self.text_color))
    }

    /// The state after a key has been pressed over the page. `pos` is where the
    /// pointer is on the screen and `at` where on the page.
    pub open spec fn after_page_key(self, e: KeyEvent, pos: Point, at: Point, today: Date) -> AppView {
        if e.repeat || e.is_chord() {
            self
        } else {
            match (e.key, e.shift) {
                (Key::S, false) => self.stamped(today.de_text(), at),
                (Key::S, true) => self.stamped(today.us_text(), at),
                (Key::X, false) => self.stamped("x"@, at),
                (Key::T, false) => AppView {
                    editing: Some(self.overlays().len() as usize),
                    editing_just_focused: false,
                    ..self.stamped(Seq::empty(), at)
                },
                (Key::D, false) => self.deleted(),
                (Key::C, false) => if self.first_selected_color() is Some {
                    AppView {
                        color_menu: if self.color_menu is Some {
                            None
                        } else {
                            Some(pos)
                        },
                        ..self
                    }
                } else {
                    self
                },
                (Key::B, true) => if self.block_mode {
                    self
                } else {
                    AppView { mark_mode: !self.mark_mode, selected: Seq::empty(), ..self }
                },
                (Key::B, false) => if self.mark_mode {
                    self.with_overlays(
                        merged_overlays(all_committed(self.overlays()), RectKind::Redact),
                    )
                } else {
                    AppView { block_mode: !self.block_mode, selected: Seq::empty(), ..self }
                },
                (Key::Escape, _) => if self.block_mode || self.mark_mode {
                    AppView {
                        block_mode: false,
                        mark_mode: false,
                        ..self.with_overlays(others_of(self.overlays(), RectKind::PendingMark))
                    }
                } else {
                    self
                },
                (Key::R, false) => AppView { show_redacts: !self.show_redacts, ..self },
                _ => self,
            }
        }
    }

    /// The state after keys have been pressed over the page, one after the other.
    pub open spec fn after_page_keys(
        self,
        events: Seq<KeyEvent>,
        pos: Point,
        at: Point,
        today: Date,
    ) -> AppView
        decreases events.len(),
    {
        if events.len() == 0 {
            self
        } else {
            self.after_page_keys(events.drop_last(), pos, at, today).after_page_key(
                events.last(),
                pos,
                at,
                today,
            )
        }
    }
}

fn commit_marks(overlays: &mut Vec<Overlay>)
    requires
        overlays_wf(overlay_views(old(overlays)@)),
    ensures
        overlay_views(final(overlays)@) == all_committed(overlay_views(old(overlays)@)),
        overlays_wf(overlay_views(final(overlays)@)),
{
    let ghost start = overlay_views(overlays@);
    let n = overlays.len();
    let mut i: usize = 0;
    while i < n
        invariant
            n == overlays.len(),
            n == start.len(),
            i <= n,
            forall|k: int| 0 <= k < i ==> (#[trigger] overlays@[k])@ == committed(start[k]),
            forall|k: int| i <= k < n ==> (#[trigger] overlays@[k])@ == start[k],
        decreases n - i,
    {
        assert(overlays@[i as int]@ == start[i as int]);
        if let Overlay::PendingMark { x, y, w, h } = &overlays[i] {
            let o = Overlay::Redact { x: *x, y: *y, w: *w, h: *h };
            overlays[i] = o;
        }
        i += 1;
    }
    assert(overlay_views(overlays@) =~= all_committed(start));
    assert forall|k: int| 0 <= k < n implies (#[trigger] overlay_views(overlays@)[k]).wf() by {
        assert(start[k].wf());
    }
}

fn discard_marks(overlays: &mut Vec<Overlay>)
    ensures
        overlay_views(final(overlays)@) == others_of(
            overlay_views(old(overlays)@),
            RectKind::PendingMark,
        ),
{
    let ghost start = overlay_views(overlays@);
    let ghost mut seen: int = 0;
    let mut i: usize = 0;
    assert(start.take(0) =~= Seq::empty());
    assert(start.skip(0) =~= start);
    while i < overlays.len()
        invariant
            i <= overlays.len(),
            0 <= seen <= start.len(),
            overlay_views(overlays@).take(i as int) == others_of(
                start.take(seen),
                RectKind::PendingMark,
            ),
            overlay_views(overlays@).skip(i as int) == start.skip(seen),
        decreases overlays.len() - i,
    {
        let ghost views = overlay_views(overlays@);
        assert(views.skip(i as int).len() == start.skip(seen).len());
        assert(views[i as int] == views.skip(i as int)[0]);
        assert(views[i as int] == start[seen]);
        assert(start.take(seen + 1).drop_last() =~= start.take(seen));
        assert(start.skip(seen).skip(1) =~= start.skip(seen + 1));
        if overlays[i].is_pending_mark() {
            overlays.remove(i);
            assert(overlay_views(overlays@) =~= views.remove(i as int));
            assert(views.remove(i as int).take(i as int) =~= views.take(i as int));
            assert(views.remove(i as int).skip(i as int) =~= views.skip(i as int).skip(1));
        } else {
            i += 1;
            assert(views.take(i as int) =~= views.take(i - 1).push(views[i - 1]));
            assert(views.skip(i as int) =~= views.skip(i - 1).skip(1));
        }
        proof {
            seen = seen + 1;
        }
    }
    proof {
        assert(overlay_views(overlays@).skip(i as int).len() == 0);
        assert(start.skip(seen).len() == 0);
        assert(start.take(seen) =~= start);
        assert(overlay_views(overlays@).take(i as int) =~= overlay_views(overlays@));
    }
}

impl App {
    fn stamp(&mut self, text: String, at: Point) -> (r: usize)
        requires
            old(self).wf(),
            old(self)@.has_page(),
            at.wf(),
        ensures
            final(self)@ == old(self)@.stamped(text@, at),
            final(self).wf(),
            r == old(self)@.overlays().len(),
    {
        self.add_text_at(text, at.x, at.y)
    }

    #[verifier::rlimit(40)]
    fn handle_page_key(&mut self, e: KeyEvent, pos: Point, at: Point, today: Date)
        requires
            old(self).wf(),
            old(self)@.has_page(),
            pos.wf(),
            at.wf(),
            today.wf(),
        ensures
            final(self)@ == old(self)@.after_page_key(e, pos, at, today),
            final(self).wf(),
            final(self)@.has_page(),
            final(self)@.current == old(self)@.current,
    {
        proof {
            assert(self@.pages[self.current as int].wf());
        }
        if e.repeat || e.chord() {
            return;
        }
        match e.key {
            Key::S => {
                let text = date_text(today, e.shift);
                self.stamp(text, at);
            },
            Key::X => {
                if !e.shift {
                    let mut text = String::new();
                    text.append("x");
                    assert(text@ =~= "x"@);
                    self.stamp(text, at);
                }
            },
            Key::T => {
                if !e.shift {
                    let text = String::new();
                    assert(text@ =~= Seq::empty());
                    let idx = self.stamp(text, at);
                    self.editing = Some(idx);
                    self.editing_just_focused = false;
                }
            },
            Key::D => {
                if !e.shift {
                    self.delete_selected();
                }
            },
            Key::C => {
                if !e.shift && self.first_selected_text_color().is_some() {
                    self.color_menu = if self.color_menu.is_some() {
                        None
                    } else {
                        Some(pos)
                    };
                }
            },
            Key::B => {
                if e.shift {
                    if !self.block_mode {
                        self.mark_mode = !self.mark_mode;
                        self.selected = Vec::new();
                        assert(self.selected@ =~= Seq::empty());
                    }
                } else if self.mark_mode {
                    let overlays = self.overlays_mut();
                    commit_marks(overlays);
                    merge_overlapping_redacts(overlays);
                } else {
                    self.block_mode = !self.block_mode;
                    self.selected = Vec::new();
                    assert(self.selected@ =~= Seq::empty());
                }
            },
            Key::Escape => {
                if self.block_mode || self.mark_mode {
                    self.block_mode = false;
                    self.mark_mode = false;
                    proof {
                        lemma_others_wf(self@.overlays(), RectKind::PendingMark);
                    }
                    discard_marks(self.overlays_mut());
                }
            },
            Key::R => {
                if !e.shift {
                    self.show_redacts = !self.show_redacts;
                }
            },
            _ => {},
        }
    }

    /// The keys that work where the pointer is over the page:
    /// `s` and `Shift+S` stamp the date, `x` a cross, and `t` begins a text; `d`
    /// deletes the selection, `c` opens or closes the colour menu, `Shift+B` turns
    /// the mark mode on or off, `b` commits the marks or turns the block mode on or
    /// off, `Esc` leaves both modes, and `r` shows or hides the redactions.
    pub fn handle_page_hotkeys(
        &mut self,
        events: &Vec<KeyEvent>,
        hover: Option<Point>,
        layout: PageLayout,
        today: Date,
    )
        requires
            old(self).wf(),
            old(self)@.has_page(),
            crate::app::point_wf(hover),
            layout.page_rect.wf(),
            scale_wf(layout.scale),
            today.wf(),
        ensures
            final(self)@ == match hover {
                Some(pos) => if on_page(old(self)@, pos, layout) {
                    old(self)@.after_page_keys(events@, pos, page_position(pos, layout), today)
                } else {
                    old(self)@
                },
                None => old(self)@,
            },
            final(self).wf(),
    {
        let pos = match hover {
            Some(pos) => pos,
            None => return,
        };
        let at = screen_to_pdf(pos, layout.page_rect, layout.scale);
        let size = self.pages[self.current].size_pt;
        if !(0 <= at.x && at.x <= size.0 && 0 <= at.y && at.y <= size.1) {
            return;
        }
        let n = events.len();
        let mut i: usize = 0;
        assert(events@.take(0) =~= Seq::empty());
        while i < n
            invariant
                n == events.len(),
                i <= n,
                self.wf(),
                self@.has_page(),
                pos.wf(),
                at.wf(),
                today.wf(),
                at == page_position(pos, layout),
                self@ == old(self)@.after_page_keys(events@.take(i as int), pos, at, today),
            decreases n - i,
        {
            let e = events[i];
            assert(events@.take(i + 1).drop_last() =~= events@.take(i as int));
            self.handle_page_key(e, pos, at, today);
            i += 1;
        }
        assert(events@.take(n as int) =~= events@);
    }
}

/// Where on the page a position of the screen lies.
pub open spec fn page_position(pos: Point, layout: PageLayout) -> Point {
    Point {
        x: points(pos.x - layout.page_rect.x, layout.scale) as i64,
        y: points(pos.y - layout.page_rect.y, layout.scale) as i64,
    }
}

/// A position of the screen lies on the page that is shown.
pub open spec fn on_page(app: AppView, pos: Point, layout: PageLayout) -> bool {
    let at = page_position(pos, layout);
    let size = app.pages[app.current].size_pt;
    0 <= at.x <= size.0 && 0 <= at.y <= size.1
}

/// An unmodified key.
pub open spec fn plain_key(key: Key) -> KeyEvent {
    KeyEvent { key, repeat: false, shift: false, ctrl: false, command: false, alt: false }
}

/// Committing leaves no mark behind, and no two redactions with a common area;
/// the mark mode stays on.
pub proof fn commit_leaves_no_marks(app: AppView, pos: Point, at: Point, today: Date)
    requires
        app.wf(),
        app.has_page(),
        app.mark_mode,
    ensures
        ({
            let after = app.after_page_key(plain_key(Key::B), pos, at, today);
            &&& after.mark_mode
            &&& rects_of(after.overlays(), RectKind::PendingMark).len() == 0
            &&& apart(rects_of(after.overlays(), RectKind::Redact))
        }),
{
    let all = all_committed(app.overlays());
    let after = merged_overlays(all, RectKind::Redact);
    merge_settles(all, RectKind::Redact);
    lemma_committed_has_no_marks(app.overlays());
    lemma_no_marks_in_others(all);
    let front = others_of(all, RectKind::Redact);
    let tail = merged(rects_of(all, RectKind::Redact)).map_values(
        |r: Rect| of_kind(RectKind::Redact, r),
    );
    lemma_no_marks_in_concat(front, tail);
    let view = app.after_page_key(plain_key(Key::B), pos, at, today);
    assert(view.overlays() == after);
}

proof fn lemma_committed_has_no_marks(overlays: Seq<OverlayView>)
    ensures
        rects_of(all_committed(overlays), RectKind::PendingMark).len() == 0,
    decreases overlays.len(),
{
    if overlays.len() > 0 {
        lemma_committed_has_no_marks(overlays.drop_last());
        assert(all_committed(overlays).drop_last() =~= all_committed(overlays.drop_last()));
    }
}

proof fn lemma_no_marks_in_others(overlays: Seq<OverlayView>)
    requires
        rects_of(overlays, RectKind::PendingMark).len() == 0,
    ensures
        rects_of(others_of(overlays, RectKind::Redact), RectKind::PendingMark).len() == 0,
    decreases overlays.len(),
{
    if overlays.len() > 0 {
        lemma_no_marks_in_others(overlays.drop_last());
        let front = others_of(overlays.drop_last(), RectKind::Redact);
        assert(front.push(overlays.last()).drop_last() =~= front);
    }
}

proof fn lemma_no_marks_in_concat(front: Seq<OverlayView>, tail: Seq<OverlayView>)
    requires
        rects_of(front, RectKind::PendingMark).len() == 0,
        forall|i: int| 0 <= i < tail.len() ==> (#[trigger] tail[i]) is Redact,
    ensures
        rects_of(front + tail, RectKind::PendingMark).len() == 0,
    decreases tail.len(),
{
    if tail.len() == 0 {
        assert(front + tail =~= front);
    } else {
        assert((front + tail).drop_last() =~= front + tail.drop_last());
        lemma_no_marks_in_concat(front, tail.drop_last());
    }
}

/// Leaving the modes discards all marks and nothing else.
pub proof fn escape_discards_marks(app: AppView, pos: Point, at: Point, today: Date)
    requires
        app.wf(),
        app.has_page(),
        app.block_mode || app.mark_mode,
    ensures
        ({
            let after = app.after_page_key(plain_key(Key::Escape), pos, at, today);
            &&& !after.block_mode && !after.mark_mode
            &&& rects_of(after.overlays(), RectKind::PendingMark).len() == 0
            &&& others_of(after.overlays(), RectKind::PendingMark) == others_of(
                app.overlays(),
                RectKind::PendingMark,
            )
        }),
{
    let others = others_of(app.overlays(), RectKind::PendingMark);
    lemma_others_not_of_kind(app.overlays(), RectKind::PendingMark);
    lemma_only_others(others);
}

proof fn lemma_only_others(overlays: Seq<OverlayView>)
    requires
        forall|i: int|
            0 <= i < overlays.len() ==> rect_of(#[trigger] overlays[i], RectKind::PendingMark) is None,
    ensures
        rects_of(overlays, RectKind::PendingMark).len() == 0,
        others_of(overlays, RectKind::PendingMark) == overlays,
    decreases overlays.len(),
{
    if overlays.len() > 0 {
        let front = overlays.drop_last();
        assert forall|i: int| 0 <= i < front.len() implies rect_of(
            #[trigger] front[i],
            RectKind::PendingMark,
        ) is None by {
            assert(rect_of(overlays[i], RectKind::PendingMark) is None);
        }
        lemma_only_others(front);
        assert(rect_of(overlays[overlays.len() - 1], RectKind::PendingMark) is None);
        assert(front.push(overlays.last()) =~= overlays);
    } else {
        assert(others_of(overlays, RectKind::PendingMark) =~= overlays);
    }
}

/// The block mode and the mark mode are never both on, whatever keys are pressed over
/// the page.
pub proof fn modes_exclude_each_other(
    app: AppView,
    events: Seq<KeyEvent>,
    pos: Point,
    at: Point,
    today: Date,
)
    requires
        !(app.block_mode && app.mark_mode),
    ensures
        ({
            let after = app.after_page_keys(events, pos, at, today);
            !(after.block_mode && after.mark_mode)
        }),
    decreases events.len(),
{
    if events.len() > 0 {
        modes_exclude_each_other(app, events.drop_last(), pos, at, today);
    }
}

/// The keys that work everywhere turn neither the block mode nor the mark mode on or off.
pub proof fn global_keys_keep_modes(app: AppView, keys: GlobalKeys)
    ensures
        app.after_global_keys(keys).0.block_mode == app.block_mode,
        app.after_global_keys(keys).0.mark_mode == app.mark_mode,
{
}

/// Showing and hiding redactions only ever changes that: the overlays that are
/// saved are the same, and the key pressed twice changes nothing.
pub proof fn hiding_keeps_redactions(app: AppView, pos: Point, at: Point, today: Date)
    ensures
        app.after_page_key(plain_key(Key::R), pos, at, today).pages == app.pages,
        app.after_page_key(plain_key(Key::R), pos, at, today).after_page_key(
            plain_key(Key::R),
            pos,
            at,
            today,
        ) == app,
{
}

} // verus!
