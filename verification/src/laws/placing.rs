//! Stamping, placing and duplicating, by what is then on the page.

use vstd::prelude::*;

use crate::app::{
    duplicate_of, image_around, image_centred, indices, text_at, with_duplicates, AppView,
};
use crate::input::{on_page, page_position, Key, KeyEvent};
use crate::laws::filter::{digits_count_tens, writes};
use crate::laws::moving::{
    at_most, extents_at_most, is_nearest_length, place_of, same_but_place,
    screen_is_divided_by_the_scale,
};
use crate::numtext::digit_char;
use crate::overlay::OverlayView;
use crate::screen::{PageLayout, Point};
use crate::stamp::{two_digits, Date};

use crate::units::{rounded, rounded_is_nearest, COORD_LIMIT};

verus! {

// ---------------------------------------------------------------------------
// Dates
// ---------------------------------------------------------------------------

proof fn lemma_two_digits(n: int)
    requires
        0 <= n < 100,
    ensures
        two_digits(n).len() == 2,
        writes(two_digits(n), n as nat),
{
    let none = Seq::<char>::empty();
    let a = digit_char(n / 10 % 10);
    let b = digit_char(n % 10);
    digits_count_tens(none, a);
    digits_count_tens(none.push(a), b);
    assert(two_digits(n) =~= none.push(a).push(b));
}

proof fn lemma_four_digits(n: int)
    requires
        0 <= n <= 9999,
    ensures
        crate::stamp::four_digits(n).len() == 4,
        writes(crate::stamp::four_digits(n), n as nat),
{
    let none = Seq::<char>::empty();
    let a = digit_char(n / 100 / 10 % 10);
    let b = digit_char(n / 100 % 10);
    let c = digit_char(n / 10 % 10);
    let d = digit_char(n % 10);
    digits_count_tens(none, a);
    digits_count_tens(none.push(a), b);
    digits_count_tens(none.push(a).push(b), c);
    digits_count_tens(none.push(a).push(b).push(c), d);
    assert(crate::stamp::four_digits(n) =~= none.push(a).push(b).push(c).push(d));
    assert(n / 10 / 10 == n / 100);
}

/// A German date is the day, the month and the year, in two, two and four digits with
/// points between them; an American one the month, the day and the year, with slashes.
pub proof fn dates_are_written_in_digits(date: Date)
    requires
        date.wf(),
    ensures
        ({
            let de = date.de_text();
            let us = date.us_text();
            &&& de.len() == 10 && us.len() == 10
            &&& de[2] == '.' && de[5] == '.'
            &&& us[2] == '/' && us[5] == '/'
            &&& writes(de.subrange(0, 2), date.day as nat)
            &&& writes(de.subrange(3, 5), date.month as nat)
            &&& writes(de.subrange(6, 10), date.year as nat)
            &&& writes(us.subrange(0, 2), date.month as nat)
            &&& writes(us.subrange(3, 5), date.day as nat)
            &&& writes(us.subrange(6, 10), date.year as nat)
        }),
{
    lemma_two_digits(date.day as int);
    lemma_two_digits(date.month as int);
    lemma_four_digits(date.year as int);
    let de = date.de_text();
    let us = date.us_text();
    assert(de.subrange(0, 2) =~= two_digits(date.day as int));
    assert(de.subrange(3, 5) =~= two_digits(date.month as int));
    assert(de.subrange(6, 10) =~= crate::stamp::four_digits(date.year as int));
    assert(us.subrange(0, 2) =~= two_digits(date.month as int));
    assert(us.subrange(3, 5) =~= two_digits(date.day as int));
    assert(us.subrange(6, 10) =~= crate::stamp::four_digits(date.year as int));
}

// ---------------------------------------------------------------------------
// What a step changes
// ---------------------------------------------------------------------------

/// Two states differ at most in what lies on the page that is shown and in what is
/// selected.
pub open spec fn same_but_overlays(a: AppView, b: AppView) -> bool {
    &&& b == (AppView { pages: b.pages, selected: b.selected, ..a })
    &&& b.pages.len() == a.pages.len()
    &&& forall|i: int|
        0 <= i < a.pages.len() ==> (#[trigger] b.pages[i]).size_pt == a.pages[i].size_pt
    &&& forall|i: int|
        0 <= i < a.pages.len() && i != a.current ==> #[trigger] b.pages[i] == a.pages[i]
}

/// What lies on the page that is shown.
pub open spec fn shown(app: AppView) -> Seq<OverlayView> {
    app.pages[app.current].overlays
}

/// A text lies on the page in the size and colour of new text, with its first baseline
/// beginning at a position.
pub open spec fn text_begins_at(app: AppView, o: OverlayView, text: Seq<char>, at: Point) -> bool {
    match o {
        OverlayView::Text { text: t, x, y, size_pt, color } => {
            &&& t == text
            &&& x == at.x
            &&& -500 <= 1000 * (at.y - y) - 969 * size_pt <= 500
            &&& size_pt == app.text_size
            &&& color == app.text_color
        },
        _ => false,
    }
}

/// One overlay more lies on the page, on top of the others, and it alone is selected.
pub open spec fn one_more(before: AppView, after: AppView) -> bool {
    &&& shown(after).len() == shown(before).len() + 1
    &&& shown(after).drop_last() == shown(before)
    &&& after.selected == seq![shown(before).len() as usize]
}

proof fn lemma_text_at(app: AppView, text: Seq<char>, at: Point)
    requires
        app.wf(),
        -(COORD_LIMIT / 2) <= at.y <= COORD_LIMIT / 2,
    ensures
        text_begins_at(
            app,
            text_at(text, at.x as int, at.y as int, app.text_size, app.text_color),
            text,
            at,
        ),
{
    rounded_is_nearest(app.text_size * 969, 1000);
    let up = rounded(app.text_size * 969, 1000);
    assert(-1_000_000 <= up <= 1_000_000);
}

/// A key without Ctrl, Alt or the like, that is not held down.
pub open spec fn pressed(key: Key, shift: bool) -> KeyEvent {
    KeyEvent { key, repeat: false, shift, ctrl: false, command: false, alt: false }
}

/// The keys `s`, `Shift+S` and `x` stamp the German date, the American date and a cross,
/// and `t` begins an empty text, which is then edited. The stamp begins at the pointer;
/// nothing else changes.
pub proof fn stamps_land_at_the_pointer(app: AppView, pos: Point, at: Point, today: Date)
    requires
        app.wf(),
        app.has_page(),
        -(COORD_LIMIT / 2) <= at.y <= COORD_LIMIT / 2,
    ensures
        ({
            let n = shown(app).len() as int;
            let de = app.after_page_key(pressed(Key::S, false), pos, at, today);
            let us = app.after_page_key(pressed(Key::S, true), pos, at, today);
            let cross = app.after_page_key(pressed(Key::X, false), pos, at, today);
            let new = app.after_page_key(pressed(Key::T, false), pos, at, today);
            &&& one_more(app, de) && same_but_overlays(app, de)
            &&& text_begins_at(app, shown(de)[n], today.de_text(), at)
            &&& one_more(app, us) && same_but_overlays(app, us)
            &&& text_begins_at(app, shown(us)[n], today.us_text(), at)
            &&& one_more(app, cross) && same_but_overlays(app, cross)
            &&& text_begins_at(app, shown(cross)[n], seq!['x'], at)
            &&& one_more(app, new) && same_but_overlays(
                AppView { editing: Some(n as usize), editing_just_focused: false, ..app },
                new,
            )
            &&& text_begins_at(app, shown(new)[n], Seq::empty(), at)
        }),
{
    reveal_strlit("x");
    assert("x"@ =~= seq!['x']);
    lemma_text_at(app, today.de_text(), at);
    lemma_text_at(app, today.us_text(), at);
    lemma_text_at(app, "x"@, at);
    lemma_text_at(app, Seq::empty(), at);
    lemma_stamped(app, today.de_text(), at);
    lemma_stamped(app, today.us_text(), at);
    lemma_stamped(app, "x"@, at);
    lemma_stamped(app, Seq::empty(), at);
}

proof fn lemma_stamped(app: AppView, text: Seq<char>, at: Point)
    requires
        app.wf(),
        app.has_page(),
    ensures
        ({
            let after = app.stamped(text, at);
            &&& one_more(app, after)
            &&& same_but_overlays(app, after)
            &&& shown(after)[shown(app).len() as int] == text_at(
                text,
                at.x as int,
                at.y as int,
                app.text_size,
                app.text_color,
            )
        }),
{
    let after = app.stamped(text, at);
    assert(shown(after).drop_last() =~= shown(app));
    assert(after.selected =~= seq![shown(app).len() as usize]);
}

/// Where on the page the pointer is: its distance from the corner of the page on the
/// screen, divided by the scale.
pub proof fn pointer_is_found_on_the_page(pos: Point, layout: PageLayout)
    requires
        layout.scale > 0,
        at_most(pos.x - layout.page_rect.x, layout.scale, COORD_LIMIT as int),
        at_most(pos.y - layout.page_rect.y, layout.scale, COORD_LIMIT as int),
    ensures
        is_nearest_length(
            page_position(pos, layout).x as int,
            pos.x - layout.page_rect.x,
            layout.scale,
        ),
        is_nearest_length(
            page_position(pos, layout).y as int,
            pos.y - layout.page_rect.y,
            layout.scale,
        ),
{
    screen_is_divided_by_the_scale(
        pos.x - layout.page_rect.x,
        layout.scale,
        COORD_LIMIT as int,
    );
    screen_is_divided_by_the_scale(
        pos.y - layout.page_rect.y,
        layout.scale,
        COORD_LIMIT as int,
    );
}

/// Keys with Ctrl, Alt or the like, keys that repeat, and all other keys do nothing over
/// the page.
pub proof fn other_keys_do_nothing(
    app: AppView,
    e: KeyEvent,
    pos: Point,
    at: Point,
    today: Date,
)
    requires
        e.repeat || e.ctrl || e.command || e.alt || e.key == Key::Other || e.key == Key::Plus
            || e.key == Key::Equals || e.key == Key::Minus || (e.shift && (e.key == Key::X || e.key
            == Key::T || e.key == Key::D || e.key == Key::C || e.key == Key::R)),
    ensures
        app.after_page_key(e, pos, at, today) == app,
{
}

/// The key `b` turns the block mode on or off and drops the selection, unless marks are
/// being made; `Shift+B` does so with the mark mode, unless the block mode is on; `r` shows
/// or hides redactions. None of them changes what lies on a page.
pub proof fn mode_keys(app: AppView, pos: Point, at: Point, today: Date)
    ensures
        ({
            let b = app.after_page_key(pressed(Key::B, false), pos, at, today);
            let sb = app.after_page_key(pressed(Key::B, true), pos, at, today);
            let r = app.after_page_key(pressed(Key::R, false), pos, at, today);
            &&& !app.mark_mode ==> b == (AppView {
                block_mode: !app.block_mode,
                selected: Seq::empty(),
                ..app
            })
            &&& !app.block_mode ==> sb == (AppView {
                mark_mode: !app.mark_mode,
                selected: Seq::empty(),
                ..app
            })
            &&& app.block_mode ==> sb == app
            &&& r == (AppView { show_redacts: !app.show_redacts, ..app })
        }),
{
}

/// The key `c` opens the colour menu at the pointer where a text is selected, and closes
/// it again.
pub proof fn colour_key(app: AppView, pos: Point, at: Point, today: Date, k: int)
    requires
        app.has_page(),
        0 <= k < app.selected.len(),
        app.selected[k] < shown(app).len(),
        shown(app)[app.selected[k] as int] is Text,
    ensures
        ({
            let c = app.after_page_key(pressed(Key::C, false), pos, at, today);
            &&& app.color_menu is None ==> c == (AppView { color_menu: Some(pos), ..app })
            &&& app.color_menu is Some ==> c == (AppView { color_menu: None, ..app })
        }),
{
    lemma_color_found(shown(app), app.selected, k);
}

proof fn lemma_color_found(overlays: Seq<OverlayView>, selected: Seq<usize>, k: int)
    requires
        0 <= k < selected.len(),
        selected[k] < overlays.len(),
        overlays[selected[k] as int] is Text,
    ensures
        crate::app::first_color(overlays, selected) is Some,
    decreases k,
{
    if k > 0 {
        assert(selected.drop_first()[k - 1] == selected[k]);
        lemma_color_found(overlays, selected.drop_first(), k - 1);
    }
}

// ---------------------------------------------------------------------------
// Pictures
// ---------------------------------------------------------------------------

/// A picture is placed 150 points wide and in its own proportion, with its middle at the
/// given position; and in the middle of a page likewise.
pub proof fn pictures_are_placed_by_their_middle(
    path: Seq<u8>,
    iw: u32,
    ih: u32,
    x: int,
    y: int,
    size: (i64, i64),
)
    requires
        iw > 0,
        -(COORD_LIMIT / 2) <= x <= COORD_LIMIT / 2,
        -(COORD_LIMIT / 2) <= y <= COORD_LIMIT / 2,
    ensures
        ({
            let around = image_around(path, iw, ih, x, y);
            let centred = image_centred(path, iw, ih, size);
            &&& is_placed(around, path, iw, ih, 2 * x, 2 * y)
            &&& is_placed(centred, path, iw, ih, size.0 as int, size.1 as int)
        }),
{
    let h = rounded(1_500_000 * ih, iw as int);
    rounded_is_nearest(1_500_000 * ih, iw as int);
    assert(1_500_000 * ih <= 1_500_000 * 0xffff_ffff * iw) by (nonlinear_arith)
        requires
            ih <= 0xffff_ffff,
            iw >= 1,
    ;
    assert(0 <= h <= 1_500_000 * 0xffff_ffff + 1) by (nonlinear_arith)
        requires
            -iw <= 2 * (h * iw - 1_500_000 * ih) <= iw,
            1_500_000 * ih <= 1_500_000 * 0xffff_ffff * iw,
            ih >= 0,
            iw >= 1,
    ;
    rounded_is_nearest(2 * y - h, 2);
    rounded_is_nearest(size.0 - 1_500_000, 2);
    rounded_is_nearest(size.1 - h, 2);
}

/// A picture of the given file lies around a position, of which twice the coordinates are
/// given, 150 points wide and as high as its pixels ask for, to the nearest tick.
pub open spec fn is_placed(
    o: OverlayView,
    path: Seq<u8>,
    iw: u32,
    ih: u32,
    twice_x: int,
    twice_y: int,
) -> bool {
    match o {
        OverlayView::Image { path: p, x, y, w, h } => {
            &&& p == path
            &&& w == 1_500_000
            &&& -iw <= 2 * (h * iw - w * ih) <= iw
            &&& -1 <= 2 * x + w - twice_x <= 1
            &&& -1 <= 2 * y + h - twice_y <= 1
        },
        _ => false,
    }
}

// ---------------------------------------------------------------------------
// Duplicates
// ---------------------------------------------------------------------------

proof fn lemma_duplicates(overlays: Seq<OverlayView>, selected: Seq<usize>, n: int)
    requires
        0 <= n <= selected.len(),
        forall|k: int| 0 <= k < selected.len() ==> (#[trigger] selected[k]) < overlays.len(),
    ensures
        ({
            let all = with_duplicates(overlays, selected, n);
            &&& all.len() == overlays.len() + n
            &&& all.take(overlays.len() as int) == overlays
            &&& forall|k: int|
                0 <= k < n ==> #[trigger] all[overlays.len() + k] == duplicate_of(
                    overlays[selected[k] as int],
                )
        }),
    decreases n,
{
    let all = with_duplicates(overlays, selected, n);
    if n > 0 {
        lemma_duplicates(overlays, selected, n - 1);
        let front = with_duplicates(overlays, selected, n - 1);
        let i = selected[n - 1] as int;
        assert(front.take(overlays.len() as int)[i] == overlays[i]);
        assert(all == front.push(duplicate_of(overlays[i])));
        assert(all.take(overlays.len() as int) =~= front.take(overlays.len() as int));
        assert forall|k: int| 0 <= k < n implies #[trigger] all[overlays.len() + k]
            == duplicate_of(overlays[selected[k] as int]) by {
            if k < n - 1 {
                assert(all[overlays.len() + k] == front[overlays.len() + k]);
            }
        }
    } else {
        assert(all.take(overlays.len() as int) =~= overlays);
    }
}

/// Duplicating adds a copy of each selected overlay, in the order of the selection, ten
/// points further to the right and ten points lower, and selects the copies. What was
/// there stays.
pub proof fn duplicates_lie_beside_their_originals(app: AppView, k: int)
    requires
        app.wf(),
        app.has_page(),
        0 <= k < app.selected.len(),
        forall|m: int| 0 <= m < app.selected.len() ==> (#[trigger] app.selected[m]) < shown(app).len(),
        shown(app).len() + app.selected.len() <= usize::MAX,
        extents_at_most(shown(app)[app.selected[k] as int], COORD_LIMIT / 2),
        -(COORD_LIMIT / 4) <= place_of(shown(app)[app.selected[k] as int]).0 <= COORD_LIMIT / 4,
        -(COORD_LIMIT / 4) <= place_of(shown(app)[app.selected[k] as int]).1 <= COORD_LIMIT / 4,
    ensures
        ({
            let after = app.duplicated();
            let n = shown(app).len() as int;
            let original = shown(app)[app.selected[k] as int];
            let copy = shown(after)[n + k];
            &&& same_but_overlays(app, after)
            &&& shown(after).len() == n + app.selected.len()
            &&& shown(after).take(n) == shown(app)
            &&& same_but_place(original, copy)
            &&& place_of(copy).0 == place_of(original).0 + 100_000
            &&& place_of(copy).1 == place_of(original).1 + 100_000
            &&& after.selected.len() == app.selected.len()
            &&& after.selected[k] == n + k
        }),
{
    lemma_duplicates(shown(app), app.selected, app.selected.len() as int);
    let after = app.duplicated();
    assert(shown(after) == with_duplicates(shown(app), app.selected, app.selected.len() as int));
    assert(after.selected == indices(shown(app).len() as int, shown(after).len() as int));
}

/// The keys over the page work where the pointer is on it: not left of it or above it, and
/// not beyond its width or its height.
pub proof fn keys_work_on_the_page(app: AppView, pos: Point, layout: PageLayout)
    ensures
        ({
            let at = page_position(pos, layout);
            let size = app.pages[app.current].size_pt;
            on_page(app, pos, layout) <==> at.x >= 0 && at.y >= 0 && at.x <= size.0 && at.y <= size.1
        }),
{
}

} // verus!
