//! What is written on a page: where redactions, pictures and texts lie, by the numbers
//! that stand in the content stream.

use image::DynamicImage;
use lopdf::ObjectId;
use vstd::prelude::*;

use crate::content::{color_ops, font_ops, image_ops, line_ops, redact_ops, start_ops, text_ops};
use crate::drawing::{context_of, glyph_lines, Drawing};
use crate::font::{face_glyph, glyph_text, glyph_text_of_concat, glyphs_of};
use crate::laws::filter::{digits_count_tens, writes};
use crate::names::free_name;
use crate::numtext::{
    decimal_text, decimal_text_reads_back, digit_char, fixed4_text, hex4_text, hex_char,
};
use crate::objects::{key, DocView, PdfValue};
use crate::overlay::OverlayView;
use crate::pagedict::{coordinate, entry, origin_of, resource_keys, rotate_of, INHERITANCE_DEPTH};
use crate::picture::{image_rgba, with_image};
use crate::text::{decimal_value, parts_of};
use crate::units::{in_range, rounded, rounded_is_nearest, COORD_LIMIT};

verus! {

// ---------------------------------------------------------------------------
// Numbers
// ---------------------------------------------------------------------------

/// The sign that a number is written with.
pub open spec fn sign_of(n: int) -> Seq<char> {
    if n < 0 {
        seq!['-']
    } else {
        Seq::empty()
    }
}

/// A number of ticks is written as a decimal number with a point before its last four
/// digits, and a minus sign where it is negative: in points, exactly.
pub proof fn ticks_are_written_in_points(n: int)
    ensures
        exists|whole: Seq<char>, places: Seq<char>|
            fixed4_text(n) == #[trigger] (sign_of(n) + whole + seq!['.'] + places) && places.len() == 4 && writes(
                whole + places,
                (if n < 0 {
                    -n
                } else {
                    n
                }) as nat,
            ) && whole.len() > 0,
{
    let m: nat = (if n < 0 {
        -n
    } else {
        n
    }) as nat;
    let sign = sign_of(n);
    let whole = decimal_text(m / 10_000);
    let a = digit_char((m / 1000 % 10) as int);
    let b = digit_char((m / 100 % 10) as int);
    let c = digit_char((m / 10 % 10) as int);
    let d = digit_char((m % 10) as int);
    let places = seq![a, b, c, d];
    decimal_text_reads_back(m / 10_000);
    digits_count_tens(whole, a);
    digits_count_tens(whole.push(a), b);
    digits_count_tens(whole.push(a).push(b), c);
    digits_count_tens(whole.push(a).push(b).push(c), d);
    assert(whole + places =~= whole.push(a).push(b).push(c).push(d));
    assert(m / 10 / 10 == m / 100 && m / 100 / 10 == m / 1000 && m / 1000 / 10 == m / 10_000);
    assert(decimal_value(whole + places) == m);
    let all = whole + places;
    assert forall|i: int| 0 <= i < all.len() implies '0' <= #[trigger] all[i] <= '9' by {
        if i < whole.len() {
            assert(all[i] == whole[i]);
        } else {
            assert(all[i] == places[i - whole.len()]);
        }
    }
    assert(fixed4_text(n) =~= sign + whole + seq!['.'] + places);
}

/// The value of an upper-case hexadecimal digit.
pub open spec fn hex_value(c: char) -> int {
    if '0' <= c <= '9' {
        c as int - 48
    } else if 'A' <= c <= 'F' {
        c as int - 55
    } else {
        -1
    }
}

/// The number that four hexadecimal digits write, the highest first.
pub open spec fn hex4_value(s: Seq<char>) -> int {
    hex_value(s[0]) * 4096 + hex_value(s[1]) * 256 + hex_value(s[2]) * 16 + hex_value(s[3])
}

proof fn lemma_hex_char(d: int)
    requires
        0 <= d < 16,
    ensures
        hex_value(hex_char(d)) == d,
{
}

proof fn lemma_hex4(n: int)
    requires
        0 <= n < 65536,
    ensures
        hex4_text(n).len() == 4,
        hex4_value(hex4_text(n)) == n,
{
    lemma_hex_char(n / 4096 % 16);
    lemma_hex_char(n / 256 % 16);
    lemma_hex_char(n / 16 % 16);
    lemma_hex_char(n % 16);
    let s = hex4_text(n);
    assert(hex_value(s[0]) == n / 4096 % 16);
    assert(hex_value(s[1]) == n / 256 % 16);
    assert(hex_value(s[2]) == n / 16 % 16);
    assert(hex_value(s[3]) == n % 16);
    lemma_sixteens(n);
}

proof fn lemma_sixteens(n: int)
    requires
        0 <= n < 65536,
    ensures
        (n / 4096 % 16) * 4096 + (n / 256 % 16) * 256 + (n / 16 % 16) * 16 + n % 16 == n,
{
    let a = n / 16;
    let b = n / 256;
    let c = n / 4096;
    assert(a / 16 == b);
    assert(b / 16 == c);
    assert(c < 16);
    assert(n == a * 16 + n % 16);
    assert(a == b * 16 + a % 16);
    assert(b == c * 16 + b % 16);
}

/// Glyph numbers are written one after the other, each as four hexadecimal digits that
/// give the number.
pub proof fn glyphs_are_written_in_fours(glyphs: Seq<u16>, i: int)
    requires
        0 <= i < glyphs.len(),
    ensures
        glyph_text(glyphs).len() == 4 * glyphs.len(),
        hex4_value(glyph_text(glyphs).subrange(4 * i, 4 * i + 4)) == glyphs[i],
    decreases glyphs.len(),
{
    let front = glyphs.drop_last();
    glyph_text_of_concat(glyphs, Seq::empty());
    glyph_text_of_concat(front, Seq::empty());
    lemma_hex4(glyphs.last() as int);
    if i < front.len() {
        glyphs_are_written_in_fours(front, i);
        assert(glyph_text(glyphs).subrange(4 * i, 4 * i + 4) =~= glyph_text(front).subrange(
            4 * i,
            4 * i + 4,
        ));
    } else {
        assert(glyph_text(glyphs).subrange(4 * i, 4 * i + 4) =~= hex4_text(glyphs.last() as int));
    }
}

// ---------------------------------------------------------------------------
// Where a page lies
// ---------------------------------------------------------------------------

/// The `n`th parent of a page, the page itself for zero, where each is a dictionary that
/// refers to the next.
pub open spec fn ancestor(doc: DocView, page_id: ObjectId, n: nat) -> Option<ObjectId>
    decreases n,
{
    if n == 0 {
        Some(page_id)
    } else {
        match ancestor(doc, page_id, (n - 1) as nat) {
            Some(id) => match doc.dict_at(id) {
                Ok(dict) => match entry(dict, key("Parent"@)) {
                    PdfValue::Reference(parent) => Some(parent),
                    _ => None,
                },
                Err(_) => None,
            },
            None => None,
        }
    }
}

/// The entry that the `n`th parent of a page has under a key.
pub open spec fn ancestor_entry(doc: DocView, page_id: ObjectId, n: nat, k: Seq<u8>) -> PdfValue {
    match ancestor(doc, page_id, n) {
        Some(id) => match doc.dict_at(id) {
            Ok(dict) => entry(dict, k),
            Err(_) => PdfValue::Null,
        },
        None => PdfValue::Null,
    }
}

pub(crate) proof fn lemma_ancestor_shift(doc: DocView, page_id: ObjectId, n: nat)
    requires
        ancestor(doc, page_id, 1) is Some,
    ensures
        ancestor(doc, page_id, n + 1) == ancestor(doc, ancestor(doc, page_id, 1)->Some_0, n),
    decreases n,
{
    if n > 0 {
        lemma_ancestor_shift(doc, page_id, (n - 1) as nat);
    }
}

pub(crate) proof fn lemma_ancestor_first(doc: DocView, page_id: ObjectId, n: nat)
    requires
        ancestor(doc, page_id, n) is Some,
        n > 0,
    ensures
        ancestor(doc, page_id, 1) is Some,
    decreases n,
{
    reveal_with_fuel(ancestor, 2);
    if n > 1 {
        lemma_ancestor_first(doc, page_id, (n - 1) as nat);
    }
}

proof fn lemma_rotate_at(doc: DocView, page_id: ObjectId, n: nat, fuel: nat, r: int)
    requires
        n < fuel,
        ancestor_entry(doc, page_id, n, key("Rotate"@)) == PdfValue::Integer(r),
        forall|i: nat|
            i < n ==> !(#[trigger] ancestor_entry(doc, page_id, i, key("Rotate"@)) is Integer),
    ensures
        rotate_of(doc, page_id, fuel) == crate::pagedict::quarter_turns(r),
    decreases n,
{
    reveal_with_fuel(ancestor, 2);
    assert(ancestor(doc, page_id, 0) == Some(page_id));
    if n > 0 {
        assert(!(ancestor_entry(doc, page_id, 0, key("Rotate"@)) is Integer));
        lemma_ancestor_first(doc, page_id, n);
        let parent = ancestor(doc, page_id, 1)->Some_0;
        lemma_ancestor_shift(doc, page_id, (n - 1) as nat);
        assert forall|i: nat|
            i < n - 1 implies !(#[trigger] ancestor_entry(doc, parent, i, key("Rotate"@)) is Integer) by {
            lemma_ancestor_shift(doc, page_id, i);
            assert(!(ancestor_entry(doc, page_id, i + 1, key("Rotate"@)) is Integer));
        }
        lemma_rotate_at(doc, parent, (n - 1) as nat, (fuel - 1) as nat, r);
    }
}

/// The turn of a page is the one that it has, or else the nearest of fifteen parents,
/// brought into one full turn. A turn that is not a quarter counts as none.
pub proof fn turn_is_inherited(doc: DocView, page_id: ObjectId, n: nat, r: int)
    requires
        n < 16,
        ancestor_entry(doc, page_id, n, key("Rotate"@)) == PdfValue::Integer(r),
        forall|i: nat|
            i < n ==> !(#[trigger] ancestor_entry(doc, page_id, i, key("Rotate"@)) is Integer),
    ensures
        ({
            let turn = rotate_of(doc, page_id, INHERITANCE_DEPTH as nat);
            &&& 0 <= turn < 360
            &&& r % 90 == 0 ==> (r - turn) % 360 == 0
            &&& r % 90 != 0 ==> turn == 0
        }),
{
    lemma_rotate_at(doc, page_id, n, INHERITANCE_DEPTH as nat, r);
}

proof fn lemma_no_rotate(doc: DocView, page_id: ObjectId, fuel: nat)
    requires
        forall|i: nat|
            i < fuel ==> !(#[trigger] ancestor_entry(doc, page_id, i, key("Rotate"@)) is Integer),
    ensures
        rotate_of(doc, page_id, fuel) == 0,
    decreases fuel,
{
    reveal_with_fuel(ancestor, 2);
    if fuel > 0 {
        assert(ancestor(doc, page_id, 0) == Some(page_id));
        assert(!(ancestor_entry(doc, page_id, 0, key("Rotate"@)) is Integer));
        if ancestor(doc, page_id, 1) is Some {
            let parent = ancestor(doc, page_id, 1)->Some_0;
            assert forall|i: nat|
                i < fuel - 1 implies !(#[trigger] ancestor_entry(
                doc,
                parent,
                i,
                key("Rotate"@),
            ) is Integer) by {
                lemma_ancestor_shift(doc, page_id, i);
                assert(!(ancestor_entry(doc, page_id, i + 1, key("Rotate"@)) is Integer));
            }
            lemma_no_rotate(doc, parent, (fuel - 1) as nat);
        }
    }
}

/// A page without a turn, and whose parents have none, is not turned.
pub proof fn no_turn_without_an_entry(doc: DocView, page_id: ObjectId)
    requires
        forall|i: nat|
            i < 16 ==> !(#[trigger] ancestor_entry(doc, page_id, i, key("Rotate"@)) is Integer),
    ensures
        rotate_of(doc, page_id, INHERITANCE_DEPTH as nat) == 0,
{
    lemma_no_rotate(doc, page_id, INHERITANCE_DEPTH as nat);
}

/// A box with a corner.
pub open spec fn has_corner(value: PdfValue) -> bool {
    value matches PdfValue::Array(items) && items.len() >= 2
}

proof fn lemma_origin_at(doc: DocView, page_id: ObjectId, n: nat, fuel: nat)
    requires
        n < fuel,
        has_corner(ancestor_entry(doc, page_id, n, key("MediaBox"@))),
        forall|i: nat|
            i < n ==> !has_corner(#[trigger] ancestor_entry(doc, page_id, i, key("MediaBox"@))),
    ensures
        ({
            let items = ancestor_entry(doc, page_id, n, key("MediaBox"@))->Array_0;
            origin_of(doc, page_id, fuel) == (coordinate(items[0]), coordinate(items[1]))
        }),
    decreases n,
{
    reveal_with_fuel(ancestor, 2);
    assert(ancestor(doc, page_id, 0) == Some(page_id));
    if n > 0 {
        assert(!has_corner(ancestor_entry(doc, page_id, 0, key("MediaBox"@))));
        lemma_ancestor_first(doc, page_id, n);
        let parent = ancestor(doc, page_id, 1)->Some_0;
        lemma_ancestor_shift(doc, page_id, (n - 1) as nat);
        assert forall|i: nat| i < n - 1 implies !has_corner(
            #[trigger] ancestor_entry(doc, parent, i, key("MediaBox"@)),
        ) by {
            lemma_ancestor_shift(doc, page_id, i);
            assert(!has_corner(ancestor_entry(doc, page_id, i + 1, key("MediaBox"@))));
        }
        lemma_origin_at(doc, parent, (n - 1) as nat, (fuel - 1) as nat);
    }
}

/// A number of a box, as the number of ticks that it stands for: a whole number of
/// points, or a decimal number with four places.
pub open spec fn is_coordinate(value: PdfValue, ticks: int) -> bool {
    ||| value == PdfValue::Integer(ticks / 10_000) && ticks % 10_000 == 0
    ||| value == PdfValue::Real(fixed4_text(ticks))
}

/// The corner of a page is that of its own `MediaBox`, or else of the nearest of fifteen
/// parents: the first number of the box to the right, the second upwards.
pub proof fn corner_is_inherited(doc: DocView, page_id: ObjectId, n: nat, x0: int, y0: int)
    requires
        n < 16,
        has_corner(ancestor_entry(doc, page_id, n, key("MediaBox"@))),
        forall|i: nat|
            i < n ==> !has_corner(#[trigger] ancestor_entry(doc, page_id, i, key("MediaBox"@))),
        is_coordinate(ancestor_entry(doc, page_id, n, key("MediaBox"@))->Array_0[0], x0),
        is_coordinate(ancestor_entry(doc, page_id, n, key("MediaBox"@))->Array_0[1], y0),
        -COORD_LIMIT <= x0 <= COORD_LIMIT,
        -COORD_LIMIT <= y0 <= COORD_LIMIT,
    ensures
        origin_of(doc, page_id, INHERITANCE_DEPTH as nat) == (x0, y0),
{
    lemma_origin_at(doc, page_id, n, INHERITANCE_DEPTH as nat);
    crate::numtext::fixed4_reads_back(x0);
    crate::numtext::fixed4_reads_back(y0);
}

proof fn lemma_origin_in_range(doc: DocView, page_id: ObjectId, fuel: nat)
    ensures
        in_range(origin_of(doc, page_id, fuel).0),
        in_range(origin_of(doc, page_id, fuel).1),
    decreases fuel,
{
    if fuel > 0 {
        if let Ok(dict) = doc.dict_at(page_id) {
            if let PdfValue::Reference(parent) = entry(dict, key("Parent"@)) {
                lemma_origin_in_range(doc, parent, (fuel - 1) as nat);
            }
        }
    }
}

proof fn lemma_turn_is_quarter(doc: DocView, page_id: ObjectId, fuel: nat)
    ensures
        ({
            let turn = rotate_of(doc, page_id, fuel);
            turn == 0 || turn == 90 || turn == 180 || turn == 270
        }),
    decreases fuel,
{
    if fuel > 0 {
        if let Ok(dict) = doc.dict_at(page_id) {
            if let PdfValue::Reference(parent) = entry(dict, key("Parent"@)) {
                lemma_turn_is_quarter(doc, parent, (fuel - 1) as nat);
            }
        }
    }
}

// ---------------------------------------------------------------------------
// Redactions
// ---------------------------------------------------------------------------

/// Where a point of a page is displayed, from the top left corner. The page is displayed
/// `w` wide and `h` high, turned clockwise; the point lies `u` to the right and `v` above
/// the page's lower left corner, as it is before the turn.
pub open spec fn shown_at(turn: int, w: int, h: int, u: int, v: int) -> (int, int) {
    if turn == 90 {
        (v, u)
    } else if turn == 180 {
        (w - u, v)
    } else if turn == 270 {
        (w - v, h - u)
    } else {
        (u, h - v)
    }
}

/// A rectangle of a page, before its turn, and what it is displayed as: the same points.
pub open spec fn same_place(
    turn: int,
    size: (i64, i64),
    px: int,
    py: int,
    pw: int,
    ph: int,
    x: int,
    y: int,
    w: int,
    h: int,
) -> bool {
    forall|u: int, v: int|
        #![trigger shown_at(turn, size.0 as int, size.1 as int, u, v)]
        {
            let (a, b) = shown_at(turn, size.0 as int, size.1 as int, u, v);
            (px <= u <= px + pw && py <= v <= py + ph) <==> (x <= a <= x + w && y <= b <= y + h)
        }
}

/// The operators that fill a rectangle in black.
pub open spec fn black_bar(px: int, py: int, pw: int, ph: int) -> Seq<char> {
    "q\n0 0 0 rg\n"@ + fixed4_text(px) + " "@ + fixed4_text(py) + " "@ + fixed4_text(pw) + " "@
        + fixed4_text(ph) + " re\nf\nQ\n"@
}

/// A redaction is written as a black rectangle over exactly the points of the page that
/// are displayed where it was placed, whatever the turn of the page and wherever its
/// corner lies. One inside the page as displayed lies inside the page before its turn,
/// which is as wide as the displayed page is high where it lies on its side.
pub proof fn redaction_covers_its_place(
    start: Drawing,
    doc: DocView,
    page: int,
    page_id: ObjectId,
    size: (i64, i64),
    font: Seq<u8>,
    picture: Option<DynamicImage>,
    i: int,
    x: int,
    y: int,
    w: int,
    h: int,
)
    requires
        w >= 0,
        h >= 0,
    ensures
        ({
            let ctx = context_of(doc, page, page_id, size, font);
            let turn = rotate_of(doc, page_id, INHERITANCE_DEPTH as nat);
            let (x0, y0) = origin_of(doc, page_id, INHERITANCE_DEPTH as nat);
            let on_side = turn == 90 || turn == 270;
            let page_w = if on_side {
                size.1
            } else {
                size.0
            };
            let page_h = if on_side {
                size.0
            } else {
                size.1
            };
            let (after, fault) = start.with(ctx, OverlayView::Redact { x, y, w, h }, picture, i);
            &&& fault is None
            &&& exists|px: int, py: int, pw: int, ph: int|
                after.content == start.content + #[trigger] black_bar(x0 + px, y0 + py, pw, ph)
                    && same_place(turn, size, px, py, pw, ph, x, y, w, h) && (0 <= x && x + w
                    <= size.0 && 0 <= y && y + h <= size.1 ==> 0 <= px && px + pw <= page_w && 0
                    <= py && py + ph <= page_h)
        }),
{
    lemma_origin_in_range(doc, page_id, INHERITANCE_DEPTH as nat);
    lemma_turn_is_quarter(doc, page_id, INHERITANCE_DEPTH as nat);
    let ctx = context_of(doc, page, page_id, size, font);
    let turn = rotate_of(doc, page_id, INHERITANCE_DEPTH as nat);
    let (x0, y0) = origin_of(doc, page_id, INHERITANCE_DEPTH as nat);
    let (px, py, pw, ph) = if turn == 90 {
        (y, x, h, w)
    } else if turn == 180 {
        (size.0 - x - w, y, w, h)
    } else if turn == 270 {
        (size.1 - y - h, size.0 - x - w, h, w)
    } else {
        (x, size.1 - y - h, w, h)
    };
    assert(redact_ops(ctx.space, x, y, w, h) == black_bar(x0 + px, y0 + py, pw, ph));
    assert(same_place(turn, size, px, py, pw, ph, x, y, w, h));
}

// ---------------------------------------------------------------------------
// Pictures and texts
// ---------------------------------------------------------------------------

/// The operators that draw a picture of the page's resources, `w` wide and `h` high, from
/// a lower left corner on.
pub open spec fn upright_picture(name: Seq<char>, w: int, h: int, left: int, low: int) -> Seq<char> {
    "q\n"@ + fixed4_text(w) + " 0 0 "@ + fixed4_text(h) + " "@ + fixed4_text(left) + " "@
        + fixed4_text(low) + " cm\n/"@ + name + " Do\nQ\n"@
}

/// What is selected before a text is shown, and where it begins.
pub struct TextStart {
    /// The distance of lines.
    pub lead: int,
    pub red: int,
    pub green: int,
    pub blue: int,
    pub left: int,
    pub base: int,
}

/// The operators that select a font, its size and a colour, move to where a text begins,
/// and show its lines.
pub open spec fn shown_text(
    name: Seq<char>,
    size: int,
    start: TextStart,
    lines: Seq<Seq<u16>>,
) -> Seq<char> {
    ("BT\n/"@ + name + " "@ + fixed4_text(size) + " Tf\n"@ + fixed4_text(start.lead) + " TL\n"@) + (
    fixed4_text(start.red) + " "@ + fixed4_text(start.green) + " "@ + fixed4_text(start.blue)
        + " rg\n"@) + (fixed4_text(start.left) + " "@ + fixed4_text(start.base) + " Td\n"@)
        + line_ops(lines) + "ET\n"@
}

/// A picture is drawn upright in the rectangle where it was placed, as wide and as high:
/// its lower left corner lies to the right of the page's corner as far as it was placed
/// to the right, and the height of the page above it, less its distance from the top and
/// its own height.
pub proof fn picture_is_drawn_in_its_place(
    start: Drawing,
    doc: DocView,
    page: int,
    page_id: ObjectId,
    size: (i64, i64),
    font: Seq<u8>,
    image: DynamicImage,
    i: int,
    path: Seq<u8>,
    x: int,
    y: int,
    w: int,
    h: int,
)
    requires
        ({
            let (iw, ih, pixels) = image_rgba(image);
            with_image(start.doc, iw, ih, pixels).1 is Ok
        }),
    ensures
        ({
            let ctx = context_of(doc, page, page_id, size, font);
            let (x0, y0) = origin_of(doc, page_id, INHERITANCE_DEPTH as nat);
            let overlay = OverlayView::Image { path, x, y, w, h };
            let (after, fault) = start.with(ctx, overlay, Some(image), i);
            let (iw, ih, pixels) = image_rgba(image);
            let name = free_name(start.used, "Im"@);
            &&& fault is None
            &&& after.pictures == start.pictures.push(
                (name, with_image(start.doc, iw, ih, pixels).1->Ok_0),
            )
            &&& exists|left: int, low: int|
                after.content == start.content + #[trigger] upright_picture(name, w, h, left, low)
                    && left - x0 == x && (low - y0) + h + y
                    == size.1
        }),
{
    lemma_origin_in_range(doc, page_id, INHERITANCE_DEPTH as nat);
    let ctx = context_of(doc, page, page_id, size, font);
    let (x0, y0) = origin_of(doc, page_id, INHERITANCE_DEPTH as nat);
    let name = free_name(start.used, "Im"@);
    let left = x0 + x;
    let low = y0 + size.1 - y - h;
    let (after, _) = start.with(ctx, OverlayView::Image { path, x, y, w, h }, Some(image), i);
    assert(after.content == start.content + image_ops(ctx.space, name, x, y, w, h));
    assert(image_ops(ctx.space, name, x, y, w, h) == upright_picture(name, w, h, left, low));
}

/// A text begins at its left side, with its first baseline below its top by 969
/// thousandths of its size, and further lines 1210 thousandths below each other. Its
/// colour is given in shares of 255. All of it is as near as four decimal places allow.
pub proof fn text_is_written_in_its_place(
    start: Drawing,
    doc: DocView,
    page: int,
    page_id: ObjectId,
    size: (i64, i64),
    font: Seq<u8>,
    picture: Option<DynamicImage>,
    i: int,
    text: Seq<char>,
    x: int,
    y: int,
    size_pt: int,
    color: [u8; 3],
)
    ensures
        ({
            let ctx = context_of(doc, page, page_id, size, font);
            let (x0, y0) = origin_of(doc, page_id, INHERITANCE_DEPTH as nat);
            let overlay = OverlayView::Text { text, x, y, size_pt, color };
            let (after, fault) = start.with(ctx, overlay, picture, i);
            let name = free_name(resource_keys(doc, page_id, key("Font"@)), "F"@);
            &&& fault is None
            &&& after.has_text
            &&& exists|t: TextStart|
                after.content == start.content + #[trigger] shown_text(
                    name,
                    size_pt,
                    t,
                    glyph_lines(font, text),
                ) && t.left - x0 == x && -500 <= 1000 * (size.1 - (t.base - y0) - y) - 969 * size_pt
                    <= 500 && -500 <= 1000 * t.lead - 1210 * size_pt <= 500 && is_share(
                    t.red,
                    color@[0],
                ) && is_share(t.green, color@[1]) && is_share(t.blue, color@[2])
        }),
{
    lemma_origin_in_range(doc, page_id, INHERITANCE_DEPTH as nat);
    let ctx = context_of(doc, page, page_id, size, font);
    let (x0, y0) = origin_of(doc, page_id, INHERITANCE_DEPTH as nat);
    let (after, _) = start.with(ctx, OverlayView::Text { text, x, y, size_pt, color }, picture, i);
    let name = ctx.font_name;
    let lead = rounded(size_pt * 1210, 1000);
    let down = rounded(size_pt * 969, 1000);
    rounded_is_nearest(size_pt * 1210, 1000);
    rounded_is_nearest(size_pt * 969, 1000);
    rounded_is_nearest(color@[0] * 10_000, 255);
    rounded_is_nearest(color@[1] * 10_000, 255);
    rounded_is_nearest(color@[2] * 10_000, 255);
    let t = TextStart {
        lead,
        red: rounded(color@[0] * 10_000, 255),
        green: rounded(color@[1] * 10_000, 255),
        blue: rounded(color@[2] * 10_000, 255),
        left: x0 + x,
        base: y0 + size.1 - (y + down),
    };
    let lines = glyph_lines(font, text);
    assert(font_ops(name, size_pt) == "BT\n/"@ + name + " "@ + fixed4_text(size_pt) + " Tf\n"@
        + fixed4_text(t.lead) + " TL\n"@);
    assert(color_ops(color) == fixed4_text(t.red) + " "@ + fixed4_text(t.green) + " "@
        + fixed4_text(t.blue) + " rg\n"@);
    assert(start_ops(ctx.space, x, y, size_pt) == fixed4_text(t.left) + " "@ + fixed4_text(t.base)
        + " Td\n"@);
    assert(text_ops(ctx.space, name, lines, x, y, size_pt, color) == shown_text(
        name,
        size_pt,
        t,
        lines,
    ));
    assert(after.content == start.content + shown_text(name, size_pt, t, lines));
}

/// A number of ten-thousandths that is the nearest to a share of 255.
pub open spec fn is_share(n: int, c: u8) -> bool {
    -255 <= 2 * (255 * n - 10_000 * c) <= 255
}

/// The lines of a text are shown in order, each as one string of glyphs, with a step to
/// the next line between them and none before the first.
pub proof fn lines_are_shown_in_order(lines: Seq<Seq<u16>>, next: Seq<u16>)
    ensures
        line_ops(lines.push(next)) == line_ops(lines) + (if lines.len() > 0 {
            "T*\n<"@
        } else {
            "<"@
        }) + glyph_text(next) + "> Tj\n"@,
        line_ops(Seq::<Seq<u16>>::empty()) == Seq::<char>::empty(),
{
    let all = lines.push(next);
    assert(all.drop_last() =~= lines);
    reveal_strlit("T*\n<");
    reveal_strlit("T*\n");
    reveal_strlit("<");
    assert("T*\n<"@ =~= "T*\n"@ + "<"@);
    assert(line_ops(all) =~= line_ops(lines) + (if lines.len() > 0 {
        "T*\n<"@
    } else {
        "<"@
    }) + glyph_text(next) + "> Tj\n"@);
}

/// Each line of a text becomes one line of glyphs, and each character the glyph that the
/// font has for it; the first glyph of the font stands for one that it lacks.
pub proof fn characters_become_their_glyphs(font: Seq<u8>, text: Seq<char>, line: int, i: int)
    requires
        0 <= line < parts_of(text, '\n').len(),
        0 <= i < parts_of(text, '\n')[line].len(),
    ensures
        glyph_lines(font, text).len() == parts_of(text, '\n').len(),
        glyph_lines(font, text)[line].len() == parts_of(text, '\n')[line].len(),
        match face_glyph(font, 0, parts_of(text, '\n')[line][i]) {
            Some(glyph) => glyph_lines(font, text)[line][i] == glyph,
            None => glyph_lines(font, text)[line][i] == 0,
        },
{
    let part = parts_of(text, '\n')[line];
    assert(glyph_lines(font, text)[line] == glyphs_of(font, part));
}

} // verus!
