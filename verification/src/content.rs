//! Content streams: the operators that draw overlays on a page.

use vstd::prelude::*;

use crate::font::{glyph_text, push_glyphs};
use crate::geom::{rect_to_media_box, to_media_box, Corners, Rect};
use crate::numtext::{fixed4_text, push_fixed4};
use crate::units::{in_range, is_extent, round_div, rounded, COORD_LIMIT};

verus! {

/// Distance from the top of a line to its baseline, in thousandths of the size.
pub const BASELINE_PER_MILLE: i64 = 969;

/// Distance from one line to the next, in thousandths of the size.
pub const LINE_HEIGHT_PER_MILLE: i64 = 1_210;

/// Where a page lies in the coordinates of its content stream.
pub struct PageSpace {
    /// The turn with which the page is displayed, in degrees.
    pub rotate: i32,
    /// The extents of the page before it is turned.
    pub mb_w: i64,
    pub mb_h: i64,
    /// The lower left corner of the page.
    pub x0: i64,
    pub y0: i64,
    /// The height of the page as it is displayed.
    pub page_h: i64,
}

impl PageSpace {
    pub open spec fn wf(self) -> bool {
        &&& in_range(self.mb_w as int)
        &&& in_range(self.mb_h as int)
        &&& in_range(self.x0 as int)
        &&& in_range(self.y0 as int)
        &&& in_range(self.page_h as int)
    }
}

/// The operators that draw a picture into a rectangle.
pub open spec fn image_ops(
    space: PageSpace,
    name: Seq<char>,
    x: int,
    y: int,
    w: int,
    h: int,
) -> Seq<char> {
    "q\n"@ + fixed4_text(w) + " 0 0 "@ + fixed4_text(h) + " "@ + fixed4_text(space.x0 + x) + " "@
        + fixed4_text(space.y0 + space.page_h - y - h) + " cm\n/"@ + name + " Do\nQ\n"@
}

/// The baseline of the first line of a text, from the top of the page.
pub open spec fn baseline(y: int, size: int) -> int {
    y + rounded(size * BASELINE_PER_MILLE, 1000)
}

/// The distance between the lines of a text.
pub open spec fn leading(size: int) -> int {
    rounded(size * LINE_HEIGHT_PER_MILLE, 1000)
}

/// A colour component as a share of the full intensity.
pub open spec fn intensity(c: u8) -> int {
    rounded(c * 10_000, 255)
}

/// The operators that show lines of glyphs one below the other.
pub open spec fn line_ops(lines: Seq<Seq<u16>>) -> Seq<char>
    decreases lines.len(),
{
    if lines.len() == 0 {
        Seq::empty()
    } else {
        line_ops(lines.drop_last()) + (if lines.len() > 1 {
            "T*\n"@
        } else {
            Seq::empty()
        }) + "<"@ + glyph_text(lines.last()) + "> Tj\n"@
    }
}

/// The operators that select a font, with its size and the distance of lines.
pub open spec fn font_ops(font: Seq<char>, size: int) -> Seq<char> {
    "BT\n/"@ + font + " "@ + fixed4_text(size) + " Tf\n"@ + fixed4_text(leading(size)) + " TL\n"@
}

/// The operator that selects the colour of a text.
pub open spec fn color_ops(color: [u8; 3]) -> Seq<char> {
    fixed4_text(intensity(color@[0])) + " "@ + fixed4_text(intensity(color@[1])) + " "@
        + fixed4_text(intensity(color@[2])) + " rg\n"@
}

/// The operator that moves to where a text begins.
pub open spec fn start_ops(space: PageSpace, x: int, y: int, size: int) -> Seq<char> {
    fixed4_text(space.x0 + x) + " "@ + fixed4_text(space.y0 + space.page_h - baseline(y, size))
        + " Td\n"@
}

/// The operators that draw a text.
pub open spec fn text_ops(
    space: PageSpace,
    font: Seq<char>,
    lines: Seq<Seq<u16>>,
    x: int,
    y: int,
    size: int,
    color: [u8; 3],
) -> Seq<char> {
    font_ops(font, size) + color_ops(color) + start_ops(space, x, y, size) + line_ops(lines)
        + "ET\n"@
}

/// The operators that cover a rectangle in black.
pub open spec fn redact_ops(space: PageSpace, x: int, y: int, w: int, h: int) -> Seq<char> {
    let m = to_media_box(
        space.rotate as int,
        space.mb_w as int,
        space.mb_h as int,
        (Corners { x, y, w, h }),
    );
    "q\n0 0 0 rg\n"@ + fixed4_text(m.x + space.x0) + " "@ + fixed4_text(m.y + space.y0) + " "@
        + fixed4_text(m.w) + " "@ + fixed4_text(m.h) + " re\nf\nQ\n"@
}

/// Append the operators that draw a picture into a rectangle. The picture goes
/// by the name it has among the page's resources.
#[verifier::spinoff_prover]
#[verifier::rlimit(60)]
pub fn push_image(
    out: &mut String,
    space: &PageSpace,
    name: &str,
    x: i64,
    y: i64,
    w: i64,
    h: i64,
)
    requires
        space.wf(),
        in_range(x as int),
        in_range(y as int),
        in_range(w as int),
        in_range(h as int),
    ensures
        final(out)@ == old(out)@ + image_ops(
            *space,
            name@,
            x as int,
            y as int,
            w as int,
            h as int,
        ),
{
    out.append("q\n");
    push_fixed4(out, w);
    out.append(" 0 0 ");
    push_fixed4(out, h);
    out.append(" ");
    push_fixed4(out, space.x0 + x);
    out.append(" ");
    push_fixed4(out, space.y0 + space.page_h - y - h);
    out.append(" cm\n/");
    out.append(name);
    out.append(" Do\nQ\n");
    assert(out@ =~= old(out)@ + image_ops(*space, name@, x as int, y as int, w as int, h as int));
}

/// A share of a size, in thousandths.
fn part_of_size(size: i64, per_mille: i64) -> (r: i64)
    requires
        in_range(size as int),
        0 < per_mille < 2_000,
    ensures
        r == rounded(size * per_mille, 1000),
        -3 * COORD_LIMIT <= r <= 3 * COORD_LIMIT,
{
    assert(-2_000 * COORD_LIMIT <= size * per_mille <= 2_000 * COORD_LIMIT) by (nonlinear_arith)
        requires
            -COORD_LIMIT <= size <= COORD_LIMIT,
            0 < per_mille < 2_000,
    ;
    proof {
        crate::units::rounded_is_nearest(size * per_mille, 1000);
    }
    round_div(size as i128 * per_mille as i128, 1000) as i64
}

fn push_font(out: &mut String, font: &str, size: i64)
    requires
        in_range(size as int),
    ensures
        final(out)@ == old(out)@ + font_ops(font@, size as int),
{
    out.append("BT\n/");
    out.append(font);
    out.append(" ");
    push_fixed4(out, size);
    out.append(" Tf\n");
    push_fixed4(out, part_of_size(size, LINE_HEIGHT_PER_MILLE));
    out.append(" TL\n");
    assert(out@ =~= old(out)@ + font_ops(font@, size as int));
}

fn push_color(out: &mut String, color: [u8; 3])
    ensures
        final(out)@ == old(out)@ + color_ops(color),
{
    push_fixed4(out, round_div(color[0] as i128 * 10_000, 255) as i64);
    out.append(" ");
    push_fixed4(out, round_div(color[1] as i128 * 10_000, 255) as i64);
    out.append(" ");
    push_fixed4(out, round_div(color[2] as i128 * 10_000, 255) as i64);
    out.append(" rg\n");
    assert(out@ =~= old(out)@ + color_ops(color));
}

fn push_start(out: &mut String, space: &PageSpace, x: i64, y: i64, size: i64)
    requires
        space.wf(),
        in_range(x as int),
        in_range(y as int),
        in_range(size as int),
    ensures
        final(out)@ == old(out)@ + start_ops(*space, x as int, y as int, size as int),
{
    push_fixed4(out, space.x0 + x);
    out.append(" ");
    push_fixed4(out, space.y0 + space.page_h - (y + part_of_size(size, BASELINE_PER_MILLE)));
    out.append(" Td\n");
    assert(out@ =~= old(out)@ + start_ops(*space, x as int, y as int, size as int));
}

/// The glyphs of the lines of a text.
pub open spec fn line_views(lines: Seq<Vec<u16>>) -> Seq<Seq<u16>> {
    lines.map_values(|v: Vec<u16>| v@)
}

fn push_lines(out: &mut String, lines: &Vec<Vec<u16>>)
    ensures
        final(out)@ == old(out)@ + line_ops(line_views(lines@)),
{
    let ghost views = line_views(lines@);
    let n = lines.len();
    let mut i: usize = 0;
    assert(out@ =~= old(out)@ + line_ops(views.take(0)));
    while i < n
        invariant
            views == line_views(lines@),
            n == lines.len(),
            i <= n,
            out@ == old(out)@ + line_ops(views.take(i as int)),
        decreases n - i,
    {
        let ghost before = out@;
        if i > 0 {
            out.append("T*\n");
        }
        out.append("<");
        push_glyphs(out, &lines[i]);
        out.append("> Tj\n");
        i += 1;
        proof {
            assert(views.take(i as int).drop_last() =~= views.take(i - 1));
            assert(views.take(i as int).last() == lines@[i - 1]@);
            assert(out@ =~= old(out)@ + line_ops(views.take(i as int)));
        }
    }
    assert(views.take(n as int) =~= views);
}

/// Append the operators that draw a text, given by the glyphs of its lines. The
/// lines lie as far apart as they do on the screen.
#[verifier::spinoff_prover]
#[verifier::rlimit(60)]
pub fn push_text(
    out: &mut String,
    space: &PageSpace,
    font: &str,
    lines: &Vec<Vec<u16>>,
    x: i64,
    y: i64,
    size: i64,
    color: [u8; 3],
)
    requires
        space.wf(),
        in_range(x as int),
        in_range(y as int),
        in_range(size as int),
    ensures
        final(out)@ == old(out)@ + text_ops(
            *space,
            font@,
            line_views(lines@),
            x as int,
            y as int,
            size as int,
            color,
        ),
{
    push_font(out, font, size);
    push_color(out, color);
    push_start(out, space, x, y, size);
    push_lines(out, lines);
    out.append("ET\n");
    assert(out@ =~= old(out)@ + text_ops(
        *space,
        font@,
        line_views(lines@),
        x as int,
        y as int,
        size as int,
        color,
    ));
}

/// Append the operators that cover a rectangle in black. The rectangle is given
/// as it is displayed, and covers the same place however the page is turned.
#[verifier::spinoff_prover]
#[verifier::rlimit(60)]
pub fn push_redact(out: &mut String, space: &PageSpace, x: i64, y: i64, w: i64, h: i64)
    requires
        space.wf(),
        in_range(x as int),
        in_range(y as int),
        is_extent(w as int),
        is_extent(h as int),
    ensures
        final(out)@ == old(out)@ + redact_ops(*space, x as int, y as int, w as int, h as int),
{
    let m = rect_to_media_box(space.rotate, space.mb_w, space.mb_h, Rect { x, y, w, h });
    out.append("q\n0 0 0 rg\n");
    push_fixed4(out, m.x + space.x0);
    out.append(" ");
    push_fixed4(out, m.y + space.y0);
    out.append(" ");
    push_fixed4(out, m.w);
    out.append(" ");
    push_fixed4(out, m.h);
    out.append(" re\nf\nQ\n");
    assert(out@ =~= old(out)@ + redact_ops(*space, x as int, y as int, w as int, h as int));
}

} // verus!
