//! What is embedded in a document: pictures and the font, by the entries of the objects.

use lopdf::ObjectId;
use vstd::prelude::*;

use crate::font::{font_id, metrics_of, with_font, MetricsView};
use crate::fontfile::{entry_is_plain, file_is_plain, number16, number32};
use crate::objects::{best_zlib, key, lemma_keys_differ, DocView, PdfValue};
use crate::picture::{alpha_of, rgb_of, with_image, zlib, PictureFault};
use crate::units::{rounded, rounded_is_nearest};

verus! {

proof fn lemma_key_texts()
    ensures
        forall|a: Seq<char>, b: Seq<char>| #[trigger] key(a) == #[trigger] key(b) ==> a == b,
{
    assert forall|a: Seq<char>, b: Seq<char>| #[trigger] key(a) == #[trigger] key(b) implies a
        == b by {
        if a != b {
            lemma_keys_differ(a, b);
        }
    }
}

// ---------------------------------------------------------------------------
// Pictures
// ---------------------------------------------------------------------------

/// The bytes of a row of samples of eight bits.
pub open spec fn row_bytes(w: u32, components: int, bits: int) -> int {
    (w * components * bits + 7) / 8
}

/// An image object says that it is an image of the given size and colours, with samples
/// of eight bits, packed by zlib; and what it stores is the packed bytes of its rows.
pub open spec fn is_image(
    value: PdfValue,
    w: u32,
    h: u32,
    colors: Seq<char>,
    components: int,
    data: Seq<u8>,
) -> bool {
    match value {
        PdfValue::Stream(entries, packed) => {
            &&& has(entries, "Type"@, PdfValue::Name(key("XObject"@)))
            &&& has(entries, "Subtype"@, PdfValue::Name(key("Image"@)))
            &&& has(entries, "Width"@, PdfValue::Integer(w as int))
            &&& has(entries, "Height"@, PdfValue::Integer(h as int))
            &&& has(entries, "ColorSpace"@, PdfValue::Name(key(colors)))
            &&& has(entries, "BitsPerComponent"@, PdfValue::Integer(8))
            &&& has(entries, "Filter"@, PdfValue::Name(key("FlateDecode"@)))
            &&& has(entries, "Length"@, PdfValue::Integer(packed.len() as int))
            &&& zlib(data) == Some(packed)
            &&& data.len() == h * row_bytes(w, components, 8)
        },
        _ => false,
    }
}

/// A dictionary has an entry.
pub open spec fn has(entries: Map<Seq<u8>, PdfValue>, name: Seq<char>, value: PdfValue) -> bool {
    entries.dom().contains(key(name)) && entries[key(name)] == value
}

/// A dictionary has no entry of a name.
pub open spec fn lacks(value: PdfValue, name: Seq<char>) -> bool {
    match value {
        PdfValue::Stream(entries, _) => !entries.dom().contains(key(name)),
        PdfValue::Dictionary(entries) => !entries.dom().contains(key(name)),
        _ => true,
    }
}

/// What an embedded picture stores is the picture: an image of its width and height in
/// red, green and blue, three bytes to the pixel from the top left on. Where a pixel is
/// not opaque, the picture refers to a mask of the same size with one byte to the pixel,
/// its opacity; where all are opaque it refers to none. The objects are new, and all
/// others stay as they were.
pub proof fn picture_is_stored_pixel_by_pixel(doc: DocView, w: u32, h: u32, pixels: Seq<[u8; 4]>)
    requires
        pixels.len() == w * h,
        with_image(doc, w, h, pixels).1 is Ok,
        doc.max_id <= u32::MAX - 2,
    ensures
        ({
            let (after, r) = with_image(doc, w, h, pixels);
            let id = r->Ok_0;
            let opaque = forall|i: int| 0 <= i < pixels.len() ==> #[trigger] pixels[i]@[3] == 255;
            let rgb = rgb_of(pixels);
            let alpha = alpha_of(pixels);
            &&& id.0 > doc.max_id
            &&& after.objects.dom().contains(id)
            &&& is_image(after.objects[id], w, h, "DeviceRGB"@, 3, rgb)
            &&& forall|i: int, k: int|
                0 <= i < pixels.len() && 0 <= k < 3 ==> rgb[3 * i + k] == #[trigger] pixels[i]@[k]
            &&& opaque ==> lacks(after.objects[id], "SMask"@)
            &&& !opaque ==> {
                let mask = (doc.max_id + 1) as u32;
                &&& has(
                    after.objects[id]->Stream_0,
                    "SMask"@,
                    PdfValue::Reference((mask, 0u16)),
                )
                &&& id.0 != mask
                &&& after.objects.dom().contains((mask, 0u16))
                &&& is_image(after.objects[(mask, 0u16)], w, h, "DeviceGray"@, 1, alpha)
                &&& lacks(after.objects[(mask, 0u16)], "SMask"@)
                &&& forall|i: int| 0 <= i < pixels.len() ==> alpha[i] == #[trigger] pixels[i]@[3]
            }
            &&& forall|other: ObjectId| #[trigger]
                doc.objects.dom().contains(other) && other.0 <= doc.max_id
                    ==> after.objects.dom().contains(other) && after.objects[other]
                    == doc.objects[other]
            &&& after.trailer == doc.trailer
        }),
{
    lemma_key_texts();
    reveal_strlit("Type");
    reveal_strlit("Subtype");
    reveal_strlit("Width");
    reveal_strlit("Height");
    reveal_strlit("ColorSpace");
    reveal_strlit("BitsPerComponent");
    reveal_strlit("Filter");
    reveal_strlit("Length");
    reveal_strlit("SMask");
    assert("Width"@[0] == 'W' && "SMask"@[0] == 'S');
    assert("Height"@[0] == 'H' && "Filter"@[0] == 'F' && "Length"@[0] == 'L');
    let rgb = rgb_of(pixels);
    assert forall|i: int, k: int| 0 <= i < pixels.len() && 0 <= k < 3 implies rgb[3 * i + k]
        == #[trigger] pixels[i]@[k] by {
        assert((3 * i + k) / 3 == i && (3 * i + k) % 3 == k);
    }
    assert(row_bytes(w, 3, 8) == 3 * w);
    assert(row_bytes(w, 1, 8) == w);
    assert(h * (3 * w) == 3 * (w * h)) by (nonlinear_arith);
    assert(h * w == w * h) by (nonlinear_arith);
    let opaque = forall|i: int| 0 <= i < pixels.len() ==> #[trigger] pixels[i]@[3] == 255;
    if opaque {
        assert(!crate::picture::translucent(pixels));
    } else {
        let i = choose|i: int| 0 <= i < pixels.len() && #[trigger] pixels[i]@[3] != 255;
        assert(pixels[i]@[3] < 255);
        assert(crate::picture::translucent(pixels));
    }
}

// ---------------------------------------------------------------------------
// The font
// ---------------------------------------------------------------------------

/// A number is the nearest to a length of the font in thousandths of the em.
pub open spec fn in_thousandths(n: int, v: int, units: int) -> bool {
    -units <= 2 * (n * units - 1000 * v) <= units
}

/// A stream stores bytes as they are, or packed by zlib, and says which.
pub open spec fn stores(value: PdfValue, data: Seq<u8>) -> bool {
    match value {
        PdfValue::Stream(entries, bytes) => {
            &&& has(entries, "Length"@, PdfValue::Integer(bytes.len() as int))
            &&& if entries.dom().contains(key("Filter"@)) {
                has(entries, "Filter"@, PdfValue::Name(key("FlateDecode"@))) && best_zlib(data)
                    == Some(bytes)
            } else {
                bytes == data
            }
        },
        _ => false,
    }
}

/// The entries of the dictionary with a number.
pub open spec fn entries_of(doc: DocView, number: int) -> Map<Seq<u8>, PdfValue> {
    doc.objects[(number as u32, 0u16)]->Dictionary_0
}

/// The font that pages refer to takes glyph numbers of two bytes, and refers to one
/// descendant whose glyph numbers are those of the file.
pub proof fn font_takes_glyph_numbers(doc: DocView, data: Seq<u8>, m: MetricsView)
    requires
        doc.max_id + 4 <= u32::MAX,
    ensures
        ({
            let after = with_font(doc, data, m);
            let font = entries_of(after, doc.max_id + 4);
            let cid = entries_of(after, doc.max_id + 3);
            &&& font_id(doc) == ((doc.max_id + 4) as u32, 0u16)
            &&& after.objects[font_id(doc)] is Dictionary
            &&& has(font, "Type"@, PdfValue::Name(key("Font"@)))
            &&& has(font, "Subtype"@, PdfValue::Name(key("Type0"@)))
            &&& has(font, "BaseFont"@, PdfValue::Name(key("Inter-Regular"@)))
            &&& has(font, "Encoding"@, PdfValue::Name(key("Identity-H"@)))
            &&& has(
                font,
                "DescendantFonts"@,
                PdfValue::Array(seq![PdfValue::Reference(((doc.max_id + 3) as u32, 0u16))]),
            )
            &&& has(cid, "Type"@, PdfValue::Name(key("Font"@)))
            &&& has(cid, "Subtype"@, PdfValue::Name(key("CIDFontType2"@)))
            &&& has(cid, "CIDToGIDMap"@, PdfValue::Name(key("Identity"@)))
            &&& has(cid, "DW"@, PdfValue::Integer(500))
            &&& has(
                cid,
                "FontDescriptor"@,
                PdfValue::Reference(((doc.max_id + 2) as u32, 0u16)),
            )
        }),
{
    lemma_key_texts();
    reveal_strlit("Type");
    reveal_strlit("Subtype");
    reveal_strlit("BaseFont");
    reveal_strlit("Encoding");
    reveal_strlit("DescendantFonts");
    reveal_strlit("CIDSystemInfo");
    reveal_strlit("FontDescriptor");
    reveal_strlit("CIDToGIDMap");
    reveal_strlit("DW");
    reveal_strlit("W");
    assert("BaseFont"@[0] == 'B' && "Encoding"@[0] == 'E');
}

/// The widths of the font start with glyph zero, one for each glyph, in thousandths of
/// the em.
pub proof fn font_has_the_widths_of_its_glyphs(doc: DocView, data: Seq<u8>, m: MetricsView, g: int)
    requires
        doc.max_id + 4 <= u32::MAX,
        m.units > 0,
        0 <= g < m.advances.len(),
    ensures
        ({
            let cid = entries_of(with_font(doc, data, m), doc.max_id + 3);
            &&& cid.dom().contains(key("W"@))
            &&& cid[key("W"@)] matches PdfValue::Array(items) && items.len() == 2 && items[0]
                == PdfValue::Integer(0) && items[1] is Array
            &&& cid[key("W"@)]->Array_0[1]->Array_0.len() == m.advances.len()
            &&& cid[key("W"@)]->Array_0[1]->Array_0[g] matches PdfValue::Integer(n)
                && in_thousandths(n, m.advances[g] as int, m.units)
        }),
{
    rounded_is_nearest(m.advances[g] * 1000, m.units);
    let n = rounded(m.advances[g] * 1000, m.units);
    assert(m.width_values()[g] == PdfValue::Integer(n));
}

/// The descriptor of the font gives its box, its ascent and descent and the height of its
/// capitals in thousandths of the em, and refers to the font file, which is stored whole.
pub proof fn font_is_described_and_whole(doc: DocView, data: Seq<u8>, m: MetricsView)
    requires
        doc.max_id + 4 <= u32::MAX,
        m.units > 0,
        data.len() <= i64::MAX,
    ensures
        ({
            let after = with_font(doc, data, m);
            let d = entries_of(after, doc.max_id + 2);
            let file = after.objects[((doc.max_id + 1) as u32, 0u16)];
            &&& has(d, "Type"@, PdfValue::Name(key("FontDescriptor"@)))
            &&& has(d, "FontName"@, PdfValue::Name(key("Inter-Regular"@)))
            &&& has(d, "Flags"@, PdfValue::Integer(32))
            &&& has(d, "ItalicAngle"@, PdfValue::Integer(0))
            &&& has(d, "StemV"@, PdfValue::Integer(80))
            &&& has(d, "FontFile2"@, PdfValue::Reference(((doc.max_id + 1) as u32, 0u16)))
            &&& number_in(d, "Ascent"@, m.ascender, m.units)
            &&& number_in(d, "Descent"@, m.descender, m.units)
            &&& match m.capital_height {
                Some(c) => number_in(d, "CapHeight"@, c as int, m.units),
                None => has(d, "CapHeight"@, PdfValue::Integer(728)),
            }
            &&& d[key("FontBBox"@)] matches PdfValue::Array(b) && b.len() == 4 && is_number_in(
                b[0],
                m.x_min,
                m.units,
            ) && is_number_in(b[1], m.y_min, m.units) && is_number_in(b[2], m.x_max, m.units)
                && is_number_in(b[3], m.y_max, m.units)
            &&& stores(file, data)
            &&& has(file->Stream_0, "Length1"@, PdfValue::Integer(data.len() as int))
        }),
{
    lemma_key_texts();
    reveal_strlit("Type");
    reveal_strlit("FontName");
    reveal_strlit("Flags");
    reveal_strlit("FontBBox");
    reveal_strlit("ItalicAngle");
    reveal_strlit("Ascent");
    reveal_strlit("Descent");
    reveal_strlit("CapHeight");
    reveal_strlit("StemV");
    reveal_strlit("FontFile2");
    reveal_strlit("Length1");
    reveal_strlit("Length");
    reveal_strlit("Filter");
    assert("FontName"@[4] == 'N' && "FontBBox"@[4] == 'B');
    assert("Flags"@[0] == 'F' && "StemV"@[0] == 'S');
    assert("CapHeight"@[0] == 'C' && "FontFile2"@[0] == 'F');
    assert("Descent"@[0] == 'D' && "Length1"@[0] == 'L');
    assert("Length"@[0] == 'L' && "Filter"@[0] == 'F' && "Ascent"@[0] == 'A');
    rounded_is_nearest(m.ascender * 1000, m.units);
    rounded_is_nearest(m.descender * 1000, m.units);
    rounded_is_nearest(m.x_min * 1000, m.units);
    rounded_is_nearest(m.y_min * 1000, m.units);
    rounded_is_nearest(m.x_max * 1000, m.units);
    rounded_is_nearest(m.y_max * 1000, m.units);
    if let Some(c) = m.capital_height {
        rounded_is_nearest(c * 1000, m.units);
    }
}

/// A value is the nearest whole number to a length of the font in thousandths of the em.
pub open spec fn is_number_in(value: PdfValue, v: int, units: int) -> bool {
    value matches PdfValue::Integer(n) && in_thousandths(n, v, units)
}

/// A dictionary has an entry that is the nearest whole number to a length of the font in
/// thousandths of the em.
pub open spec fn number_in(
    entries: Map<Seq<u8>, PdfValue>,
    name: Seq<char>,
    v: int,
    units: int,
) -> bool {
    entries.dom().contains(key(name)) && is_number_in(entries[key(name)], v, units)
}

/// The metrics of a font file are those that its face gives: a glyph without an advance
/// has none.
pub proof fn metrics_are_those_of_the_face(data: Seq<u8>, g: int)
    requires
        0 <= g < crate::font::face_glyph_count(data, 0),
    ensures
        ({
            let m = metrics_of(data);
            &&& m.units == crate::font::face_units(data, 0)
            &&& (m.x_min, m.y_min, m.x_max, m.y_max) == (
                crate::font::face_box(data, 0).0 as int,
                crate::font::face_box(data, 0).1 as int,
                crate::font::face_box(data, 0).2 as int,
                crate::font::face_box(data, 0).3 as int,
            )
            &&& m.ascender == crate::font::face_ascender(data, 0)
            &&& m.descender == crate::font::face_descender(data, 0)
            &&& m.capital_height == crate::font::face_capital_height(data, 0)
            &&& m.advances.len() == crate::font::face_glyph_count(data, 0)
            &&& match crate::font::face_advance(data, 0, g as u16) {
                Some(a) => m.advances[g] == a,
                None => m.advances[g] == 0,
            }
        }),
{
}

/// A picture is embedded wherever the document has a number left for it, and one for its
/// mask where it needs one, and its bytes can be packed.
pub proof fn pictures_are_embedded_where_they_can_be(
    doc: DocView,
    w: u32,
    h: u32,
    pixels: Seq<[u8; 4]>,
)
    requires
        zlib(rgb_of(pixels)) is Some,
        zlib(alpha_of(pixels)) is Some,
    ensures
        doc.max_id <= u32::MAX - 2 ==> with_image(doc, w, h, pixels).1 is Ok,
        doc.max_id <= u32::MAX - 1 && (forall|i: int|
            0 <= i < pixels.len() ==> #[trigger] pixels[i]@[3] == 255) ==> with_image(
            doc,
            w,
            h,
            pixels,
        ).1 is Ok,
        doc.max_id == u32::MAX ==> with_image(doc, w, h, pixels) == (
            doc,
            Err::<ObjectId, PictureFault>(PictureFault::Full),
        ),
{
}

/// The glyph numbers of the font are of the collection `Adobe-Identity-0`.
pub proof fn font_names_its_collection(doc: DocView, data: Seq<u8>, m: MetricsView)
    requires
        doc.max_id + 4 <= u32::MAX,
    ensures
        ({
            let cid = entries_of(with_font(doc, data, m), doc.max_id + 3);
            &&& cid.dom().contains(key("CIDSystemInfo"@))
            &&& cid[key("CIDSystemInfo"@)] matches PdfValue::Dictionary(info) && has(
                info,
                "Registry"@,
                PdfValue::Text(key("Adobe"@), false),
            ) && has(info, "Ordering"@, PdfValue::Text(key("Identity"@), false)) && has(
                info,
                "Supplement"@,
                PdfValue::Integer(0),
            )
        }),
{
    lemma_key_texts();
    reveal_strlit("CIDSystemInfo");
    reveal_strlit("FontDescriptor");
    reveal_strlit("CIDToGIDMap");
    reveal_strlit("DW");
    reveal_strlit("W");
    reveal_strlit("Registry");
    reveal_strlit("Ordering");
    reveal_strlit("Supplement");
    assert("Registry"@[0] == 'R' && "Ordering"@[0] == 'O');
}

// ---------------------------------------------------------------------------
// Font files
// ---------------------------------------------------------------------------

/// The `i`th entry of a font file's directory begins with four bytes.
pub open spec fn has_tag(data: Seq<u8>, i: int, a: u8, b: u8, c: u8, d: u8) -> bool {
    &&& 0 <= i
    &&& 12 + 16 * i + 16 <= data.len()
    &&& data[12 + 16 * i] == a && data[13 + 16 * i] == b && data[14 + 16 * i] == c && data[15 + 16
        * i] == d
}

/// How many entries a font file's directory has.
pub open spec fn entry_count(data: Seq<u8>) -> int {
    data[4] * 256 + data[5]
}

/// A collection is not read, nor a font with a table of variation axes.
pub proof fn collections_and_varying_fonts_are_refused(data: Seq<u8>, i: int)
    ensures
        data.len() >= 4 && data[0] == 0x74 && data[1] == 0x74 && data[2] == 0x63 && data[3] == 0x66
            ==> !file_is_plain(data),
        data.len() >= 6 && 12 + 16 * entry_count(data) <= data.len() && i < entry_count(data)
            && has_tag(data, i, 0x66, 0x76, 0x61, 0x72) ==> !file_is_plain(data),
{
    if data.len() >= 6 && 12 + 16 * entry_count(data) <= data.len() && i < entry_count(data)
        && has_tag(data, i, 0x66, 0x76, 0x61, 0x72) {
        assert(number32(data, 12 + 16 * i) == 0x6676_6172);
        assert(!entry_is_plain(data, 12 + 16 * i));
    }
}

/// A table that holds the outlines, the metrics or the names of a font: `glyf`, `head`,
/// `hhea`, `hmtx`, `loca`, `maxp`, `name`, `post` or `OS/2`.
pub open spec fn is_common_tag(tag: int) -> bool {
    ||| tag == 0x676c_7966
    ||| tag == 0x6865_6164
    ||| tag == 0x6868_6561
    ||| tag == 0x686d_7478
    ||| tag == 0x6c6f_6361
    ||| tag == 0x6d61_7870
    ||| tag == 0x6e61_6d65
    ||| tag == 0x706f_7374
    ||| tag == 0x4f53_2f32
}

/// A single font of such tables, whatever they hold, is read.
pub proof fn common_tables_are_read(data: Seq<u8>)
    requires
        6 <= data.len() <= 0x7fff_ffff,
        !(data[0] == 0x74 && data[1] == 0x74 && data[2] == 0x63 && data[3] == 0x66),
        entry_count(data) < 0xffff,
        forall|i: int|
            0 <= i < entry_count(data) ==> is_common_tag(#[trigger] number32(data, 12 + 16 * i)),
    ensures
        file_is_plain(data),
{
    assert forall|i: int| 0 <= i < number16(data, 4) implies #[trigger] entry_is_plain(
        data,
        12 + 16 * i,
    ) by {
        assert(is_common_tag(number32(data, 12 + 16 * i)));
    }
}

/// Two and four bytes make a number, the highest byte first.
pub proof fn bytes_make_numbers(data: Seq<u8>, at: int)
    ensures
        number16(data, at) == 256 * data[at] + data[at + 1],
        number32(data, at) == 16_777_216 * data[at] + 65_536 * data[at + 1] + 256 * data[at + 2]
            + data[at + 3],
{
}

} // verus!
