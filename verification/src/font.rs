//! The text font: its metrics, the glyphs of a text, and how it is embedded in
//! a document as a Type0 font with the whole font file.

use lopdf::{Dictionary, Document, Object, ObjectId, Stream};
use ttf_parser::{Face, FaceParsingError, GlyphId};
use vstd::prelude::*;

use crate::fontfile::{file_is_plain, is_plain_file};
use crate::numtext::{hex4_text, push_hex4};
use crate::objects::{
    array_object, best_zlib, dict_entries, dict_object, dict_set, doc_max_id, doc_view,
    integer_object, key, literal_object, name_object, no_entries, object_values, packed_stream,
    reference_object, stream_object, DocView, PdfValue,
};
use crate::overlay::copy_bytes;
use crate::pagedict::{add_value, push_object};
use crate::units::{round_div, rounded};

verus! {

// ---------------------------------------------------------------------------
// What the font file says
// ---------------------------------------------------------------------------

/// A face of a font file, `ttf_parser::Face`.
#[verifier::external_type_specification]
#[verifier::external_body]
pub struct ExFace<'a>(ttf_parser::Face<'a>);

/// Why a font file cannot be read, `ttf_parser::FaceParsingError`.
#[verifier::external_type_specification]
#[verifier::external_body]
pub struct ExFaceParsingError(ttf_parser::FaceParsingError);

/// The font file that a face was read from, and the number of the face in it.
pub uninterp spec fn face_source(face: Face) -> (Seq<u8>, u32);

/// Whether a font file has a readable face with a number.
pub uninterp spec fn face_is_readable(data: Seq<u8>, index: u32) -> bool;

/// Font units to the em.
pub uninterp spec fn face_units(data: Seq<u8>, index: u32) -> u16;

/// The box that encloses every glyph: left, bottom, right and top.
pub uninterp spec fn face_box(data: Seq<u8>, index: u32) -> (i16, i16, i16, i16);

/// How many glyphs a face has.
pub uninterp spec fn face_glyph_count(data: Seq<u8>, index: u32) -> u16;

/// How far a glyph advances; `None` where the face does not say.
pub uninterp spec fn face_advance(data: Seq<u8>, index: u32, glyph: u16) -> Option<u16>;

/// The ascent of a face.
pub uninterp spec fn face_ascender(data: Seq<u8>, index: u32) -> i16;

/// The descent of a face.
pub uninterp spec fn face_descender(data: Seq<u8>, index: u32) -> i16;

/// The descent that a face's horizontal header gives.
pub uninterp spec fn face_header_descender(data: Seq<u8>, index: u32) -> i16;

/// The typographic descent that a face's `OS/2` table gives; `None` without one.
pub uninterp spec fn face_typo_descender(data: Seq<u8>, index: u32) -> Option<i16>;

/// The descent of a face can be had without the Windows descent, which some files
/// hold as a number that cannot be negated.
pub open spec fn descent_is_given(header: i16, typo: Option<i16>) -> bool {
    header != 0 || match typo {
        Some(d) => d != 0,
        None => true,
    }
}

/// The height of a face's capitals; `None` where it does not say.
pub uninterp spec fn face_capital_height(data: Seq<u8>, index: u32) -> Option<i16>;

/// The glyph for a character; `None` where the face has none.
pub uninterp spec fn face_glyph(data: Seq<u8>, index: u32, c: char) -> Option<u16>;

/// `ttf_parser::Face::parse` reads one face of a font file. On a file that is not plain
/// it may count beyond what it can add up.
#[verifier::external_body]
fn open_face(data: &[u8], index: u32) -> (r: Result<Face<'_>, FaceParsingError>)
    requires
        file_is_plain(data@),
    ensures
        r is Ok == face_is_readable(data@, index),
        r matches Ok(face) ==> face_source(face) == (data@, index),
{
    Face::parse(data, index)
}

/// `ttf_parser::Face::units_per_em` is guaranteed to lie in `16..=16384`.
#[verifier::external_body]
fn units_per_em(face: &Face) -> (r: u16)
    ensures
        r == face_units(face_source(*face).0, face_source(*face).1),
        16 <= r <= 16384,
{
    face.units_per_em()
}

/// `ttf_parser::Face::global_bounding_box`, as left, bottom, right and top.
#[verifier::external_body]
fn bounding_box(face: &Face) -> (r: (i16, i16, i16, i16))
    ensures
        r == face_box(face_source(*face).0, face_source(*face).1),
{
    let b = face.global_bounding_box();
    (b.x_min, b.y_min, b.x_max, b.y_max)
}

/// `ttf_parser::Face::number_of_glyphs` is never zero.
#[verifier::external_body]
fn number_of_glyphs(face: &Face) -> (r: u16)
    ensures
        r == face_glyph_count(face_source(*face).0, face_source(*face).1),
        r > 0,
{
    face.number_of_glyphs()
}

/// `ttf_parser::Face::glyph_hor_advance`. On a face that varies it adds up what the
/// variations say, which may overflow; a plain file has no such face.
#[verifier::external_body]
fn glyph_hor_advance(face: &Face, glyph: u16) -> (r: Option<u16>)
    requires
        file_is_plain(face_source(*face).0),
    ensures
        r == face_advance(face_source(*face).0, face_source(*face).1, glyph),
{
    face.glyph_hor_advance(GlyphId(glyph))
}

/// `ttf_parser::Face::ascender`. It adds up variations likewise.
#[verifier::external_body]
fn ascender(face: &Face) -> (r: i16)
    requires
        file_is_plain(face_source(*face).0),
    ensures
        r == face_ascender(face_source(*face).0, face_source(*face).1),
{
    face.ascender()
}

/// The field `descender` of `ttf_parser`'s horizontal header table.
#[verifier::external_body]
fn header_descender(face: &Face) -> (r: i16)
    ensures
        r == face_header_descender(face_source(*face).0, face_source(*face).1),
{
    face.tables().hhea.descender
}

/// `ttf_parser::os2::Table::typographic_descender`, of a face that has that table.
#[verifier::external_body]
fn typo_descender(face: &Face) -> (r: Option<i16>)
    ensures
        r == face_typo_descender(face_source(*face).0, face_source(*face).1),
{
    face.tables().os2.map(|t| t.typographic_descender())
}

/// `ttf_parser::Face::descender`. Where the header and the typographic descent are both
/// zero it negates the Windows descent, which overflows for the least number. It adds up
/// variations likewise.
#[verifier::external_body]
fn descender(face: &Face) -> (r: i16)
    requires
        file_is_plain(face_source(*face).0),
        descent_is_given(
            face_header_descender(face_source(*face).0, face_source(*face).1),
            face_typo_descender(face_source(*face).0, face_source(*face).1),
        ),
    ensures
        r == face_descender(face_source(*face).0, face_source(*face).1),
{
    face.descender()
}

/// `ttf_parser::Face::capital_height`. It adds up variations likewise.
#[verifier::external_body]
fn capital_height(face: &Face) -> (r: Option<i16>)
    requires
        file_is_plain(face_source(*face).0),
    ensures
        r == face_capital_height(face_source(*face).0, face_source(*face).1),
{
    face.capital_height()
}

/// `ttf_parser::Face::glyph_index` finds the glyph for a character. A count in the
/// character map that goes beyond the map may overflow; a plain file has none.
#[verifier::external_body]
fn glyph_index(face: &Face, c: char) -> (r: Option<u16>)
    requires
        file_is_plain(face_source(*face).0),
    ensures
        r == face_glyph(face_source(*face).0, face_source(*face).1, c),
{
    face.glyph_index(c).map(|g| g.0)
}

// ---------------------------------------------------------------------------
// Fonts
// ---------------------------------------------------------------------------

/// A font file has a first face that can be used.
pub open spec fn font_is_usable(data: Seq<u8>) -> bool {
    file_is_plain(data) && face_is_readable(data, 0) && descent_is_given(
        face_header_descender(data, 0),
        face_typo_descender(data, 0),
    )
}

/// A font file whose first face can be used.
pub struct Font<'a> {
    data: &'a [u8],
    face: Face<'a>,
}

impl<'a> Font<'a> {
    /// The bytes of the font file.
    pub closed spec fn data(self) -> Seq<u8> {
        self.data@
    }

    #[verifier::type_invariant]
    spec fn wf(self) -> bool {
        &&& face_source(self.face) == (self.data@, 0u32)
        &&& file_is_plain(self.data@)
        &&& descent_is_given(
            face_header_descender(self.data@, 0),
            face_typo_descender(self.data@, 0),
        )
    }
}

/// Why a font file cannot be used.
pub enum FontError {
    /// It is a collection, or it varies, or it has tables that are not used here, or a
    /// count in it is wrong.
    NotPlain,
    /// Its first face cannot be read.
    Unreadable(FaceParsingError),
    /// It says nothing of its descent, but perhaps for Windows.
    NoDescent,
}

/// Read the first face of a font file.
pub fn inter_face(data: &[u8]) -> (r: Result<Font<'_>, FontError>)
    ensures
        match r {
            Ok(font) => font_is_usable(data@) && font.data() == data@,
            Err(FontError::NotPlain) => !file_is_plain(data@),
            Err(FontError::Unreadable(_)) => file_is_plain(data@) && !face_is_readable(data@, 0),
            Err(FontError::NoDescent) => file_is_plain(data@) && face_is_readable(data@, 0)
                && !font_is_usable(data@),
        },
{
    if !is_plain_file(data) {
        return Err(FontError::NotPlain);
    }
    match open_face(data, 0) {
        Ok(face) => {
            let given = header_descender(&face) != 0 || match typo_descender(&face) {
                Some(d) => d != 0,
                None => true,
            };
            if given {
                Ok(Font { data, face })
            } else {
                Err(FontError::NoDescent)
            }
        },
        Err(e) => Err(FontError::Unreadable(e)),
    }
}

/// What the embedding of a font needs of it, in font units.
pub struct FontMetrics {
    pub units_per_em: u16,
    pub x_min: i16,
    pub y_min: i16,
    pub x_max: i16,
    pub y_max: i16,
    pub ascender: i16,
    pub descender: i16,
    pub capital_height: Option<i16>,
    /// The advance of each glyph, zero where the font does not say.
    pub advances: Vec<u16>,
}

/// The mathematical content of [`FontMetrics`].
pub struct MetricsView {
    pub units: int,
    pub x_min: int,
    pub y_min: int,
    pub x_max: int,
    pub y_max: int,
    pub ascender: int,
    pub descender: int,
    pub capital_height: Option<i16>,
    pub advances: Seq<u16>,
}

impl View for FontMetrics {
    type V = MetricsView;

    open spec fn view(&self) -> MetricsView {
        MetricsView {
            units: self.units_per_em as int,
            x_min: self.x_min as int,
            y_min: self.y_min as int,
            x_max: self.x_max as int,
            y_max: self.y_max as int,
            ascender: self.ascender as int,
            descender: self.descender as int,
            capital_height: self.capital_height,
            advances: self.advances@,
        }
    }
}

/// The advance of each glyph of a font file.
pub open spec fn advances_of(data: Seq<u8>) -> Seq<u16> {
    Seq::new(
        face_glyph_count(data, 0) as nat,
        |g: int|
            match face_advance(data, 0, g as u16) {
                Some(advance) => advance,
                None => 0,
            },
    )
}

/// The metrics of a font file.
pub open spec fn metrics_of(data: Seq<u8>) -> MetricsView {
    let (x_min, y_min, x_max, y_max) = face_box(data, 0);
    MetricsView {
        units: face_units(data, 0) as int,
        x_min: x_min as int,
        y_min: y_min as int,
        x_max: x_max as int,
        y_max: y_max as int,
        ascender: face_ascender(data, 0) as int,
        descender: face_descender(data, 0) as int,
        capital_height: face_capital_height(data, 0),
        advances: advances_of(data),
    }
}

/// Read the metrics of a font.
pub fn font_metrics(font: &Font) -> (r: FontMetrics)
    ensures
        r@ == metrics_of(font.data()),
        16 <= r.units_per_em <= 16384,
        r.advances@.len() > 0,
{
    proof {
        use_type_invariant(font);
    }
    let face = &font.face;
    let (x_min, y_min, x_max, y_max) = bounding_box(face);
    let n = number_of_glyphs(face);
    let mut advances: Vec<u16> = Vec::new();
    let mut glyph: u16 = 0;
    while glyph < n
        invariant
            face_source(*face) == (font.data(), 0u32),
            file_is_plain(font.data()),
            n == face_glyph_count(font.data(), 0),
            glyph <= n,
            advances@ == advances_of(font.data()).take(glyph as int),
        decreases n - glyph,
    {
        advances.push(
            match glyph_hor_advance(face, glyph) {
                Some(advance) => advance,
                None => 0,
            },
        );
        glyph += 1;
        assert(advances@ =~= advances_of(font.data()).take(glyph as int));
    }
    assert(advances@ =~= advances_of(font.data()));
    FontMetrics {
        units_per_em: units_per_em(face),
        x_min,
        y_min,
        x_max,
        y_max,
        ascender: ascender(face),
        descender: descender(face),
        capital_height: capital_height(face),
        advances,
    }
}

// ---------------------------------------------------------------------------
// Text as glyphs
// ---------------------------------------------------------------------------

/// The glyphs of a text; the glyph of a character that the font lacks is the
/// font's first, the sign for a missing character.
pub open spec fn glyphs_of(data: Seq<u8>, text: Seq<char>) -> Seq<u16> {
    text.map_values(
        |c: char|
            match face_glyph(data, 0, c) {
                Some(glyph) => glyph,
                None => 0,
            },
    )
}

/// Glyph numbers as the encoding `Identity-H` takes them: four hexadecimal
/// digits each.
pub open spec fn glyph_text(glyphs: Seq<u16>) -> Seq<char>
    decreases glyphs.len(),
{
    if glyphs.len() == 0 {
        Seq::empty()
    } else {
        glyph_text(glyphs.drop_last()) + hex4_text(glyphs.last() as int)
    }
}

/// The glyphs of a text.
pub fn glyphs_for_text(font: &Font, text: &str) -> (r: Vec<u16>)
    ensures
        r@ == glyphs_of(font.data(), text@),
{
    proof {
        use_type_invariant(font);
    }
    let face = &font.face;
    let mut r: Vec<u16> = Vec::new();
    for c in it: text.chars()
        invariant
            face_source(*face) == (font.data(), 0u32),
            file_is_plain(font.data()),
            it.seq() == text@,
            r@ == glyphs_of(font.data(), text@).take(it.index()),
    {
        r.push(
            match glyph_index(face, c) {
                Some(glyph) => glyph,
                None => 0,
            },
        );
        assert(r@ =~= glyphs_of(font.data(), text@).take(it.index() + 1));
    }
    assert(r@ =~= glyphs_of(font.data(), text@));
    r
}

/// Append glyph numbers as the encoding `Identity-H` takes them.
pub fn push_glyphs(out: &mut String, glyphs: &Vec<u16>)
    ensures
        final(out)@ == old(out)@ + glyph_text(glyphs@),
{
    let n = glyphs.len();
    let mut i: usize = 0;
    assert(out@ =~= old(out)@ + glyph_text(glyphs@.take(0)));
    while i < n
        invariant
            n == glyphs.len(),
            i <= n,
            out@ == old(out)@ + glyph_text(glyphs@.take(i as int)),
        decreases n - i,
    {
        push_hex4(out, glyphs[i]);
        i += 1;
        assert(glyphs@.take(i as int).drop_last() =~= glyphs@.take(i - 1));
        assert(out@ =~= old(out)@ + glyph_text(glyphs@.take(i as int)));
    }
    assert(glyphs@.take(n as int) =~= glyphs@);
}

/// A text as the hexadecimal glyph numbers that the encoding `Identity-H` takes.
pub fn encode_text_for_inter(font: &Font, text: &str) -> (r: String)
    ensures
        r@ == glyph_text(glyphs_of(font.data(), text@)),
{
    let mut out = String::new();
    push_glyphs(&mut out, &glyphs_for_text(font, text));
    assert(out@ =~= glyph_text(glyphs_of(font.data(), text@)));
    out
}

/// Encoding a text in two parts, one after the other, gives the encoding of the
/// whole.
pub proof fn glyph_text_of_concat(a: Seq<u16>, b: Seq<u16>)
    ensures
        glyph_text(a + b) == glyph_text(a) + glyph_text(b),
        glyph_text(a).len() == 4 * a.len(),
    decreases b.len(), a.len(),
{
    if b.len() == 0 {
        assert(a + b =~= a);
        assert(glyph_text(a) + glyph_text(b) =~= glyph_text(a));
        if a.len() > 0 {
            glyph_text_of_concat(a.drop_last(), b);
        }
    } else {
        assert((a + b).drop_last() =~= a + b.drop_last());
        glyph_text_of_concat(a, b.drop_last());
        assert(glyph_text(a + b) =~= glyph_text(a) + glyph_text(b));
    }
}

// ---------------------------------------------------------------------------
// Embedding
// ---------------------------------------------------------------------------

/// A length in font units as thousandths of the em.
pub open spec fn per_mille(v: int, units: int) -> int {
    rounded(v * 1000, units)
}

/// The font file as an object.
pub open spec fn font_file(data: Seq<u8>) -> PdfValue {
    packed_stream(
        PdfValue::Stream(
            no_entries().insert(
                key("Length1"@),
                PdfValue::Integer((data.len() as i64) as int),
            ).insert(
                key("Length"@),
                PdfValue::Integer(data.len() as int),
            ),
            data,
        ),
        best_zlib(data),
    )
}

/// A name object.
pub open spec fn name(text: Seq<char>) -> PdfValue {
    PdfValue::Name(key(text))
}

impl MetricsView {
    /// The box that encloses every glyph, in thousandths of the em.
    pub open spec fn bbox_value(self) -> PdfValue {
        PdfValue::Array(
            seq![
                PdfValue::Integer(per_mille(self.x_min, self.units)),
                PdfValue::Integer(per_mille(self.y_min, self.units)),
                PdfValue::Integer(per_mille(self.x_max, self.units)),
                PdfValue::Integer(per_mille(self.y_max, self.units)),
            ],
        )
    }

    /// The height of the capitals in thousandths of the em, with a default.
    pub open spec fn cap_height(self) -> int {
        match self.capital_height {
            Some(h) => per_mille(h as int, self.units),
            None => 728,
        }
    }

    /// The widths of all glyphs, in thousandths of the em.
    pub open spec fn width_values(self) -> Seq<PdfValue> {
        self.advances.map_values(
            |a: u16| PdfValue::Integer(per_mille(a as int, self.units)),
        )
    }

    /// The font descriptor.
    pub open spec fn descriptor(self, file_id: ObjectId) -> PdfValue {
        PdfValue::Dictionary(
            no_entries().insert(key("Type"@), name("FontDescriptor"@)).insert(
                key("FontName"@),
                name("Inter-Regular"@),
            ).insert(key("Flags"@), PdfValue::Integer(32)).insert(
                key("FontBBox"@),
                self.bbox_value(),
            ).insert(key("ItalicAngle"@), PdfValue::Integer(0)).insert(
                key("Ascent"@),
                PdfValue::Integer(per_mille(self.ascender, self.units)),
            ).insert(
                key("Descent"@),
                PdfValue::Integer(per_mille(self.descender, self.units)),
            ).insert(key("CapHeight"@), PdfValue::Integer(self.cap_height())).insert(
                key("StemV"@),
                PdfValue::Integer(80),
            ).insert(key("FontFile2"@), PdfValue::Reference(file_id)),
        )
    }

    /// The descendant font, which maps characters to glyphs one to one.
    pub open spec fn cid_font(self, descriptor_id: ObjectId) -> PdfValue {
        PdfValue::Dictionary(
            no_entries().insert(key("Type"@), name("Font"@)).insert(
                key("Subtype"@),
                name("CIDFontType2"@),
            ).insert(key("BaseFont"@), name("Inter-Regular"@)).insert(
                key("CIDSystemInfo"@),
                system_info(),
            ).insert(key("FontDescriptor"@), PdfValue::Reference(descriptor_id)).insert(
                key("CIDToGIDMap"@),
                name("Identity"@),
            ).insert(key("DW"@), PdfValue::Integer(500)).insert(
                key("W"@),
                PdfValue::Array(
                    seq![PdfValue::Integer(0), PdfValue::Array(self.width_values())],
                ),
            ),
        )
    }
}

/// The character collection that the glyph numbers belong to.
pub open spec fn system_info() -> PdfValue {
    PdfValue::Dictionary(
        no_entries().insert(key("Registry"@), PdfValue::Text(key("Adobe"@), false)).insert(
            key("Ordering"@),
            PdfValue::Text(key("Identity"@), false),
        ).insert(key("Supplement"@), PdfValue::Integer(0)),
    )
}

/// The font that pages refer to.
pub open spec fn type0_font(cid_font_id: ObjectId) -> PdfValue {
    PdfValue::Dictionary(
        no_entries().insert(key("Type"@), name("Font"@)).insert(
            key("Subtype"@),
            name("Type0"@),
        ).insert(key("BaseFont"@), name("Inter-Regular"@)).insert(
            key("Encoding"@),
            name("Identity-H"@),
        ).insert(
            key("DescendantFonts"@),
            PdfValue::Array(seq![PdfValue::Reference(cid_font_id)]),
        ),
    )
}

/// A document with an embedded font: the font file, its descriptor, the
/// descendant font and the font, in this order.
pub open spec fn with_font(doc: DocView, data: Seq<u8>, metrics: MetricsView) -> DocView {
    let doc1 = doc.added(font_file(data));
    let doc2 = doc1.added(metrics.descriptor(doc.next_id()));
    let doc3 = doc2.added(metrics.cid_font(doc1.next_id()));
    doc3.added(type0_font(doc2.next_id()))
}

/// The number of the font that [`with_font`] adds.
pub open spec fn font_id(doc: DocView) -> ObjectId {
    ((doc.max_id + 4) as u32, 0u16)
}

pub(crate) fn set_name(dict: &mut Dictionary, k: &str, text: &str)
    ensures
        dict_entries(*final(dict)) == dict_entries(*old(dict)).insert(key(k@), name(text@)),
{
    dict_set(dict, k.as_bytes(), name_object(text))
}

pub(crate) fn set_integer(dict: &mut Dictionary, k: &str, n: i64)
    ensures
        dict_entries(*final(dict)) == dict_entries(*old(dict)).insert(
            key(k@),
            PdfValue::Integer(n as int),
        ),
{
    dict_set(dict, k.as_bytes(), integer_object(n))
}

fn to_per_mille(v: i32, units: u16) -> (r: i64)
    requires
        units > 0,
        -65_536 <= v <= 65_536,
    ensures
        r == per_mille(v as int, units as int),
{
    let r = round_div(v as i128 * 1000, units as i128);
    assert(-65_536_000 <= r <= 65_536_000) by {
        crate::units::rounded_is_nearest(v * 1000, units as int);
        assert(-65_536_000 <= r <= 65_536_000) by (nonlinear_arith)
            requires
                -65_536_000 <= v * 1000 <= 65_536_000,
                units >= 1,
                -(units as int) <= 2 * (r * units - v * 1000) <= units,
        ;
    }
    r as i64
}

/// Embed a font file with the given metrics, and give the number of the font.
#[verifier::rlimit(40)]
pub fn embed_font(doc: &mut Document, data: &[u8], metrics: &FontMetrics) -> (r: ObjectId)
    requires
        metrics.units_per_em > 0,
        doc_max_id(*old(doc)) <= u32::MAX - 4,
    ensures
        doc_view(*final(doc)) == with_font(doc_view(*old(doc)), data@, metrics@),
        r == font_id(doc_view(*old(doc))),
{
    let units = metrics.units_per_em;
    let mut file_dict = Dictionary::new();
    let bytes = copy_bytes(data);
    let length: i64 = #[verifier::truncate]
    (data.len() as i64);
    set_integer(&mut file_dict, "Length1", length);
    let mut file = Stream::new(file_dict, bytes);
    let _ = file.compress();
    let file_id = add_value(doc, stream_object(file));

    let mut bbox: Vec<Object> = Vec::new();
    push_object(&mut bbox, integer_object(to_per_mille(metrics.x_min as i32, units)));
    push_object(&mut bbox, integer_object(to_per_mille(metrics.y_min as i32, units)));
    push_object(&mut bbox, integer_object(to_per_mille(metrics.x_max as i32, units)));
    push_object(&mut bbox, integer_object(to_per_mille(metrics.y_max as i32, units)));
    assert(PdfValue::Array(object_values(bbox@)) == metrics@.bbox_value()) by {
        assert(object_values(bbox@) =~= metrics@.bbox_value()->Array_0);
    }
    let mut descriptor = Dictionary::new();
    set_name(&mut descriptor, "Type", "FontDescriptor");
    set_name(&mut descriptor, "FontName", "Inter-Regular");
    set_integer(&mut descriptor, "Flags", 32);
    dict_set(&mut descriptor, "FontBBox".as_bytes(), array_object(bbox));
    set_integer(&mut descriptor, "ItalicAngle", 0);
    set_integer(&mut descriptor, "Ascent", to_per_mille(metrics.ascender as i32, units));
    set_integer(&mut descriptor, "Descent", to_per_mille(metrics.descender as i32, units));
    set_integer(
        &mut descriptor,
        "CapHeight",
        match metrics.capital_height {
            Some(h) => to_per_mille(h as i32, units),
            None => 728,
        },
    );
    set_integer(&mut descriptor, "StemV", 80);
    dict_set(&mut descriptor, "FontFile2".as_bytes(), reference_object(file_id));
    let descriptor_id = add_value(doc, dict_object(descriptor));

    let mut info = Dictionary::new();
    dict_set(&mut info, "Registry".as_bytes(), literal_object("Adobe"));
    dict_set(&mut info, "Ordering".as_bytes(), literal_object("Identity"));
    set_integer(&mut info, "Supplement", 0);
    let mut w: Vec<Object> = Vec::new();
    push_object(&mut w, integer_object(0));
    push_object(&mut w, array_object(width_objects(metrics)));
    assert(object_values(w@) =~= seq![
        PdfValue::Integer(0),
        PdfValue::Array(metrics@.width_values()),
    ]);
    let mut cid_font = Dictionary::new();
    set_name(&mut cid_font, "Type", "Font");
    set_name(&mut cid_font, "Subtype", "CIDFontType2");
    set_name(&mut cid_font, "BaseFont", "Inter-Regular");
    dict_set(&mut cid_font, "CIDSystemInfo".as_bytes(), dict_object(info));
    dict_set(&mut cid_font, "FontDescriptor".as_bytes(), reference_object(descriptor_id));
    set_name(&mut cid_font, "CIDToGIDMap", "Identity");
    set_integer(&mut cid_font, "DW", 500);
    dict_set(&mut cid_font, "W".as_bytes(), array_object(w));
    let cid_font_id = add_value(doc, dict_object(cid_font));

    let mut descendants: Vec<Object> = Vec::new();
    push_object(&mut descendants, reference_object(cid_font_id));
    assert(object_values(descendants@) =~= seq![PdfValue::Reference(cid_font_id)]);
    let mut font = Dictionary::new();
    set_name(&mut font, "Type", "Font");
    set_name(&mut font, "Subtype", "Type0");
    set_name(&mut font, "BaseFont", "Inter-Regular");
    set_name(&mut font, "Encoding", "Identity-H");
    dict_set(&mut font, "DescendantFonts".as_bytes(), array_object(descendants));
    add_value(doc, dict_object(font))
}

fn width_objects(metrics: &FontMetrics) -> (r: Vec<Object>)
    requires
        metrics.units_per_em > 0,
    ensures
        object_values(r@) == metrics@.width_values(),
{
    let n = metrics.advances.len();
    let mut r: Vec<Object> = Vec::new();
    let mut i: usize = 0;
    assert(object_values(r@) =~= metrics@.width_values().take(0));
    while i < n
        invariant
            metrics.units_per_em > 0,
            n == metrics.advances.len(),
            i <= n,
            object_values(r@) == metrics@.width_values().take(i as int),
        decreases n - i,
    {
        let width = to_per_mille(metrics.advances[i] as i32, metrics.units_per_em);
        push_object(&mut r, integer_object(width));
        i += 1;
        assert(object_values(r@) =~= metrics@.width_values().take(i as int));
    }
    assert(metrics@.width_values().take(n as int) =~= metrics@.width_values());
    r
}

/// Embed a font with its own metrics, and give the number of the font.
pub fn embed_inter_font(doc: &mut Document, font: &Font) -> (r: ObjectId)
    requires
        doc_max_id(*old(doc)) <= u32::MAX - 4,
    ensures
        doc_view(*final(doc)) == with_font(
            doc_view(*old(doc)),
            font.data(),
            metrics_of(font.data()),
        ),
        r == font_id(doc_view(*old(doc))),
{
    let metrics = font_metrics(font);
    embed_font(doc, font.data, &metrics)
}

} // verus!
