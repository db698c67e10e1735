//! Pictures as PDF image objects: the colours, and a mask for what shows
//! through.

use std::io::Write;

use flate2::{write::ZlibEncoder, Compression};
use image::DynamicImage;
use lopdf::{Dictionary, Document, ObjectId, Stream};
use vstd::prelude::*;

use crate::font::{name, set_integer, set_name};
use crate::objects::{
    dict_set, doc_view, key, largest_id, lemma_keys_differ, no_entries, reference_object,
    stream_object, DocView, PdfValue,
};
use crate::pagedict::add_value;

verus! {

/// A decoded picture, `image::DynamicImage`.
#[verifier::external_type_specification]
#[verifier::external_body]
pub struct ExDynamicImage(image::DynamicImage);

/// Why writing fails, `std::io::Error`.
#[verifier::external_type_specification]
#[verifier::external_body]
pub struct ExIoError(std::io::Error);

/// The pixels of a picture as red, green, blue and opacity, row by row from the
/// top, with its width and height.
pub uninterp spec fn image_rgba(image: DynamicImage) -> (u32, u32, Seq<[u8; 4]>);

/// What zlib makes of bytes at its default level; `None` where it fails.
pub uninterp spec fn zlib(bytes: Seq<u8>) -> Option<Seq<u8>>;

/// `image::DynamicImage::to_rgba8` gives a copy of a picture whose pixels have
/// four bytes; there are as many pixels as width times height.
#[verifier::external_body]
fn rgba_of(image: &DynamicImage) -> (r: (u32, u32, Vec<[u8; 4]>))
    ensures
        (r.0, r.1, r.2@) == image_rgba(*image),
        r.2@.len() == r.0 * r.1,
{
    let rgba = image.to_rgba8();
    (rgba.width(), rgba.height(), rgba.pixels().map(|p| p.0).collect())
}

/// `flate2::write::ZlibEncoder` at the default level: all bytes written to it,
/// then finished.
#[verifier::external_body]
fn deflate(bytes: &[u8]) -> (r: Result<Vec<u8>, std::io::Error>)
    ensures
        match r {
            Ok(packed) => zlib(bytes@) == Some(packed@),
            Err(_) => zlib(bytes@) is None,
        },
{
    let mut encoder = ZlibEncoder::new(Vec::new(), Compression::default());
    encoder.write_all(bytes)?;
    encoder.finish()
}

/// The colours of pixels, three bytes each.
pub open spec fn rgb_of(pixels: Seq<[u8; 4]>) -> Seq<u8> {
    Seq::new(3 * pixels.len(), |i: int| pixels[i / 3]@[i % 3])
}

/// The opacities of pixels, one byte each.
pub open spec fn alpha_of(pixels: Seq<[u8; 4]>) -> Seq<u8> {
    Seq::new(pixels.len(), |i: int| pixels[i]@[3])
}

/// Something shows through the picture.
pub open spec fn translucent(pixels: Seq<[u8; 4]>) -> bool {
    exists|i: int| 0 <= i < pixels.len() && #[trigger] pixels[i]@[3] < 255
}

/// What an image object says of itself, but for its mask and its length.
pub open spec fn image_entries(w: u32, h: u32, color_space: Seq<char>) -> Map<Seq<u8>, PdfValue> {
    no_entries().insert(key("Type"@), name("XObject"@)).insert(
        key("Subtype"@),
        name("Image"@),
    ).insert(key("Width"@), PdfValue::Integer(w as int)).insert(
        key("Height"@),
        PdfValue::Integer(h as int),
    ).insert(key("ColorSpace"@), name(color_space)).insert(
        key("BitsPerComponent"@),
        PdfValue::Integer(8),
    ).insert(key("Filter"@), name("FlateDecode"@))
}

/// An image object with the given entries and packed bytes.
pub open spec fn image_object(entries: Map<Seq<u8>, PdfValue>, packed: Seq<u8>) -> PdfValue {
    PdfValue::Stream(
        entries.insert(key("Length"@), PdfValue::Integer(packed.len() as int)),
        packed,
    )
}

/// A document after the mask of a picture has been added, where it needs one,
/// with the number of the mask; `None` where packing fails.
pub open spec fn with_mask(doc: DocView, w: u32, h: u32, pixels: Seq<[u8; 4]>) -> Option<
    (DocView, Option<ObjectId>),
> {
    if translucent(pixels) {
        match zlib(alpha_of(pixels)) {
            Some(packed) => Some(
                (
                    doc.added(image_object(image_entries(w, h, "DeviceGray"@), packed)),
                    Some(doc.next_id()),
                ),
            ),
            None => None,
        }
    } else {
        Some((doc, None))
    }
}

/// The entries of a picture, with a mask where it has one.
pub open spec fn picture_entries(w: u32, h: u32, mask: Option<ObjectId>) -> Map<
    Seq<u8>,
    PdfValue,
> {
    let entries = image_entries(w, h, "DeviceRGB"@);
    match mask {
        Some(id) => entries.insert(key("SMask"@), PdfValue::Reference(id)),
        None => entries,
    }
}

/// A document after a picture has been added, and the number of the picture;
/// `None` where packing fails.
pub open spec fn with_picture(doc: DocView, w: u32, h: u32, pixels: Seq<[u8; 4]>) -> (
    DocView,
    Option<ObjectId>,
) {
    match with_mask(doc, w, h, pixels) {
        Some((doc1, mask)) => match zlib(rgb_of(pixels)) {
            Some(packed) => (
                doc1.added(image_object(picture_entries(w, h, mask), packed)),
                Some(doc1.next_id()),
            ),
            None => (doc1, None),
        },
        None => (doc, None),
    }
}

/// How many objects a picture is added as.
pub open spec fn picture_objects(pixels: Seq<[u8; 4]>) -> nat {
    if translucent(pixels) {
        2
    } else {
        1
    }
}

/// A document has numbers left for a picture.
pub open spec fn has_room(doc: DocView, pixels: Seq<[u8; 4]>) -> bool {
    doc.max_id + picture_objects(pixels) <= u32::MAX
}

/// Why a picture could not be added, without the details.
pub enum PictureFault {
    Full,
    Packing,
}

/// A document after a picture has been added where there is room for it, and the
/// number of the picture.
pub open spec fn with_image(doc: DocView, w: u32, h: u32, pixels: Seq<[u8; 4]>) -> (
    DocView,
    Result<ObjectId, PictureFault>,
) {
    if !has_room(doc, pixels) {
        (doc, Err(PictureFault::Full))
    } else {
        let (after, id) = with_picture(doc, w, h, pixels);
        (
            after,
            match id {
                Some(id) => Ok(id),
                None => Err(PictureFault::Packing),
            },
        )
    }
}

/// A picture that shows nothing through is added as one object without a mask.
/// Any other is added as two, the mask and the picture that refers to it.
pub proof fn picture_has_mask_iff_translucent(
    doc: DocView,
    w: u32,
    h: u32,
    pixels: Seq<[u8; 4]>,
)
    requires
        has_room(doc, pixels),
        with_picture(doc, w, h, pixels).1 is Some,
    ensures
        ({
            let (after, id) = with_picture(doc, w, h, pixels);
            &&& after.objects[id->Some_0] matches PdfValue::Stream(entries, packed)
            &&& zlib(rgb_of(pixels)) == Some(packed)
            &&& entries.dom().contains(key("SMask"@)) == translucent(pixels)
            &&& translucent(pixels) ==> entries[key("SMask"@)] == PdfValue::Reference(
                doc.next_id(),
            )
            &&& translucent(pixels) ==> stream_has(
                after.objects[doc.next_id()],
                zlib(alpha_of(pixels)),
            )
            &&& after.max_id == doc.max_id + (if translucent(pixels) {
                2int
            } else {
                1int
            })
        }),
{
    let entries = image_entries(w, h, "DeviceRGB"@);
    assert(!entries.dom().contains(key("SMask"@)) && key("SMask"@) != key("Length"@)) by {
        lemma_mask_key_is_new();
    }
}

/// A stream stores the given bytes.
pub open spec fn stream_has(value: PdfValue, bytes: Option<Seq<u8>>) -> bool {
    match value {
        PdfValue::Stream(_, stored) => bytes == Some(stored),
        _ => false,
    }
}

proof fn lemma_mask_key_is_new()
    ensures
        key("SMask"@) != key("Type"@),
        key("SMask"@) != key("Subtype"@),
        key("SMask"@) != key("Width"@),
        key("SMask"@) != key("Height"@),
        key("SMask"@) != key("ColorSpace"@),
        key("SMask"@) != key("BitsPerComponent"@),
        key("SMask"@) != key("Filter"@),
        key("SMask"@) != key("Length"@),
{
    reveal_strlit("SMask");
    reveal_strlit("Type");
    reveal_strlit("Subtype");
    reveal_strlit("Width");
    reveal_strlit("Height");
    reveal_strlit("ColorSpace");
    reveal_strlit("BitsPerComponent");
    reveal_strlit("Filter");
    reveal_strlit("Length");
    assert("SMask"@[1] == 'M' && "Width"@[1] == 'i');
    lemma_keys_differ("SMask"@, "Type"@);
    lemma_keys_differ("SMask"@, "Subtype"@);
    lemma_keys_differ("SMask"@, "Width"@);
    lemma_keys_differ("SMask"@, "Height"@);
    lemma_keys_differ("SMask"@, "ColorSpace"@);
    lemma_keys_differ("SMask"@, "BitsPerComponent"@);
    lemma_keys_differ("SMask"@, "Filter"@);
    lemma_keys_differ("SMask"@, "Length"@);
}

fn split_channels(pixels: &Vec<[u8; 4]>) -> (r: (Vec<u8>, Vec<u8>, bool))
    ensures
        r.0@ == rgb_of(pixels@),
        r.1@ == alpha_of(pixels@),
        r.2 == translucent(pixels@),
{
    let n = pixels.len();
    let mut rgb: Vec<u8> = Vec::new();
    let mut alpha: Vec<u8> = Vec::new();
    let mut has_alpha = false;
    let mut i: usize = 0;
    assert(rgb@ =~= rgb_of(pixels@.take(0)));
    assert(alpha@ =~= alpha_of(pixels@.take(0)));
    while i < n
        invariant
            n == pixels.len(),
            i <= n,
            rgb@ == rgb_of(pixels@.take(i as int)),
            alpha@ == alpha_of(pixels@.take(i as int)),
            has_alpha == translucent(pixels@.take(i as int)),
        decreases n - i,
    {
        let px = pixels[i];
        rgb.push(px[0]);
        rgb.push(px[1]);
        rgb.push(px[2]);
        alpha.push(px[3]);
        let ghost before = pixels@.take(i as int);
        let ghost after = pixels@.take(i + 1);
        if px[3] < 255 {
            has_alpha = true;
            assert(after[i as int]@[3] < 255);
        }
        assert(after =~= before.push(px));
        assert(rgb@ =~= rgb_of(after)) by {
            assert forall|k: int| 0 <= k < rgb@.len() implies rgb@[k] == rgb_of(after)[k] by {
                if k < 3 * i {
                    assert(0 <= k / 3 < i);
                    assert(rgb@[k] == rgb_of(before)[k]);
                } else {
                    assert(k / 3 == i && k % 3 == k - 3 * i);
                }
            }
        }
        assert(alpha@ =~= alpha_of(after));
        assert(has_alpha == translucent(after)) by {
            if translucent(before) {
                let j = choose|j: int| 0 <= j < before.len() && #[trigger] before[j]@[3] < 255;
                assert(after[j]@[3] < 255);
            }
            if translucent(after) && px[3] == 255 {
                let j = choose|j: int| 0 <= j < after.len() && #[trigger] after[j]@[3] < 255;
                assert(before[j]@[3] < 255);
            }
        }
        i += 1;
    }
    assert(pixels@.take(n as int) =~= pixels@);
    (rgb, alpha, has_alpha)
}

fn image_dict(w: u32, h: u32, color_space: &str) -> (r: Dictionary)
    ensures
        crate::objects::dict_entries(r) == image_entries(w, h, color_space@),
{
    let mut dict = Dictionary::new();
    set_name(&mut dict, "Type", "XObject");
    set_name(&mut dict, "Subtype", "Image");
    set_integer(&mut dict, "Width", w as i64);
    set_integer(&mut dict, "Height", h as i64);
    set_name(&mut dict, "ColorSpace", color_space);
    set_integer(&mut dict, "BitsPerComponent", 8);
    set_name(&mut dict, "Filter", "FlateDecode");
    dict
}

/// What came of adding a picture whose pixels are at hand.
pub open spec fn picture_id(r: Result<ObjectId, std::io::Error>) -> Option<ObjectId> {
    match r {
        Ok(id) => Some(id),
        Err(_) => None,
    }
}

/// Why a picture could not be added.
pub enum PictureError {
    /// The document has no object numbers left.
    Full,
    /// The picture could not be packed.
    Packing(std::io::Error),
}

/// What came of adding a picture.
pub open spec fn picture_outcome(r: Result<ObjectId, PictureError>) -> Result<
    ObjectId,
    PictureFault,
> {
    match r {
        Ok(id) => Ok(id),
        Err(PictureError::Full) => Err(PictureFault::Full),
        Err(PictureError::Packing(_)) => Err(PictureFault::Packing),
    }
}

fn embed_channels(
    doc: &mut Document,
    w: u32,
    h: u32,
    rgb: &Vec<u8>,
    alpha: &Vec<u8>,
    has_alpha: bool,
    Ghost(pixels): Ghost<Seq<[u8; 4]>>,
) -> (r: Result<ObjectId, std::io::Error>)
    requires
        has_room(doc_view(*old(doc)), pixels),
        rgb@ == rgb_of(pixels),
        alpha@ == alpha_of(pixels),
        has_alpha == translucent(pixels),
    ensures
        (doc_view(*final(doc)), picture_id(r)) == with_picture(
            doc_view(*old(doc)),
            w,
            h,
            pixels,
        ),
{
    let mask = if has_alpha {
        let packed = match deflate(alpha.as_slice()) {
            Ok(packed) => packed,
            Err(e) => return Err(e),
        };
        let stream = Stream::new(image_dict(w, h, "DeviceGray"), packed);
        Some(add_value(doc, stream_object(stream)))
    } else {
        None
    };
    let mut dict = image_dict(w, h, "DeviceRGB");
    if let Some(id) = mask {
        dict_set(&mut dict, "SMask".as_bytes(), reference_object(id));
    }
    match deflate(rgb.as_slice()) {
        Ok(packed) => Ok(add_value(doc, stream_object(Stream::new(dict, packed)))),
        Err(e) => Err(e),
    }
}

/// Add a picture, given by its pixels, to a document that has numbers left for it, and
/// give its number.
pub fn embed_pixels(doc: &mut Document, w: u32, h: u32, pixels: &Vec<[u8; 4]>) -> (r: Result<
    ObjectId,
    std::io::Error,
>)
    requires
        has_room(doc_view(*old(doc)), pixels@),
    ensures
        (doc_view(*final(doc)), picture_id(r)) == with_picture(
            doc_view(*old(doc)),
            w,
            h,
            pixels@,
        ),
{
    let (rgb, alpha, has_alpha) = split_channels(pixels);
    embed_channels(doc, w, h, &rgb, &alpha, has_alpha, Ghost(pixels@))
}

/// Add a picture to a document, and give its number.
pub fn embed_image(doc: &mut Document, image: &DynamicImage) -> (r: Result<ObjectId, PictureError>)
    ensures
        (doc_view(*final(doc)), picture_outcome(r)) == with_image(
            doc_view(*old(doc)),
            image_rgba(*image).0,
            image_rgba(*image).1,
            image_rgba(*image).2,
        ),
        image_rgba(*image).2.len() == image_rgba(*image).0 * image_rgba(*image).1,
{
    let (w, h, pixels) = rgba_of(image);
    let (rgb, alpha, has_alpha) = split_channels(&pixels);
    let needed: u32 = if has_alpha {
        2
    } else {
        1
    };
    if largest_id(doc) > u32::MAX - needed {
        return Err(PictureError::Full);
    }
    match embed_channels(doc, w, h, &rgb, &alpha, has_alpha, Ghost(pixels@)) {
        Ok(id) => Ok(id),
        Err(e) => Err(PictureError::Packing(e)),
    }
}

} // verus!
