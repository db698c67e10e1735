//! PDF objects and documents: what a document holds, and what the calls that
//! read and change it do to that.

use lopdf::{Dictionary, Document, Object, ObjectId, Stream};
use vstd::prelude::*;
use vstd::utf8::encode_utf8;

use crate::names::{name_set, name_views};

verus! {

// ---------------------------------------------------------------------------
// What an object and a document hold
// ---------------------------------------------------------------------------

/// What a PDF object holds.
pub enum PdfValue {
    Null,
    Boolean(bool),
    Integer(int),
    /// A real number, as it reads with four decimal places.
    Real(Seq<char>),
    Name(Seq<u8>),
    /// A string, and whether it is written in hexadecimal.
    Text(Seq<u8>, bool),
    Array(Seq<PdfValue>),
    Dictionary(Map<Seq<u8>, PdfValue>),
    /// A stream: its dictionary and its bytes as they are stored.
    Stream(Map<Seq<u8>, PdfValue>, Seq<u8>),
    /// A reference to an indirect object, by number and generation.
    Reference(ObjectId),
}

/// What a document holds: its indirect objects, its trailer, and the largest
/// object number it counts from.
pub struct DocView {
    pub objects: Map<ObjectId, PdfValue>,
    pub trailer: Map<Seq<u8>, PdfValue>,
    pub max_id: u32,
}

/// Why an object could not be had.
pub enum Fault {
    /// No object has this number.
    Missing,
    /// The object is of another kind.
    Kind,
    /// The dictionary lacks the key.
    Key,
    /// Too many references lead from one to the next.
    Limit,
    /// Anything else.
    Other,
}

impl PdfValue {
    /// The entries of a dictionary.
    pub open spec fn entries(self) -> Result<Map<Seq<u8>, PdfValue>, Fault> {
        match self {
            PdfValue::Dictionary(entries) => Ok(entries),
            _ => Err(Fault::Kind),
        }
    }
}

/// The bytes that a stream stores; of anything else, none.
pub open spec fn stream_bytes(value: PdfValue) -> Seq<u8> {
    match value {
        PdfValue::Stream(_, bytes) => bytes,
        _ => Seq::empty(),
    }
}

/// A stream after an attempt to pack its bytes, which gave `packed`.
pub open spec fn packed_stream(value: PdfValue, packed: Option<Seq<u8>>) -> PdfValue {
    match (value, packed) {
        (PdfValue::Stream(dict, bytes), Some(p)) if !dict.dom().contains(key("Filter"@)) && p.len()
            + 19 < bytes.len() => PdfValue::Stream(
            dict.insert(key("Filter"@), PdfValue::Name(key("FlateDecode"@))).insert(
                key("Length"@),
                PdfValue::Integer(p.len() as int),
            ),
            p,
        ),
        _ => value,
    }
}

/// A key, as a PDF stores it.
pub open spec fn key(text: Seq<char>) -> Seq<u8> {
    encode_utf8(text)
}

/// Keys with different texts are different.
pub(crate) proof fn lemma_keys_differ(a: Seq<char>, b: Seq<char>)
    requires
        a != b,
    ensures
        key(a) != key(b),
{
    vstd::utf8::encode_utf8_decode_utf8(a);
    vstd::utf8::encode_utf8_decode_utf8(b);
}

/// The entries of an empty dictionary.
pub open spec fn no_entries() -> Map<Seq<u8>, PdfValue> {
    Map::empty()
}

/// The object that a number leads to when up to `fuel` objects are looked at,
/// each but the last a reference to the next.
pub open spec fn resolve_within(
    objects: Map<ObjectId, PdfValue>,
    id: ObjectId,
    fuel: nat,
) -> Result<ObjectId, Fault>
    decreases fuel,
{
    if !objects.dom().contains(id) {
        Err(Fault::Missing)
    } else if fuel == 0 {
        Err(Fault::Limit)
    } else {
        match objects[id] {
            PdfValue::Reference(next) => resolve_within(objects, next, (fuel - 1) as nat),
            _ => Ok(id),
        }
    }
}

/// The object that a number leads to: up to 128 references are followed.
pub open spec fn resolved(objects: Map<ObjectId, PdfValue>, id: ObjectId) -> Result<
    ObjectId,
    Fault,
> {
    resolve_within(objects, id, 129)
}

impl DocView {
    /// The entries of the dictionary that `id` leads to.
    pub open spec fn dict_at(self, id: ObjectId) -> Result<Map<Seq<u8>, PdfValue>, Fault> {
        match resolved(self.objects, id) {
            Ok(at) => self.objects[at].entries(),
            Err(fault) => Err(fault),
        }
    }
}

// ---------------------------------------------------------------------------
// Outside types
// ---------------------------------------------------------------------------

/// An object of a PDF, `lopdf::Object`.
#[verifier::external_type_specification]
#[verifier::external_body]
pub struct ExObject(lopdf::Object);

/// A dictionary of a PDF, `lopdf::Dictionary`.
#[verifier::external_type_specification]
#[verifier::external_body]
pub struct ExDictionary(lopdf::Dictionary);

/// A stream of a PDF, `lopdf::Stream`.
#[verifier::external_type_specification]
#[verifier::external_body]
pub struct ExStream(lopdf::Stream);

/// A whole PDF, `lopdf::Document`.
#[verifier::external_type_specification]
#[verifier::external_body]
pub struct ExDocument(lopdf::Document);

/// What goes wrong in reading a PDF, `lopdf::Error`.
#[verifier::external_type_specification]
#[verifier::external_body]
pub struct ExPdfError(lopdf::Error);

/// What an object holds.
pub uninterp spec fn object_value(object: Object) -> PdfValue;

/// What a dictionary holds, by key.
pub uninterp spec fn dict_entries(dict: Dictionary) -> Map<Seq<u8>, PdfValue>;

/// What a stream holds.
pub uninterp spec fn stream_value(stream: Stream) -> PdfValue;

/// The indirect objects that a document holds, by number and generation.
pub uninterp spec fn doc_objects(doc: Document) -> Map<ObjectId, PdfValue>;

/// What the trailer of a document holds, by key.
pub uninterp spec fn doc_trailer(doc: Document) -> Map<Seq<u8>, PdfValue>;

/// The largest object number that a document counts from.
pub uninterp spec fn doc_max_id(doc: Document) -> u32;

/// Why a call into the document failed.
pub uninterp spec fn error_fault(error: lopdf::Error) -> Fault;

/// What zlib makes of bytes at its best level; `None` where it fails.
pub uninterp spec fn best_zlib(bytes: Seq<u8>) -> Option<Seq<u8>>;

/// What a document holds.
pub open spec fn doc_view(doc: Document) -> DocView {
    DocView { objects: doc_objects(doc), trailer: doc_trailer(doc), max_id: doc_max_id(doc) }
}

/// What the objects of a list hold.
pub open spec fn object_values(objects: Seq<Object>) -> Seq<PdfValue> {
    objects.map_values(|o: Object| object_value(o))
}

// ---------------------------------------------------------------------------
// Reading objects
// ---------------------------------------------------------------------------

/// `lopdf::Object::as_i64` gives the value of an integer object, and fails
/// with `Error::Type` on any other object.
pub assume_specification[ lopdf::Object::as_i64 ](object: &Object) -> (r: Result<i64, lopdf::Error>)
    ensures
        match r {
            Ok(n) => object_value(*object) == PdfValue::Integer(n as int),
            Err(e) => !(object_value(*object) is Integer) && error_fault(e) == Fault::Kind,
        },
;

/// `lopdf::Object::as_name` gives the bytes of a name, and fails with `Error::Type` on
/// any other object.
pub assume_specification[ lopdf::Object::as_name ](object: &Object) -> (r: Result<
    &[u8],
    lopdf::Error,
>)
    ensures
        match r {
            Ok(name) => object_value(*object) == PdfValue::Name(name@),
            Err(e) => !(object_value(*object) is Name) && error_fault(e) == Fault::Kind,
        },
;

/// `lopdf::Object::as_reference` gives the number and generation that a
/// reference holds, and fails with `Error::Type` on any other object.
pub assume_specification[ lopdf::Object::as_reference ](object: &Object) -> (r: Result<
    ObjectId,
    lopdf::Error,
>)
    ensures
        match r {
            Ok(id) => object_value(*object) == PdfValue::Reference(id),
            Err(e) => !(object_value(*object) is Reference) && error_fault(e) == Fault::Kind,
        },
;

/// `lopdf::Object::as_array` gives the items of an array, and fails with
/// `Error::Type` on any other object.
pub assume_specification[ lopdf::Object::as_array ](object: &Object) -> (r: Result<
    &Vec<Object>,
    lopdf::Error,
>)
    ensures
        match r {
            Ok(items) => object_value(*object) == PdfValue::Array(object_values(items@)),
            Err(e) => !(object_value(*object) is Array) && error_fault(e) == Fault::Kind,
        },
;

/// `lopdf::Object::as_dict` gives the dictionary that an object is, and fails
/// with `Error::Type` on any other object, a stream too.
pub assume_specification[ lopdf::Object::as_dict ](object: &Object) -> (r: Result<
    &Dictionary,
    lopdf::Error,
>)
    ensures
        match r {
            Ok(dict) => object_value(*object) == PdfValue::Dictionary(dict_entries(*dict)),
            Err(e) => !(object_value(*object) is Dictionary) && error_fault(e) == Fault::Kind,
        },
;

/// `lopdf::Object::as_dict_mut` gives the dictionary that an object is, to be
/// changed in its place, and fails with `Error::Type` on any other object.
pub assume_specification[ lopdf::Object::as_dict_mut ](object: &mut Object) -> (r: Result<
    &mut Dictionary,
    lopdf::Error,
>)
    ensures
        match r {
            Ok(dict) => object_value(*old(object)) == PdfValue::Dictionary(dict_entries(*dict))
                && object_value(*final(object)) == PdfValue::Dictionary(dict_entries(*final(dict))),
            Err(e) => !(object_value(*old(object)) is Dictionary) && error_fault(e) == Fault::Kind
                && *final(object) == *old(object),
        },
;

/// The `Clone` of `lopdf::Object` gives an object that holds the same.
pub assume_specification[ <lopdf::Object as Clone>::clone ](object: &Object) -> (r: Object)
    ensures
        object_value(r) == object_value(*object),
;

/// The `Clone` of `lopdf::Dictionary` gives a dictionary that holds the same.
pub assume_specification[ <lopdf::Dictionary as Clone>::clone ](
    dict: &Dictionary,
) -> (r: Dictionary)
    ensures
        dict_entries(r) == dict_entries(*dict),
;

/// `lopdf::Dictionary::new` gives a dictionary without entries.
pub assume_specification[ lopdf::Dictionary::new ]() -> (r: Dictionary)
    ensures
        dict_entries(r) == no_entries(),
;

/// `lopdf::Dictionary::get` gives the value under a key, and fails with
/// `Error::DictKey` where the dictionary lacks the key.
pub assume_specification<'a, 'b>[ lopdf::Dictionary::get ](
    dict: &'a Dictionary,
    k: &'b [u8],
) -> (r: Result<&'a Object, lopdf::Error>)
    ensures
        match r {
            Ok(object) => dict_entries(*dict).dom().contains(k@)
                && dict_entries(*dict)[k@] == object_value(*object),
            Err(e) => !dict_entries(*dict).dom().contains(k@) && error_fault(e) == Fault::Key,
        },
;

/// `lopdf::Document::get_object` gives the object with a number and
/// generation. Where that is a reference, it follows it, and any that come
/// after, up to a limit. It fails with `Error::ObjectNotFound` where a number
/// is not in use, and with `Error::ReferenceLimit` at the limit.
pub assume_specification[ lopdf::Document::get_object ](doc: &Document, id: ObjectId) -> (r: Result<
    &Object,
    lopdf::Error,
>)
    ensures
        match r {
            Ok(object) => resolved(doc_objects(*doc), id) matches Ok(at)
                && doc_objects(*doc)[at] == object_value(*object),
            Err(e) => resolved(doc_objects(*doc), id) == Err::<ObjectId, Fault>(error_fault(e)),
        },
;

/// `lopdf::Document::get_object_mut` finds the object that `get_object` finds,
/// to be changed in its place. Nothing else in the document changes.
pub assume_specification[ lopdf::Document::get_object_mut ](
    doc: &mut Document,
    id: ObjectId,
) -> (r: Result<&mut Object, lopdf::Error>)
    ensures
        match r {
            Ok(object) => resolved(doc_objects(*old(doc)), id) matches Ok(at)
                && doc_objects(*old(doc))[at] == object_value(*object)
                && doc_objects(*final(doc)) == doc_objects(*old(doc)).insert(
                at,
                object_value(*final(object)),
            ),
            Err(e) => resolved(doc_objects(*old(doc)), id) == Err::<ObjectId, Fault>(
                error_fault(e),
            ) && doc_objects(*final(doc)) == doc_objects(*old(doc)),
        },
        doc_trailer(*final(doc)) == doc_trailer(*old(doc)),
        doc_max_id(*final(doc)) == doc_max_id(*old(doc)),
;

/// `lopdf::Document::add_object` numbers an object one above the largest number
/// so far, with generation zero, and stores it under that number. The number
/// overflows where the largest number cannot grow.
#[verifier::external_body]
pub(crate) fn add_object(doc: &mut Document, object: Object) -> (r: ObjectId)
    requires
        doc_max_id(*old(doc)) < u32::MAX,
    ensures
        r == ((doc_max_id(*old(doc)) + 1) as u32, 0u16),
        doc_objects(*final(doc)) == doc_objects(*old(doc)).insert(r, object_value(object)),
        doc_trailer(*final(doc)) == doc_trailer(*old(doc)),
        doc_max_id(*final(doc)) == doc_max_id(*old(doc)) + 1,
{
    doc.add_object(object)
}

/// `lopdf::Dictionary::set` puts a value under a key, in place of any that was
/// there.
#[verifier::external_body]
pub(crate) fn dict_set(dict: &mut Dictionary, k: &[u8], value: Object)
    ensures
        dict_entries(*final(dict)) == dict_entries(*old(dict)).insert(k@, object_value(value)),
{
    dict.set(k, value)
}

/// `lopdf::Stream::new` makes a stream of a dictionary and bytes, and enters
/// the number of bytes into the dictionary as its `Length`.
pub assume_specification[ lopdf::Stream::new ](dict: Dictionary, content: Vec<u8>) -> (r: Stream)
    ensures
        stream_value(r) == PdfValue::Stream(
            dict_entries(dict).insert(key("Length"@), PdfValue::Integer(content@.len() as int)),
            content@,
        ),
;

/// `lopdf::Stream::compress` leaves a stream that has a `Filter` as it is. The
/// bytes of any other it packs with zlib, at the best level, and puts the packed
/// bytes in their place if that saves more than nineteen bytes: the dictionary
/// then names the filter and the new length. Where the packing fails the stream
/// stays as it is.
pub assume_specification[ lopdf::Stream::compress ](stream: &mut Stream) -> (r: Result<
    (),
    lopdf::Error,
>)
    ensures
        stream_value(*final(stream)) == packed_stream(
            stream_value(*old(stream)),
            best_zlib(stream_bytes(stream_value(*old(stream)))),
        ),
;

/// The names of a dictionary, from `lopdf::Dictionary::iter`: each key once, in
/// an order that is left open.
#[verifier::external_body]
pub(crate) fn dict_keys(dict: &Dictionary) -> (r: Vec<Vec<u8>>)
    ensures
        name_set(r@) == dict_entries(*dict).dom(),
        name_views(r@).no_duplicates(),
{
    dict.iter().map(|(k, _)| k.clone()).collect()
}

/// The field `lopdf::Document::max_id`: the number that the next new object is
/// counted from.
#[verifier::external_body]
pub(crate) fn largest_id(doc: &Document) -> (r: u32)
    ensures
        r == doc_max_id(*doc),
{
    doc.max_id
}

/// A real number from `lopdf::Object::as_f32`, written with four decimal places.
/// The call fails with `Error::Type` on any other object.
#[verifier::external_body]
pub(crate) fn real_text(object: &Object) -> (r: Result<String, lopdf::Error>)
    ensures
        match r {
            Ok(text) => object_value(*object) == PdfValue::Real(text@),
            Err(e) => !(object_value(*object) is Real) && error_fault(e) == Fault::Kind,
        },
{
    object.as_f32().map(|v| format!("{v:.4}"))
}

/// The variant `lopdf::Object::Reference`.
#[verifier::external_body]
pub(crate) fn reference_object(id: ObjectId) -> (r: Object)
    ensures
        object_value(r) == PdfValue::Reference(id),
{
    Object::Reference(id)
}

/// The variant `lopdf::Object::Integer`.
#[verifier::external_body]
pub(crate) fn integer_object(n: i64) -> (r: Object)
    ensures
        object_value(r) == PdfValue::Integer(n as int),
{
    Object::Integer(n)
}

/// A name object, from the `From<&str>` of `lopdf::Object`.
#[verifier::external_body]
pub(crate) fn name_object(name: &str) -> (r: Object)
    ensures
        object_value(r) == PdfValue::Name(key(name@)),
{
    Object::from(name)
}

/// A string object, from `lopdf::Object::string_literal`.
#[verifier::external_body]
pub(crate) fn literal_object(text: &str) -> (r: Object)
    ensures
        object_value(r) == PdfValue::Text(key(text@), false),
{
    Object::string_literal(text)
}

/// The variant `lopdf::Object::Array`.
#[verifier::external_body]
pub(crate) fn array_object(items: Vec<Object>) -> (r: Object)
    ensures
        object_value(r) == PdfValue::Array(object_values(items@)),
{
    Object::Array(items)
}

/// The variant `lopdf::Object::Dictionary`.
#[verifier::external_body]
pub(crate) fn dict_object(dict: Dictionary) -> (r: Object)
    ensures
        object_value(r) == PdfValue::Dictionary(dict_entries(dict)),
{
    Object::Dictionary(dict)
}

/// The variant `lopdf::Object::Stream`.
#[verifier::external_body]
pub(crate) fn stream_object(stream: Stream) -> (r: Object)
    ensures
        object_value(r) == stream_value(stream),
{
    Object::Stream(stream)
}

} // verus!
