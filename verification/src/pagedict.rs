//! The dictionary of a page: what is inherited through its parents, its
//! resources, and the content that is appended to it.

use lopdf::{Dictionary, Document, Object, ObjectId, Stream};
use vstd::prelude::*;

use crate::names::{name_set, name_views};
use crate::numtext::{parse_ticks, ticks_of};
use crate::objects::{
    add_object, array_object, dict_entries, dict_keys, dict_object, dict_set, doc_max_id, doc_view,
    error_fault, key, no_entries, object_value, object_values, real_text, reference_object,
    resolve_within, resolved, stream_object, DocView, Fault, PdfValue,
};
use crate::overlay::copy_bytes;
use crate::units::{in_range, limit, limited, TICKS_PER_PT};

verus! {

// ---------------------------------------------------------------------------
// What a page inherits
// ---------------------------------------------------------------------------

/// The value under a key; null where there is none.
pub open spec fn entry(dict: Map<Seq<u8>, PdfValue>, k: Seq<u8>) -> PdfValue {
    if dict.dom().contains(k) {
        dict[k]
    } else {
        PdfValue::Null
    }
}

/// A turn that a page can have: a whole number of quarter turns, else none.
pub open spec fn quarter_turns(n: int) -> int {
    let r = n % 360;
    if r == 90 || r == 180 || r == 270 {
        r
    } else {
        0
    }
}

/// The rotation of a page, looked for in the page and `fuel - 1` parents.
pub open spec fn rotate_of(doc: DocView, id: ObjectId, fuel: nat) -> int
    decreases fuel,
{
    if fuel == 0 {
        0
    } else {
        match doc.dict_at(id) {
            Ok(dict) => match entry(dict, key("Rotate"@)) {
                PdfValue::Integer(n) => quarter_turns(n),
                _ => match entry(dict, key("Parent"@)) {
                    PdfValue::Reference(parent) => rotate_of(doc, parent, (fuel - 1) as nat),
                    _ => 0,
                },
            },
            Err(_) => 0,
        }
    }
}

/// A number of points in ticks; zero for what is no number.
pub open spec fn coordinate(value: PdfValue) -> int {
    match value {
        PdfValue::Integer(n) => limited(n * TICKS_PER_PT),
        PdfValue::Real(text) => match ticks_of(text) {
            Some(ticks) => ticks,
            None => 0,
        },
        _ => 0,
    }
}

/// The lower left corner of a page's MediaBox, looked for in the page and
/// `fuel - 1` parents.
pub open spec fn origin_of(doc: DocView, id: ObjectId, fuel: nat) -> (int, int)
    decreases fuel,
{
    if fuel == 0 {
        (0, 0)
    } else {
        match doc.dict_at(id) {
            Ok(dict) => match entry(dict, key("MediaBox"@)) {
                PdfValue::Array(items) if items.len() >= 2 => (
                    coordinate(items[0]),
                    coordinate(items[1]),
                ),
                _ => match entry(dict, key("Parent"@)) {
                    PdfValue::Reference(parent) => origin_of(doc, parent, (fuel - 1) as nat),
                    _ => (0, 0),
                },
            },
            Err(_) => (0, 0),
        }
    }
}

/// How many dictionaries are looked at for an inherited entry: the page and its
/// parents.
pub const INHERITANCE_DEPTH: u32 = 16;

/// The dictionary that an object number leads to.
fn dict_of(doc: &Document, id: ObjectId) -> (r: Result<&Dictionary, lopdf::Error>)
    ensures
        match r {
            Ok(dict) => doc_view(*doc).dict_at(id) == Ok::<Map<Seq<u8>, PdfValue>, Fault>(
                dict_entries(*dict),
            ),
            Err(e) => doc_view(*doc).dict_at(id) == Err::<Map<Seq<u8>, PdfValue>, Fault>(
                error_fault(e),
            ),
        },
{
    match doc.get_object(id) {
        Ok(object) => object.as_dict(),
        Err(e) => Err(e),
    }
}

/// The reference under `Parent`, if there is one.
fn parent_of(dict: &Dictionary) -> (r: Option<ObjectId>)
    ensures
        match r {
            Some(id) => entry(dict_entries(*dict), key("Parent"@)) == PdfValue::Reference(id),
            None => !(entry(dict_entries(*dict), key("Parent"@)) is Reference),
        },
{
    match dict.get("Parent".as_bytes()) {
        Ok(object) => match object.as_reference() {
            Ok(id) => Some(id),
            Err(_) => None,
        },
        Err(_) => None,
    }
}

/// The effective `Rotate` of a page in degrees: its own, or that of the nearest
/// parent that has one. What is no multiple of ninety counts as no turn.
pub fn read_page_rotate(doc: &Document, page_id: ObjectId) -> (r: i32)
    ensures
        r == rotate_of(doc_view(*doc), page_id, INHERITANCE_DEPTH as nat),
        r == 0 || r == 90 || r == 180 || r == 270,
{
    let ghost view = doc_view(*doc);
    let mut cur = page_id;
    let mut left: u32 = INHERITANCE_DEPTH;
    while left > 0
        invariant
            view == doc_view(*doc),
            rotate_of(view, page_id, INHERITANCE_DEPTH as nat) == rotate_of(view, cur, left as nat),
        decreases left,
    {
        let dict = match dict_of(doc, cur) {
            Ok(dict) => dict,
            Err(_) => return 0,
        };
        if let Ok(object) = dict.get("Rotate".as_bytes()) {
            if let Ok(n) = object.as_i64() {
                let r: i64 = match n.checked_rem_euclid(360) {
                    Some(r) => r,
                    None => 0,
                };
                return if r == 90 || r == 180 || r == 270 {
                    r as i32
                } else {
                    0
                };
            }
        }
        match parent_of(dict) {
            Some(id) => cur = id,
            None => return 0,
        }
        left -= 1;
    }
    0
}

fn ticks_of_object(object: &Object) -> (r: i64)
    ensures
        r == coordinate(object_value(*object)),
        in_range(r as int),
{
    match real_text(object) {
        Ok(text) => match parse_ticks(text.as_str()) {
            Some(ticks) => ticks,
            None => 0,
        },
        Err(_) => match object.as_i64() {
            Ok(n) => limit(n as i128 * TICKS_PER_PT as i128),
            Err(_) => 0,
        },
    }
}

/// The lower left corner of a page's visible area: that of its `MediaBox`, or of
/// the nearest parent's that has one. Every coordinate that is written has to be
/// offset by it, or the overlay drifts.
pub fn read_page_media_box_origin(doc: &Document, page_id: ObjectId) -> (r: (i64, i64))
    ensures
        (r.0 as int, r.1 as int) == origin_of(doc_view(*doc), page_id, INHERITANCE_DEPTH as nat),
        in_range(r.0 as int),
        in_range(r.1 as int),
{
    let ghost view = doc_view(*doc);
    let mut cur = page_id;
    let mut left: u32 = INHERITANCE_DEPTH;
    while left > 0
        invariant
            view == doc_view(*doc),
            origin_of(view, page_id, INHERITANCE_DEPTH as nat) == origin_of(view, cur, left as nat),
        decreases left,
    {
        let dict = match dict_of(doc, cur) {
            Ok(dict) => dict,
            Err(_) => return (0, 0),
        };
        if let Ok(object) = dict.get("MediaBox".as_bytes()) {
            if let Ok(items) = object.as_array() {
                if items.len() >= 2 {
                    return (ticks_of_object(&items[0]), ticks_of_object(&items[1]));
                }
            }
        }
        match parent_of(dict) {
            Some(id) => cur = id,
            None => return (0, 0),
        }
        left -= 1;
    }
    (0, 0)
}

// ---------------------------------------------------------------------------
// Resources
// ---------------------------------------------------------------------------

/// The entries of a dictionary that stands directly or by reference; none where
/// something else stands.
pub open spec fn dict_like(doc: DocView, value: PdfValue) -> Result<
    Map<Seq<u8>, PdfValue>,
    Fault,
> {
    match value {
        PdfValue::Reference(id) => doc.dict_at(id),
        PdfValue::Dictionary(entries) => Ok(entries),
        _ => Ok(no_entries()),
    }
}

/// A value that stands for a dictionary.
pub open spec fn stands_for_dict(value: PdfValue) -> bool {
    value is Reference || value is Dictionary
}

/// The resources that a page inherits: those of the nearest of up to `fuel` parents
/// that has any; none where they cannot be read.
pub open spec fn inherited_resources(
    doc: DocView,
    dict: Map<Seq<u8>, PdfValue>,
    fuel: nat,
) -> Map<Seq<u8>, PdfValue>
    decreases fuel,
{
    if fuel == 0 {
        no_entries()
    } else {
        match entry(dict, key("Parent"@)) {
            PdfValue::Reference(parent) => match doc.dict_at(parent) {
                Ok(up) => if stands_for_dict(entry(up, key("Resources"@))) {
                    match dict_like(doc, entry(up, key("Resources"@))) {
                        Ok(resources) => resources,
                        Err(_) => no_entries(),
                    }
                } else {
                    inherited_resources(doc, up, (fuel - 1) as nat)
                },
                Err(_) => no_entries(),
            },
            _ => no_entries(),
        }
    }
}

/// The resources in effect for a page: its own, or else those that it inherits.
pub open spec fn page_resources(doc: DocView, page_id: ObjectId) -> Result<
    Map<Seq<u8>, PdfValue>,
    Fault,
> {
    match doc.dict_at(page_id) {
        Ok(dict) => if stands_for_dict(entry(dict, key("Resources"@))) {
            dict_like(doc, entry(dict, key("Resources"@)))
        } else {
            Ok(inherited_resources(doc, dict, (INHERITANCE_DEPTH - 1) as nat))
        },
        Err(fault) => Err(fault),
    }
}

/// The names of a page's resources of one type; none where they cannot be read.
pub open spec fn resource_keys(doc: DocView, page_id: ObjectId, res_type: Seq<u8>) -> Set<Seq<u8>> {
    match page_resources(doc, page_id) {
        Ok(resources) => match dict_like(doc, entry(resources, res_type)) {
            Ok(sub) => sub.dom(),
            Err(_) => Set::empty(),
        },
        Err(_) => Set::empty(),
    }
}

/// The document with one more entry in the dictionary that `id` leads to.
pub open spec fn with_entry(doc: DocView, id: ObjectId, k: Seq<u8>, value: PdfValue) -> Result<
    DocView,
    Fault,
> {
    match resolved(doc.objects, id) {
        Ok(at) => match doc.objects[at] {
            PdfValue::Dictionary(dict) => Ok(
                DocView {
                    objects: doc.objects.insert(at, PdfValue::Dictionary(dict.insert(k, value))),
                    ..doc
                },
            ),
            _ => Err(Fault::Kind),
        },
        Err(fault) => Err(fault),
    }
}

/// The document with one more resource on a page.
pub open spec fn with_resource(
    doc: DocView,
    page_id: ObjectId,
    res_type: Seq<u8>,
    name: Seq<u8>,
    id: ObjectId,
) -> Result<DocView, Fault> {
    match page_resources(doc, page_id) {
        Ok(resources) => match dict_like(doc, entry(resources, res_type)) {
            Ok(sub) => with_entry(
                doc,
                page_id,
                key("Resources"@),
                PdfValue::Dictionary(
                    resources.insert(
                        res_type,
                        PdfValue::Dictionary(sub.insert(name, PdfValue::Reference(id))),
                    ),
                ),
            ),
            Err(fault) => Err(fault),
        },
        Err(fault) => Err(fault),
    }
}

fn dict_under(doc: &Document, dict: &Dictionary, k: &[u8]) -> (r: Result<Dictionary, lopdf::Error>)
    ensures
        match r {
            Ok(sub) => dict_like(doc_view(*doc), entry(dict_entries(*dict), k@)) == Ok::<
                Map<Seq<u8>, PdfValue>,
                Fault,
            >(dict_entries(sub)),
            Err(e) => dict_like(doc_view(*doc), entry(dict_entries(*dict), k@)) == Err::<
                Map<Seq<u8>, PdfValue>,
                Fault,
            >(error_fault(e)),
        },
{
    let object = match dict.get(k) {
        Ok(object) => object,
        Err(_) => return Ok(Dictionary::new()),
    };
    match object.as_reference() {
        Ok(id) => match dict_of(doc, id) {
            Ok(sub) => Ok(sub.clone()),
            Err(e) => Err(e),
        },
        Err(_) => match object.as_dict() {
            Ok(sub) => Ok(sub.clone()),
            Err(_) => Ok(Dictionary::new()),
        },
    }
}

fn has_resources(dict: &Dictionary) -> (r: bool)
    ensures
        r == stands_for_dict(entry(dict_entries(*dict), key("Resources"@))),
{
    match dict.get("Resources".as_bytes()) {
        Ok(object) => object.as_reference().is_ok() || object.as_dict().is_ok(),
        Err(_) => false,
    }
}

fn resources_from_parents(doc: &Document, page: &Dictionary) -> (r: Dictionary)
    ensures
        dict_entries(r) == inherited_resources(
            doc_view(*doc),
            dict_entries(*page),
            (INHERITANCE_DEPTH - 1) as nat,
        ),
{
    let ghost view = doc_view(*doc);
    let mut dict = page;
    let mut left: u32 = INHERITANCE_DEPTH - 1;
    while left > 0
        invariant
            view == doc_view(*doc),
            inherited_resources(view, dict_entries(*page), (INHERITANCE_DEPTH - 1) as nat)
                == inherited_resources(view, dict_entries(*dict), left as nat),
        decreases left,
    {
        let up = match parent_of(dict) {
            Some(id) => match dict_of(doc, id) {
                Ok(up) => up,
                Err(_) => return Dictionary::new(),
            },
            None => return Dictionary::new(),
        };
        if has_resources(up) {
            return match dict_under(doc, up, "Resources".as_bytes()) {
                Ok(resources) => resources,
                Err(_) => Dictionary::new(),
            };
        }
        dict = up;
        left -= 1;
    }
    Dictionary::new()
}

fn resources_of(doc: &Document, page_id: ObjectId) -> (r: Result<Dictionary, lopdf::Error>)
    ensures
        match r {
            Ok(res) => page_resources(doc_view(*doc), page_id) == Ok::<
                Map<Seq<u8>, PdfValue>,
                Fault,
            >(dict_entries(res)),
            Err(e) => page_resources(doc_view(*doc), page_id) == Err::<
                Map<Seq<u8>, PdfValue>,
                Fault,
            >(error_fault(e)),
        },
{
    match dict_of(doc, page_id) {
        Ok(page) => if has_resources(page) {
            dict_under(doc, page, "Resources".as_bytes())
        } else {
            Ok(resources_from_parents(doc, page))
        },
        Err(e) => Err(e),
    }
}

/// The names of a page's resources of one type, such as `Font`: a new resource
/// must not take one of them. Each is listed once, in an order that is left open.
pub fn page_resource_keys(doc: &Document, page_id: ObjectId, res_type: &[u8]) -> (r: Vec<Vec<u8>>)
    ensures
        name_set(r@) == resource_keys(doc_view(*doc), page_id, res_type@),
        name_views(r@).no_duplicates(),
{
    match resources_of(doc, page_id) {
        Ok(resources) => match dict_under(doc, &resources, res_type) {
            Ok(sub) => dict_keys(&sub),
            Err(_) => no_names(),
        },
        Err(_) => no_names(),
    }
}

fn no_names() -> (r: Vec<Vec<u8>>)
    ensures
        name_set(r@) == Set::<Seq<u8>>::empty(),
        name_views(r@).no_duplicates(),
{
    let r: Vec<Vec<u8>> = Vec::new();
    assert(name_set(r@) =~= Set::<Seq<u8>>::empty());
    r
}

pub(crate) proof fn lemma_resolved_is_there(objects: Map<ObjectId, PdfValue>, id: ObjectId, fuel: nat)
    ensures
        resolve_within(objects, id, fuel) matches Ok(at) ==> objects.dom().contains(at)
            && !(objects[at] is Reference),
    decreases fuel,
{
    if objects.dom().contains(id) && fuel > 0 {
        if let PdfValue::Reference(next) = objects[id] {
            lemma_resolved_is_there(objects, next, (fuel - 1) as nat);
        }
    }
}

/// Enter a value into the dictionary that an object number leads to.
fn set_entry(doc: &mut Document, id: ObjectId, k: &[u8], value: Object) -> (r: Result<
    (),
    lopdf::Error,
>)
    ensures
        match r {
            Ok(_) => with_entry(doc_view(*old(doc)), id, k@, object_value(value)) == Ok::<
                DocView,
                Fault,
            >(doc_view(*final(doc))),
            Err(e) => with_entry(doc_view(*old(doc)), id, k@, object_value(value)) == Err::<
                DocView,
                Fault,
            >(error_fault(e)) && doc_view(*final(doc)) == doc_view(*old(doc)),
        },
{
    let ghost before = doc_view(*doc);
    proof {
        lemma_resolved_is_there(before.objects, id, 129);
    }
    match doc.get_object_mut(id) {
        Ok(object) => match object.as_dict_mut() {
            Ok(dict) => {
                dict_set(dict, k, value);
                Ok(())
            },
            Err(e) => {
                assert(doc_view(*doc).objects =~= before.objects);
                Err(e)
            },
        },
        Err(e) => Err(e),
    }
}

/// Enter an object among a page's resources. What the page already has, of its own or
/// from its parents, is kept.
pub fn add_page_resource(
    doc: &mut Document,
    page_id: ObjectId,
    res_type: &[u8],
    name: &[u8],
    obj_id: ObjectId,
) -> (r: Result<(), lopdf::Error>)
    ensures
        match r {
            Ok(_) => with_resource(doc_view(*old(doc)), page_id, res_type@, name@, obj_id) == Ok::<
                DocView,
                Fault,
            >(doc_view(*final(doc))),
            Err(e) => with_resource(doc_view(*old(doc)), page_id, res_type@, name@, obj_id)
                == Err::<DocView, Fault>(error_fault(e)) && doc_view(*final(doc)) == doc_view(
                *old(doc),
            ),
        },
{
    let mut resources = match resources_of(doc, page_id) {
        Ok(resources) => resources,
        Err(e) => return Err(e),
    };
    let mut sub = match dict_under(doc, &resources, res_type) {
        Ok(sub) => sub,
        Err(e) => return Err(e),
    };
    dict_set(&mut sub, name, reference_object(obj_id));
    dict_set(&mut resources, res_type, dict_object(sub));
    set_entry(doc, page_id, "Resources".as_bytes(), dict_object(resources))
}

// ---------------------------------------------------------------------------
// Content
// ---------------------------------------------------------------------------

impl DocView {
    /// The number that the next new object gets.
    pub open spec fn next_id(self) -> ObjectId {
        ((self.max_id + 1) as u32, 0u16)
    }

    /// The document with a new object.
    pub open spec fn added(self, value: PdfValue) -> DocView {
        DocView {
            objects: self.objects.insert(self.next_id(), value),
            max_id: (self.max_id + 1) as u32,
            ..self
        }
    }
}

/// A stream without other entries than its length.
pub open spec fn plain_stream(bytes: Seq<u8>) -> PdfValue {
    PdfValue::Stream(
        no_entries().insert(key("Length"@), PdfValue::Integer(bytes.len() as int)),
        bytes,
    )
}

/// The streams that a page's content consists of, as its `Contents` names them:
/// one, or those of an array that stands there directly or by reference.
pub open spec fn content_parts(
    objects: Map<ObjectId, PdfValue>,
    dict: Map<Seq<u8>, PdfValue>,
) -> Seq<PdfValue> {
    match entry(dict, key("Contents"@)) {
        PdfValue::Reference(id) => match resolved(objects, id) {
            Ok(at) => match objects[at] {
                PdfValue::Array(items) => items,
                _ => seq![PdfValue::Reference(id)],
            },
            Err(_) => seq![PdfValue::Reference(id)],
        },
        PdfValue::Array(items) => items,
        _ => Seq::empty(),
    }
}

/// A page's content between a new first stream and a new last one.
pub open spec fn sandwich(first: ObjectId, middle: Seq<PdfValue>, last: ObjectId) -> PdfValue {
    PdfValue::Array(
        seq![PdfValue::Reference(first)] + middle + seq![PdfValue::Reference(last)],
    )
}

/// A document after an overlay has been appended to a page, and whether that
/// succeeded.
pub open spec fn with_overlay(doc: DocView, page_id: ObjectId, overlay_id: ObjectId) -> (
    DocView,
    Result<(), Fault>,
) {
    let q = doc.next_id();
    let doc1 = doc.added(plain_stream(key("q\n"@)));
    match doc1.dict_at(page_id) {
        Ok(dict) => match with_entry(
            doc1,
            page_id,
            key("Contents"@),
            sandwich(q, content_parts(doc1.objects, dict), overlay_id),
        ) {
            Ok(doc2) => (doc2, Ok(())),
            Err(fault) => (doc1, Err(fault)),
        },
        Err(fault) => (doc1, Err(fault)),
    }
}

/// The success or the fault of a call.
pub open spec fn outcome(r: Result<(), lopdf::Error>) -> Result<(), Fault> {
    match r {
        Ok(_) => Ok(()),
        Err(e) => Err(error_fault(e)),
    }
}

/// Add an object that stands on its own.
pub(crate) fn add_value(doc: &mut Document, object: Object) -> (r: ObjectId)
    requires
        doc_max_id(*old(doc)) < u32::MAX,
    ensures
        r == doc_view(*old(doc)).next_id(),
        doc_view(*final(doc)) == doc_view(*old(doc)).added(object_value(object)),
{
    add_object(doc, object)
}

/// Append an overlay stream to a page's content. The content so far is put
/// between a `q` and the `Q` that the overlay starts with, so that what it does
/// to the graphics state does not leak into the overlay.
pub fn wrap_and_append_overlay(doc: &mut Document, page_id: ObjectId, overlay_id: ObjectId) -> (r:
    Result<(), lopdf::Error>)
    requires
        doc_max_id(*old(doc)) < u32::MAX,
    ensures
        (doc_view(*final(doc)), outcome(r)) == with_overlay(
            doc_view(*old(doc)),
            page_id,
            overlay_id,
        ),
{
    let q = copy_bytes("q\n".as_bytes());
    let q_id = add_value(doc, stream_object(Stream::new(Dictionary::new(), q)));
    let middle = match dict_of(doc, page_id) {
        Ok(page) => content_parts_of(doc, page),
        Err(e) => return Err(e),
    };
    let mut parts: Vec<Object> = Vec::new();
    push_object(&mut parts, reference_object(q_id));
    push_objects(&mut parts, &middle);
    push_object(&mut parts, reference_object(overlay_id));
    assert(object_values(parts@) =~= seq![PdfValue::Reference(q_id)] + object_values(middle@)
        + seq![PdfValue::Reference(overlay_id)]);
    set_entry(doc, page_id, "Contents".as_bytes(), array_object(parts))
}

fn content_parts_of(doc: &Document, page: &Dictionary) -> (r: Vec<Object>)
    ensures
        object_values(r@) == content_parts(doc_view(*doc).objects, dict_entries(*page)),
{
    let mut parts: Vec<Object> = Vec::new();
    assert(object_values(parts@) =~= Seq::empty());
    if let Ok(contents) = page.get("Contents".as_bytes()) {
        if let Ok(id) = contents.as_reference() {
            if let Ok(target) = doc.get_object(id) {
                if let Ok(items) = target.as_array() {
                    push_objects(&mut parts, items);
                    assert(object_values(parts@) =~= object_values(items@));
                    return parts;
                }
            }
            push_object(&mut parts, reference_object(id));
            assert(object_values(parts@) =~= seq![PdfValue::Reference(id)]);
        } else if let Ok(items) = contents.as_array() {
            push_objects(&mut parts, items);
            assert(object_values(parts@) =~= object_values(items@));
        }
    }
    parts
}

pub(crate) fn push_object(out: &mut Vec<Object>, object: Object)
    ensures
        object_values(final(out)@) == object_values(old(out)@).push(object_value(object)),
{
    out.push(object);
    assert(object_values(out@) =~= object_values(old(out)@).push(object_value(object)));
}

fn push_objects(out: &mut Vec<Object>, items: &Vec<Object>)
    ensures
        object_values(final(out)@) == object_values(old(out)@) + object_values(items@),
{
    let ghost before = object_values(out@);
    let n = items.len();
    let mut i: usize = 0;
    while i < n
        invariant
            n == items.len(),
            i <= n,
            object_values(out@) == before + object_values(items@).take(i as int),
        decreases n - i,
    {
        push_object(out, items[i].clone());
        i += 1;
        assert(object_values(out@) =~= before + object_values(items@).take(i as int));
    }
    assert(object_values(items@).take(n as int) =~= object_values(items@));
}

// ---------------------------------------------------------------------------
// Laws
// ---------------------------------------------------------------------------

pub(crate) proof fn lemma_resolve_with_new(
    objects: Map<ObjectId, PdfValue>,
    id: ObjectId,
    fuel: nat,
    new: ObjectId,
    value: PdfValue,
)
    requires
        !objects.dom().contains(new),
        resolve_within(objects, id, fuel) is Ok,
    ensures
        resolve_within(objects.insert(new, value), id, fuel) == resolve_within(objects, id, fuel),
    decreases fuel,
{
    if fuel > 0 {
        if let PdfValue::Reference(next) = objects[id] {
            lemma_resolve_with_new(objects, next, (fuel - 1) as nat, new, value);
        }
    }
}

proof fn lemma_resolve_same_or_new(
    objects: Map<ObjectId, PdfValue>,
    id: ObjectId,
    fuel: nat,
    new: ObjectId,
    value: PdfValue,
)
    requires
        !objects.dom().contains(new),
        !(value is Reference),
    ensures
        resolve_within(objects.insert(new, value), id, fuel) == resolve_within(objects, id, fuel)
            || resolve_within(objects.insert(new, value), id, fuel) == Ok::<ObjectId, Fault>(new)
            || resolve_within(objects.insert(new, value), id, fuel) is Err,
    decreases fuel,
{
    if fuel > 0 && objects.dom().contains(id) {
        if let PdfValue::Reference(next) = objects[id] {
            lemma_resolve_same_or_new(objects, next, (fuel - 1) as nat, new, value);
        }
    }
}

/// A new object that is no array changes nothing about what a content consists of.
pub(crate) proof fn lemma_parts_with_new(
    objects: Map<ObjectId, PdfValue>,
    dict: Map<Seq<u8>, PdfValue>,
    new: ObjectId,
    value: PdfValue,
)
    requires
        !objects.dom().contains(new),
        !(value is Reference),
        !(value is Array),
    ensures
        content_parts(objects.insert(new, value), dict) == content_parts(objects, dict),
{
    if let PdfValue::Reference(id) = entry(dict, key("Contents"@)) {
        lemma_resolve_same_or_new(objects, id, 129, new, value);
        if resolved(objects, id) is Ok {
            lemma_resolve_with_new(objects, id, 129, new, value);
            lemma_resolved_is_there(objects, id, 129);
        }
    }
}

pub(crate) proof fn lemma_resolve_with_change(
    objects: Map<ObjectId, PdfValue>,
    id: ObjectId,
    fuel: nat,
    at: ObjectId,
    value: PdfValue,
)
    requires
        objects.dom().contains(at),
        !(objects[at] is Reference),
        !(value is Reference),
    ensures
        resolve_within(objects.insert(at, value), id, fuel) == resolve_within(objects, id, fuel),
    decreases fuel,
{
    if fuel > 0 && objects.dom().contains(id) {
        if let PdfValue::Reference(next) = objects[id] {
            lemma_resolve_with_change(objects, next, (fuel - 1) as nat, at, value);
        }
    }
}

/// What entering a value into a dictionary changes: that one entry, and no
/// other entry or object.
pub proof fn entry_changes_nothing_else(doc: DocView, id: ObjectId, k: Seq<u8>, value: PdfValue)
    requires
        doc.dict_at(id) is Ok,
    ensures
        with_entry(doc, id, k, value) matches Ok(after) && after.dict_at(id) == Ok::<
            Map<Seq<u8>, PdfValue>,
            Fault,
        >(doc.dict_at(id)->Ok_0.insert(k, value)) && after.objects.dom() == doc.objects.dom() && (
        forall|other: ObjectId|
            resolved(doc.objects, id) != Ok::<ObjectId, Fault>(other)
                && doc.objects.dom().contains(other) ==> #[trigger] after.objects[other]
                == doc.objects[other]),
{
    lemma_resolved_is_there(doc.objects, id, 129);
    let at = resolved(doc.objects, id)->Ok_0;
    let dict = doc.objects[at]->Dictionary_0;
    let changed = PdfValue::Dictionary(dict.insert(k, value));
    lemma_resolve_with_change(doc.objects, id, 129, at, changed);
    assert(doc.objects.insert(at, changed).dom() =~= doc.objects.dom());
}

/// Appending an overlay to a page that can be found, in a document whose next
/// number is free, succeeds. It puts the page's content, whole and in order,
/// between the new first stream and the overlay. No other entry of the page and
/// no other object changes.
pub proof fn overlay_keeps_content(doc: DocView, page_id: ObjectId, overlay_id: ObjectId)
    requires
        doc.dict_at(page_id) is Ok,
        !doc.objects.dom().contains(doc.next_id()),
    ensures
        with_overlay(doc, page_id, overlay_id).1 is Ok,
        with_overlay(doc, page_id, overlay_id).0.dict_at(page_id) == Ok::<
            Map<Seq<u8>, PdfValue>,
            Fault,
        >(
            doc.dict_at(page_id)->Ok_0.insert(
                key("Contents"@),
                sandwich(
                    doc.next_id(),
                    content_parts(doc.objects, doc.dict_at(page_id)->Ok_0),
                    overlay_id,
                ),
            ),
        ),
        with_overlay(doc, page_id, overlay_id).0.objects[doc.next_id()] == plain_stream(
            key("q\n"@),
        ),
        forall|other: ObjectId|
            doc.objects.dom().contains(other) && resolved(doc.objects, page_id) != Ok::<
                ObjectId,
                Fault,
            >(other) ==> #[trigger] with_overlay(doc, page_id, overlay_id).0.objects[other]
                == doc.objects[other],
{
    let doc1 = doc.added(plain_stream(key("q\n"@)));
    lemma_resolve_with_new(
        doc.objects,
        page_id,
        129,
        doc.next_id(),
        plain_stream(key("q\n"@)),
    );
    lemma_resolved_is_there(doc.objects, page_id, 129);
    let dict = doc.dict_at(page_id)->Ok_0;
    lemma_parts_with_new(doc.objects, dict, doc.next_id(), plain_stream(key("q\n"@)));
    entry_changes_nothing_else(
        doc1,
        page_id,
        key("Contents"@),
        sandwich(doc.next_id(), content_parts(doc.objects, dict), overlay_id),
    );
}

/// A resource that was added to a page is found there under its name. Every
/// other resource of the page, of that type and of any other, stays what it
/// was, and so does every other entry of the page and every other object.
pub proof fn resource_is_added(
    doc: DocView,
    page_id: ObjectId,
    res_type: Seq<u8>,
    name: Seq<u8>,
    id: ObjectId,
)
    requires
        with_resource(doc, page_id, res_type, name, id) is Ok,
    ensures
        ({
            let after = with_resource(doc, page_id, res_type, name, id)->Ok_0;
            let had = page_resources(doc, page_id)->Ok_0;
            let sub = dict_like(doc, entry(had, res_type))->Ok_0;
            &&& page_resources(after, page_id) matches Ok(has)
            &&& has.dom() == had.dom().insert(res_type)
            &&& has[res_type] == PdfValue::Dictionary(sub.insert(name, PdfValue::Reference(id)))
            &&& forall|t: Seq<u8>| t != res_type && had.dom().contains(t) ==> has[t] == had[t]
            &&& resource_keys(after, page_id, res_type) == resource_keys(
                doc,
                page_id,
                res_type,
            ).insert(name)
            &&& forall|k: Seq<u8>|
                k != key("Resources"@) ==> entry(after.dict_at(page_id)->Ok_0, k) == entry(
                    doc.dict_at(page_id)->Ok_0,
                    k,
                )
            &&& forall|other: ObjectId|
                resolved(doc.objects, page_id) != Ok::<ObjectId, Fault>(other)
                    && doc.objects.dom().contains(other) ==> #[trigger] after.objects[other]
                    == doc.objects[other]
        }),
{
    let had = page_resources(doc, page_id)->Ok_0;
    let sub = dict_like(doc, entry(had, res_type))->Ok_0;
    let has = had.insert(
        res_type,
        PdfValue::Dictionary(sub.insert(name, PdfValue::Reference(id))),
    );
    entry_changes_nothing_else(
        doc,
        page_id,
        key("Resources"@),
        PdfValue::Dictionary(has),
    );
    assert(has.dom() =~= had.dom().insert(res_type));
    assert(sub.insert(name, PdfValue::Reference(id)).dom() =~= sub.dom().insert(name));
}

} // verus!
