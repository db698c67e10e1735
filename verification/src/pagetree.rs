//! The pages of a document: their order, and what taking pages out leaves.

use lopdf::{Document, Object, ObjectId};
use vstd::prelude::*;

use crate::names::same_bytes;
use crate::objects::{
    doc_max_id, doc_objects, doc_trailer, doc_view, key, object_value, resolved, DocView, PdfValue,
};
use crate::pagedict::entry;
use crate::pruning::{
    lemma_numbered_are_pages, lemma_taken_out, numbered, objects_left, pages_deleted, trailer_left,
    tree_left, without_pages,
};

verus! {

// ---------------------------------------------------------------------------
// Page trees
// ---------------------------------------------------------------------------

/// What lies below a node of a page tree: the pages in order, all nodes, and the items
/// of `Kids` that are passed over.
#[verifier::ext_equal]
pub struct Branch {
    pub pages: Seq<ObjectId>,
    pub nodes: Seq<ObjectId>,
    pub others: Seq<PdfValue>,
}

/// A dictionary says that it is of a type.
pub open spec fn type_is(dict: Map<Seq<u8>, PdfValue>, name: Seq<char>) -> bool {
    entry(dict, key("Type"@)) == PdfValue::Name(key(name))
}

/// An item of `Kids` that is passed over.
pub open spec fn passed_over(kid: PdfValue) -> Branch {
    Branch { pages: Seq::empty(), nodes: Seq::empty(), others: seq![kid] }
}

/// What lies at an item of `Kids`, up to `depth` levels deep: a page, or a node with
/// its own, if it has any. What names nothing, or something of another kind or type, is
/// passed over. `None` where it goes deeper, or to a reference.
pub open spec fn branch(objects: Map<ObjectId, PdfValue>, kid: PdfValue, depth: nat) -> Option<
    Branch,
>
    decreases depth, 0nat,
{
    match kid {
        PdfValue::Reference(id) => if objects.dom().contains(id) {
            match objects[id] {
                PdfValue::Dictionary(dict) => if type_is(dict, "Page"@) {
                    Some(Branch { pages: seq![id], nodes: seq![id], others: Seq::empty() })
                } else if type_is(dict, "Pages"@) {
                    match entry(dict, key("Kids"@)) {
                        PdfValue::Array(kids) => if depth > 0 {
                            match branches(objects, kids, (depth - 1) as nat) {
                                Some(below) => Some(
                                    Branch { nodes: seq![id] + below.nodes, ..below },
                                ),
                                None => None,
                            }
                        } else {
                            None
                        },
                        _ => Some(
                            Branch { pages: Seq::empty(), nodes: seq![id], others: Seq::empty() },
                        ),
                    }
                } else {
                    Some(passed_over(kid))
                },
                PdfValue::Reference(_) => None,
                _ => Some(passed_over(kid)),
            }
        } else {
            Some(passed_over(kid))
        },
        _ => Some(passed_over(kid)),
    }
}

/// What lies at the items of `Kids`, one after the other.
pub open spec fn branches(
    objects: Map<ObjectId, PdfValue>,
    kids: Seq<PdfValue>,
    depth: nat,
) -> Option<Branch>
    decreases depth, kids.len(),
{
    if kids.len() == 0 {
        Some(Branch { pages: Seq::empty(), nodes: Seq::empty(), others: Seq::empty() })
    } else {
        match (branches(objects, kids.drop_last(), depth), branch(objects, kids.last(), depth)) {
            (Some(front), Some(last)) => Some(
                Branch {
                    pages: front.pages + last.pages,
                    nodes: front.nodes + last.nodes,
                    others: front.others + last.others,
                },
            ),
            _ => None,
        }
    }
}

/// A page tree: the catalog, the root, and what lies below the root.
pub struct PageTree {
    pub catalog: ObjectId,
    pub root: ObjectId,
    pub below: Branch,
}

/// A list of distinct objects of a document, none of them one of the nodes.
pub open spec fn are_spare(
    objects: Map<ObjectId, PdfValue>,
    nodes: Seq<ObjectId>,
    ids: Seq<ObjectId>,
) -> bool {
    &&& ids.no_duplicates()
    &&& forall|i: int|
        0 <= i < ids.len() ==> objects.dom().contains(#[trigger] ids[i]) && !nodes.contains(ids[i])
}

/// Beside the nodes there are at least `n` objects.
pub open spec fn has_spare(
    objects: Map<ObjectId, PdfValue>,
    nodes: Seq<ObjectId>,
    n: nat,
) -> bool {
    exists|ids: Seq<ObjectId>| ids.len() == n && #[trigger] are_spare(objects, nodes, ids)
}

/// The page tree of a document whose tree is in order: the trailer names a catalog, the
/// catalog a root, and below it each node and page is found once, no deeper than 256
/// levels, and no more items are passed over than there are other objects. `None` for
/// any other document.
pub open spec fn tree_of(
    trailer: Map<Seq<u8>, PdfValue>,
    objects: Map<ObjectId, PdfValue>,
) -> Option<PageTree> {
    match entry(trailer, key("Root"@)) {
        PdfValue::Reference(catalog) => match root_of(objects, catalog) {
            Some(root) => match kids_of(objects, root) {
                Some(kids) => match branches(objects, kids, 256) {
                    Some(below) => if below.nodes.no_duplicates() && !below.nodes.contains(root)
                        && !below.nodes.contains(catalog) && has_spare(
                        objects,
                        below.nodes,
                        below.others.len(),
                    ) {
                        Some(PageTree { catalog, root, below })
                    } else {
                        None
                    },
                    None => None,
                },
                None => None,
            },
            None => None,
        },
        _ => None,
    }
}

/// The root of the page tree that a catalog names.
pub open spec fn root_of(objects: Map<ObjectId, PdfValue>, catalog: ObjectId) -> Option<ObjectId> {
    if objects.dom().contains(catalog) {
        match objects[catalog] {
            PdfValue::Dictionary(dict) => match entry(dict, key("Pages"@)) {
                PdfValue::Reference(root) => Some(root),
                _ => None,
            },
            _ => None,
        }
    } else {
        None
    }
}

/// The items of a node's `Kids`.
pub open spec fn kids_of(objects: Map<ObjectId, PdfValue>, node: ObjectId) -> Option<
    Seq<PdfValue>,
> {
    if objects.dom().contains(node) {
        match objects[node] {
            PdfValue::Dictionary(dict) => match entry(dict, key("Kids"@)) {
                PdfValue::Array(kids) => Some(kids),
                _ => None,
            },
            _ => None,
        }
    } else {
        None
    }
}

/// The pages that a walk over a page tree finds, whatever state the tree is in.
pub uninterp spec fn page_order(
    trailer: Map<Seq<u8>, PdfValue>,
    objects: Map<ObjectId, PdfValue>,
) -> Seq<ObjectId>;

/// The pages of a document in order: those of its page tree, where that is in order,
/// and otherwise what a walk finds.
pub open spec fn ordered_pages(
    trailer: Map<Seq<u8>, PdfValue>,
    objects: Map<ObjectId, PdfValue>,
) -> Seq<ObjectId> {
    match tree_of(trailer, objects) {
        Some(tree) => tree.below.pages,
        None => page_order(trailer, objects),
    }
}

/// The pages of a document.
pub open spec fn pages_of_doc(doc: DocView) -> Seq<ObjectId> {
    ordered_pages(doc.trailer, doc.objects)
}

/// An object number leads to a dictionary.
pub open spec fn leads_to_dict(objects: Map<ObjectId, PdfValue>, id: ObjectId) -> bool {
    objects.dom().contains(id) && match resolved(objects, id) {
        Ok(at) => objects[at] is Dictionary,
        Err(_) => false,
    }
}

/// Every page of the list can be found, and is a dictionary.
pub open spec fn pages_found(order: Seq<ObjectId>, objects: Map<ObjectId, PdfValue>) -> bool {
    forall|i: int| 0 <= i < order.len() ==> leads_to_dict(objects, #[trigger] order[i])
}

// ---------------------------------------------------------------------------
// When pages can be taken out
// ---------------------------------------------------------------------------

/// The number of pages that a node of the page tree announces can be reserved for.
pub open spec fn node_fits(objects: Map<ObjectId, PdfValue>, node: PdfValue) -> bool {
    match node {
        PdfValue::Dictionary(dict) => if type_is(dict, "Pages"@) {
            match entry(dict, key("Count"@)) {
                PdfValue::Integer(n) => n <= 0x7fff_ffff,
                PdfValue::Reference(id) => match resolved(objects, id) {
                    Ok(at) => match objects[at] {
                        PdfValue::Integer(n) => n <= 0x7fff_ffff,
                        _ => true,
                    },
                    Err(_) => true,
                },
                _ => true,
            }
        } else {
            true
        },
        _ => true,
    }
}

/// All numbers of pages that nodes announce can be reserved for.
pub open spec fn counts_fit(objects: Map<ObjectId, PdfValue>) -> bool {
    forall|id: ObjectId| #[trigger]
        objects.dom().contains(id) ==> node_fits(objects, objects[id])
}

/// The number of pages of a parent can be counted down.
pub open spec fn counts_down(node: PdfValue) -> bool {
    match node {
        PdfValue::Dictionary(dict) => match entry(dict, key("Count"@)) {
            PdfValue::Integer(n) => n >= -0x4000_0000_0000_0000,
            _ => true,
        },
        _ => true,
    }
}

/// The chain of parents from a node ends within `fuel` steps, and each can be counted
/// down; it ends early at an object of `gone`, which is taken out.
pub open spec fn climb_ends(
    objects: Map<ObjectId, PdfValue>,
    gone: Set<ObjectId>,
    node: PdfValue,
    fuel: nat,
) -> bool
    decreases fuel,
{
    match node {
        PdfValue::Dictionary(entries) => match entry(entries, key("Parent"@)) {
            PdfValue::Reference(id) => gone.contains(id) || !objects.dom().contains(id) || (fuel > 0
                && counts_down(objects[id]) && climb_ends(
                objects,
                gone,
                objects[id],
                (fuel - 1) as nat,
            )),
            _ => true,
        },
        _ => true,
    }
}

/// Where pages are taken out one after the other, the chain of parents from one of them
/// does not run in a circle of objects that are still there. A page that is gone already
/// has no parents.
pub open spec fn page_climb_ends(
    objects: Map<ObjectId, PdfValue>,
    pages: Seq<ObjectId>,
    i: int,
) -> bool {
    pages.take(i).contains(pages[i]) || climb_ends(
        objects,
        pages.take(i + 1).to_set(),
        objects[pages[i]],
        objects.dom().len(),
    )
}

/// None of the chains of parents from the given pages runs in a circle.
pub open spec fn climbs_end(objects: Map<ObjectId, PdfValue>, pages: Seq<ObjectId>) -> bool {
    forall|i: int| 0 <= i < pages.len() ==> #[trigger] page_climb_ends(objects, pages, i)
}

/// Pages can be taken out of a document.
pub open spec fn can_be_taken_out(doc: DocView, numbers: Seq<u32>) -> bool {
    counts_fit(doc.objects) && climbs_end(doc.objects, numbered(pages_of_doc(doc), numbers))
}

// ---------------------------------------------------------------------------
// Outside calls
// ---------------------------------------------------------------------------

/// `lopdf::Document::page_iter` walks over the page tree and gives the pages in order.
/// It passes over items that are no page and no node, and looks at no more items than
/// the document has objects. So of a tree that is in order it gives all pages. Each is the number of a dictionary of
/// the document, or of a reference to one.
#[verifier::external_body]
pub(crate) fn page_ids(doc: &Document) -> (r: Vec<ObjectId>)
    ensures
        r@ == page_order(doc_trailer(*doc), doc_objects(*doc)),
        r@ == ordered_pages(doc_trailer(*doc), doc_objects(*doc)),
        pages_found(r@, doc_objects(*doc)),
{
    let mut ids = Vec::new();
    for id in doc.page_iter() {
        ids.push(id);
    }
    ids
}

/// The numbers in the field `lopdf::Document::objects`, each once.
#[verifier::external_body]
fn object_ids(doc: &Document) -> (r: Vec<ObjectId>)
    ensures
        r@.to_set() == doc_objects(*doc).dom(),
        r@.no_duplicates(),
{
    doc.objects.keys().copied().collect()
}

/// An object of the field `lopdf::Document::objects`, by its number, as it is
/// stored there.
#[verifier::external_body]
fn stored_object(doc: &Document, id: ObjectId) -> (r: Option<&Object>)
    ensures
        match r {
            Some(object) => doc_objects(*doc).dom().contains(id) && doc_objects(*doc)[id]
                == object_value(*object),
            None => !doc_objects(*doc).dom().contains(id),
        },
{
    doc.objects.get(&id)
}

/// `lopdf::Document::delete_pages` takes pages out by their numbers, which count
/// from one; numbers without a page are passed over. It takes one page after the other:
/// it walks over what the trailer leads to, takes references to the page out of the
/// arrays and dictionaries that it finds, removes the page's object, and counts its
/// parents down. So everything that the page tree consists of is stripped of all these
/// pages, and any other object of those that were still led to. Nothing else is
/// changed. The call does not return where the parents of a page run in a circle that
/// no page taken out before it was part of, and fails where a number of pages is too large to reserve for, or too small to be
/// counted down.
#[verifier::external_body]
fn delete_pages(doc: &mut Document, numbers: &Vec<u32>)
    requires
        counts_fit(doc_objects(*old(doc))),
        climbs_end(
            doc_objects(*old(doc)),
            numbered(page_order(doc_trailer(*old(doc)), doc_objects(*old(doc))), numbers@),
        ),
    ensures
        (doc_trailer(*final(doc)), doc_objects(*final(doc))) == pages_deleted(
            doc_trailer(*old(doc)),
            doc_objects(*old(doc)),
            numbers@,
        ),
        objects_left(
            doc_objects(*old(doc)),
            doc_objects(*final(doc)),
            numbered(page_order(doc_trailer(*old(doc)), doc_objects(*old(doc))), numbers@),
        ),
        trailer_left(
            doc_trailer(*old(doc)),
            doc_trailer(*final(doc)),
            numbered(page_order(doc_trailer(*old(doc)), doc_objects(*old(doc))), numbers@),
        ),
        tree_of(doc_trailer(*old(doc)), doc_objects(*old(doc))) matches Some(tree) ==> tree_left(
            tree,
            doc_objects(*old(doc)),
            doc_objects(*final(doc)),
            numbered(page_order(doc_trailer(*old(doc)), doc_objects(*old(doc))), numbers@),
        ),
        pages_found(
            page_order(doc_trailer(*final(doc)), doc_objects(*final(doc))),
            doc_objects(*final(doc)),
        ),
        doc_max_id(*final(doc)) == doc_max_id(*old(doc)),
{
    doc.delete_pages(numbers)
}

// ---------------------------------------------------------------------------
// Taking pages out
// ---------------------------------------------------------------------------

fn is_pages_node(dict: &lopdf::Dictionary) -> (r: bool)
    ensures
        r == type_is(crate::objects::dict_entries(*dict), "Pages"@),
{
    match dict.get("Type".as_bytes()) {
        Ok(object) => match object.as_name() {
            Ok(name) => same_bytes(name, "Pages".as_bytes()),
            Err(_) => false,
        },
        Err(_) => false,
    }
}

fn node_count_fits(doc: &Document, object: &Object) -> (r: bool)
    ensures
        r == node_fits(doc_objects(*doc), object_value(*object)),
{
    let dict = match object.as_dict() {
        Ok(dict) => dict,
        Err(_) => return true,
    };
    if !is_pages_node(dict) {
        return true;
    }
    let count = match dict.get("Count".as_bytes()) {
        Ok(count) => count,
        Err(_) => return true,
    };
    if let Ok(n) = count.as_i64() {
        return n <= 0x7fff_ffff;
    }
    if let Ok(id) = count.as_reference() {
        if let Ok(target) = doc.get_object(id) {
            if let Ok(n) = target.as_i64() {
                return n <= 0x7fff_ffff;
            }
        }
    }
    true
}

fn all_counts_fit(doc: &Document, ids: &Vec<ObjectId>) -> (r: bool)
    requires
        ids@.to_set() == doc_objects(*doc).dom(),
    ensures
        r == counts_fit(doc_objects(*doc)),
{
    let ghost objects = doc_objects(*doc);
    let n = ids.len();
    let mut i: usize = 0;
    while i < n
        invariant
            objects == doc_objects(*doc),
            ids@.to_set() == objects.dom(),
            n == ids.len(),
            i <= n,
            forall|k: int| 0 <= k < i ==> node_fits(objects, objects[#[trigger] ids@[k]]),
        decreases n - i,
    {
        assert(ids@.to_set().contains(ids@[i as int]));
        match stored_object(doc, ids[i]) {
            Some(object) => if !node_count_fits(doc, object) {
                return false;
            },
            None => {},
        }
        i += 1;
    }
    assert forall|id: ObjectId| #[trigger] objects.dom().contains(id) implies node_fits(
        objects,
        objects[id],
    ) by {
        assert(ids@.to_set().contains(id));
        let k = choose|k: int| 0 <= k < ids@.len() && ids@[k] == id;
        assert(node_fits(objects, objects[ids@[k]]));
    }
    true
}

fn can_count_down(object: &Object) -> (r: bool)
    ensures
        r == counts_down(object_value(*object)),
{
    match object.as_dict() {
        Ok(dict) => match dict.get("Count".as_bytes()) {
            Ok(count) => match count.as_i64() {
                Ok(n) => n >= -0x4000_0000_0000_0000,
                Err(_) => true,
            },
            Err(_) => true,
        },
        Err(_) => true,
    }
}

/// Whether an object is one of the first `n` of a list.
fn is_among(ids: &Vec<ObjectId>, n: usize, id: ObjectId) -> (r: bool)
    requires
        n <= ids.len(),
    ensures
        r == ids@.take(n as int).contains(id),
        r == ids@.take(n as int).to_set().contains(id),
{
    let ghost first = ids@.take(n as int);
    let mut i: usize = 0;
    while i < n
        invariant
            n <= ids.len(),
            first == ids@.take(n as int),
            i <= n,
            forall|k: int| 0 <= k < i ==> first[k] != id,
        decreases n - i,
    {
        if ids[i].0 == id.0 && ids[i].1 == id.1 {
            assert(first[i as int] == id);
            return true;
        }
        assert(first[i as int] != id);
        i += 1;
    }
    false
}

fn climb_has_end(doc: &Document, pages: &Vec<ObjectId>, i: usize, count: usize) -> (r: bool)
    requires
        i < pages.len(),
        doc_objects(*doc).dom().contains(pages@[i as int]),
        count == doc_objects(*doc).dom().len(),
    ensures
        r == page_climb_ends(doc_objects(*doc), pages@, i as int),
{
    let page = pages[i];
    if is_among(pages, i, page) {
        return true;
    }
    let ghost objects = doc_objects(*doc);
    let ghost gone = pages@.take(i + 1).to_set();
    let mut node = page;
    let mut left = count;
    loop
        invariant
            objects == doc_objects(*doc),
            objects.dom().contains(node),
            i < pages.len(),
            gone == pages@.take(i + 1).to_set(),
            page_climb_ends(objects, pages@, i as int) == climb_ends(
                objects,
                gone,
                objects[node],
                left as nat,
            ),
        decreases left,
    {
        let object = match stored_object(doc, node) {
            Some(object) => object,
            None => return true,
        };
        let dict = match object.as_dict() {
            Ok(dict) => dict,
            Err(_) => return true,
        };
        let parent = match dict.get("Parent".as_bytes()) {
            Ok(parent) => parent,
            Err(_) => return true,
        };
        let id = match parent.as_reference() {
            Ok(id) => id,
            Err(_) => return true,
        };
        if is_among(pages, i + 1, id) {
            return true;
        }
        let up = match stored_object(doc, id) {
            Some(up) => up,
            None => return true,
        };
        if left == 0 || !can_count_down(up) {
            return false;
        }
        node = id;
        left -= 1;
    }
}

fn ids_of_numbers(pages: &Vec<ObjectId>, numbers: &Vec<u32>) -> (r: Vec<ObjectId>)
    ensures
        r@ == numbered(pages@, numbers@),
        forall|i: int| 0 <= i < r@.len() ==> pages@.contains(#[trigger] r@[i]),
{
    let n = numbers.len();
    let mut r: Vec<ObjectId> = Vec::new();
    let mut i: usize = 0;
    assert(numbers@.take(0) =~= Seq::empty());
    while i < n
        invariant
            n == numbers.len(),
            i <= n,
            r@ == numbered(pages@, numbers@.take(i as int)),
            forall|k: int| 0 <= k < r@.len() ==> pages@.contains(#[trigger] r@[k]),
        decreases n - i,
    {
        let p = numbers[i];
        assert(numbers@.take(i + 1).drop_last() =~= numbers@.take(i as int));
        if p >= 1 && p as usize <= pages.len() {
            r.push(pages[p as usize - 1]);
            assert(pages@.contains(pages@[p - 1]));
        }
        i += 1;
    }
    assert(numbers@.take(n as int) =~= numbers@);
    r
}

/// Whether pages can be taken out of a document by their numbers: the numbers of pages
/// that its page tree announces are sensible, and none of these pages is its own
/// ancestor.
pub fn is_tree_sound(doc: &Document, numbers: &Vec<u32>) -> (r: bool)
    ensures
        r == can_be_taken_out(doc_view(*doc), numbers@),
{
    let ids = object_ids(doc);
    let count = ids.len();
    proof {
        ids@.unique_seq_to_set();
    }
    if !all_counts_fit(doc, &ids) {
        return false;
    }
    let order = page_ids(doc);
    let pages = ids_of_numbers(&order, numbers);
    let n = pages.len();
    let mut i: usize = 0;
    while i < n
        invariant
            n == pages.len(),
            i <= n,
            count == doc_objects(*doc).dom().len(),
            counts_fit(doc_objects(*doc)),
            order@ == pages_of_doc(doc_view(*doc)),
            pages@ == numbered(order@, numbers@),
            pages_found(order@, doc_objects(*doc)),
            forall|k: int| 0 <= k < pages@.len() ==> order@.contains(#[trigger] pages@[k]),
            forall|k: int|
                0 <= k < i ==> #[trigger] page_climb_ends(doc_objects(*doc), pages@, k),
        decreases n - i,
    {
        proof {
            assert(order@.contains(pages@[i as int]));
            let k = choose|k: int| 0 <= k < order@.len() && order@[k] == pages@[i as int];
            assert(leads_to_dict(doc_objects(*doc), order@[k]));
        }
        if !climb_has_end(doc, &pages, i, count) {
            assert(!page_climb_ends(doc_objects(*doc), pages@, i as int));
            return false;
        }
        i += 1;
    }
    true
}

/// What taking pages out leaves of a document: every other object, without references
/// to these pages, and the trailer likewise. A page tree that is in order is one
/// afterwards, and has the other pages in their order.
pub open spec fn pages_taken_out(before: DocView, after: DocView, numbers: Seq<u32>) -> bool {
    let gone = numbered(pages_of_doc(before), numbers);
    &&& objects_left(before.objects, after.objects, gone)
    &&& trailer_left(before.trailer, after.trailer, gone)
    &&& pages_found(pages_of_doc(after), after.objects)
    &&& after.max_id == before.max_id
    &&& tree_of(before.trailer, before.objects) is Some ==> tree_of(
        after.trailer,
        after.objects,
    ) is Some && pages_of_doc(after) == without(pages_of_doc(before), gone.to_set())
}

/// A list without some of its items.
pub open spec fn without(ids: Seq<ObjectId>, gone: Set<ObjectId>) -> Seq<ObjectId>
    decreases ids.len(),
{
    if ids.len() == 0 {
        Seq::empty()
    } else if gone.contains(ids.last()) {
        without(ids.drop_last(), gone)
    } else {
        without(ids.drop_last(), gone).push(ids.last())
    }
}

/// Take pages out of a document by their numbers. Where that cannot be done the
/// document stays as it is, and the result is `false`.
pub fn take_pages_out(doc: &mut Document, numbers: &Vec<u32>) -> (r: bool)
    ensures
        r == can_be_taken_out(doc_view(*old(doc)), numbers@),
        !r ==> doc_view(*final(doc)) == doc_view(*old(doc)),
        r ==> doc_view(*final(doc)) == without_pages(doc_view(*old(doc)), numbers@),
        r ==> pages_taken_out(doc_view(*old(doc)), doc_view(*final(doc)), numbers@),
{
    if is_tree_sound(doc, numbers) {
        let order = page_ids(doc);
        delete_pages(doc, numbers);
        proof {
            lemma_numbered_are_pages(order@, numbers@);
            lemma_taken_out(
                doc_view(*old(doc)),
                doc_view(*doc),
                numbered(order@, numbers@),
            );
        }
        true
    } else {
        false
    }
}

} // verus!
