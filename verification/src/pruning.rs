//! What remains of a document when references to pages are taken out.

use lopdf::ObjectId;
use vstd::prelude::*;

use crate::objects::{key, lemma_keys_differ, DocView, PdfValue};
use crate::pagedict::entry;
use crate::pagetree::{
    are_spare, branch, branches, kids_of, leads_to_dict, page_order, pages_found, pages_of_doc,
    pages_taken_out, passed_over, root_of, tree_of, type_is, without, Branch, PageTree,
};

verus! {

// ---------------------------------------------------------------------------
// What remains of values
// ---------------------------------------------------------------------------

/// The place of the first reference to an object; the length where there is none.
pub open spec fn reference_at(items: Seq<PdfValue>, id: ObjectId) -> int
    decreases items.len(),
{
    if items.len() == 0 {
        0
    } else {
        let front = reference_at(items.drop_last(), id);
        if front < items.len() - 1 {
            front
        } else if items.last() == PdfValue::Reference(id) {
            items.len() - 1
        } else {
            items.len() as int
        }
    }
}

/// What remains of a value when references to an object are taken out: of every array
/// the first that it holds, and of every dictionary all entries that are one. The
/// entries of a stream stay.
pub open spec fn stripped(value: PdfValue, id: ObjectId) -> PdfValue
    decreases value,
{
    match value {
        PdfValue::Array(items) => {
            let inner = Seq::new(
                items.len(),
                |i: int|
                    if 0 <= i < items.len() {
                        stripped(items[i], id)
                    } else {
                        PdfValue::Null
                    },
            );
            let at = reference_at(items, id);
            PdfValue::Array(
                if at < items.len() {
                    inner.remove(at)
                } else {
                    inner
                },
            )
        },
        PdfValue::Dictionary(entries) => PdfValue::Dictionary(
            Map::new(
                |k: Seq<u8>| entries.dom().contains(k) && entries[k] != PdfValue::Reference(id),
                |k: Seq<u8>|
                    if entries.dom().contains(k) {
                        stripped(entries[k], id)
                    } else {
                        PdfValue::Null
                    },
            ),
        ),
        PdfValue::Stream(entries, bytes) => PdfValue::Stream(
            Map::new(
                |k: Seq<u8>| entries.dom().contains(k),
                |k: Seq<u8>|
                    if entries.dom().contains(k) {
                        stripped(entries[k], id)
                    } else {
                        PdfValue::Null
                    },
            ),
            bytes,
        ),
        _ => value,
    }
}

/// What remains of a value when references to objects are taken out, one object after
/// the other.
pub open spec fn stripped_by(value: PdfValue, ids: Seq<ObjectId>) -> PdfValue
    decreases ids.len(),
{
    if ids.len() == 0 {
        value
    } else {
        stripped(stripped_by(value, ids.drop_last()), ids.last())
    }
}

/// Two values are the same, but for the number that a dictionary holds as its count.
pub open spec fn same_but_count(a: PdfValue, b: PdfValue) -> bool {
    match (a, b) {
        (PdfValue::Dictionary(d), PdfValue::Dictionary(e)) => {
            &&& d.dom() == e.dom()
            &&& forall|k: Seq<u8>|
                d.dom().contains(k) && k != key("Count"@) ==> #[trigger] d[k] == e[k]
            &&& d.dom().contains(key("Count"@)) ==> d[key("Count"@)] == e[key("Count"@)] || (
            d[key("Count"@)] is Integer && e[key("Count"@)] is Integer)
        },
        _ => a == b,
    }
}

/// What remains of an object when references to some of the objects `ids` are taken
/// out.
pub open spec fn left_over(before: PdfValue, after: PdfValue, ids: Seq<ObjectId>) -> bool {
    exists|some: Seq<ObjectId>|
        some.to_set().subset_of(ids.to_set()) && same_but_count(
            #[trigger] stripped_by(before, some),
            after,
        )
}

/// What remains of the objects when the objects `ids` and references to them are taken
/// out.
pub open spec fn objects_left(
    before: Map<ObjectId, PdfValue>,
    after: Map<ObjectId, PdfValue>,
    ids: Seq<ObjectId>,
) -> bool {
    &&& after.dom() == before.dom().difference(ids.to_set())
    &&& forall|id: ObjectId| #[trigger]
        after.dom().contains(id) ==> left_over(before[id], after[id], ids)
}

/// What remains of the trailer: every entry, without the references to `ids` in it.
pub open spec fn trailer_left(
    before: Map<Seq<u8>, PdfValue>,
    after: Map<Seq<u8>, PdfValue>,
    ids: Seq<ObjectId>,
) -> bool {
    &&& after.dom() == before.dom()
    &&& forall|k: Seq<u8>|
        before.dom().contains(k) ==> #[trigger] after[k] == stripped_by(before[k], ids)
}

/// Of the objects of a page tree that stay, all references to `ids` are taken out.
pub open spec fn tree_left(
    tree: PageTree,
    before: Map<ObjectId, PdfValue>,
    after: Map<ObjectId, PdfValue>,
    ids: Seq<ObjectId>,
) -> bool {
    forall|id: ObjectId| #[trigger]
        after.dom().contains(id) && (id == tree.catalog || id == tree.root
            || tree.below.nodes.contains(id)) ==> same_but_count(
            stripped_by(before[id], ids),
            after[id],
        )
}

/// The objects behind page numbers, which count from one; numbers without a page are
/// passed over.
pub open spec fn numbered(order: Seq<ObjectId>, numbers: Seq<u32>) -> Seq<ObjectId>
    decreases numbers.len(),
{
    if numbers.len() == 0 {
        Seq::empty()
    } else {
        let front = numbered(order, numbers.drop_last());
        if 1 <= numbers.last() <= order.len() {
            front.push(order[numbers.last() - 1])
        } else {
            front
        }
    }
}

/// The trailer and the objects of a document without the pages of the given
/// numbers.
pub uninterp spec fn pages_deleted(
    trailer: Map<Seq<u8>, PdfValue>,
    objects: Map<ObjectId, PdfValue>,
    numbers: Seq<u32>,
) -> (Map<Seq<u8>, PdfValue>, Map<ObjectId, PdfValue>);

/// The document without the pages of the given numbers.
pub open spec fn without_pages(doc: DocView, numbers: Seq<u32>) -> DocView {
    let (trailer, objects) = pages_deleted(doc.trailer, doc.objects, numbers);
    DocView { trailer, objects, ..doc }
}

// ---------------------------------------------------------------------------
// Stripped values
// ---------------------------------------------------------------------------

proof fn lemma_reference_at(items: Seq<PdfValue>, id: ObjectId)
    ensures
        0 <= reference_at(items, id) <= items.len(),
        reference_at(items, id) < items.len() ==> items[reference_at(items, id)]
            == PdfValue::Reference(id),
        forall|i: int|
            0 <= i < reference_at(items, id) ==> #[trigger] items[i] != PdfValue::Reference(id),
    decreases items.len(),
{
    if items.len() > 0 {
        lemma_reference_at(items.drop_last(), id);
        let front = reference_at(items.drop_last(), id);
        assert forall|i: int| 0 <= i < reference_at(items, id) implies #[trigger] items[i]
            != PdfValue::Reference(id) by {
            if i < items.len() - 1 {
                assert(items.drop_last()[i] == items[i]);
            }
        }
    }
}

/// What remains of a list of values when references to objects are taken out of it, and
/// of its values.
pub open spec fn kids_left(kids: Seq<PdfValue>, ids: Seq<ObjectId>) -> Seq<PdfValue>
    decreases kids.len(),
{
    if kids.len() == 0 {
        Seq::empty()
    } else {
        let front = kids_left(kids.drop_last(), ids);
        match kids.last() {
            PdfValue::Reference(id) if ids.to_set().contains(id) => front,
            _ => front.push(stripped_by(kids.last(), ids)),
        }
    }
}

/// No object of `gone` is referred to by two items.
spec fn referred_once(kids: Seq<PdfValue>, gone: Set<ObjectId>) -> bool {
    forall|i: int, j: int|
        #![trigger kids[i], kids[j]]
        0 <= i < j < kids.len() && kids[i] is Reference && gone.contains(kids[i]->Reference_0)
            ==> kids[i] != kids[j]
}

proof fn lemma_kids_left_none(kids: Seq<PdfValue>, ids: Seq<ObjectId>)
    requires
        ids.len() == 0,
    ensures
        kids_left(kids, ids) == kids,
    decreases kids.len(),
{
    if kids.len() > 0 {
        lemma_kids_left_none(kids.drop_last(), ids);
        assert(kids.drop_last().push(kids.last()) =~= kids);
    } else {
        assert(kids_left(kids, ids) =~= kids);
    }
}

/// A reference that remains was there before.
proof fn lemma_kids_left_references(kids: Seq<PdfValue>, ids: Seq<ObjectId>, id: ObjectId)
    requires
        kids_left(kids, ids).contains(PdfValue::Reference(id)),
    ensures
        kids.contains(PdfValue::Reference(id)),
    decreases kids.len(),
{
    let left = kids_left(kids, ids);
    let k = choose|k: int| 0 <= k < left.len() && left[k] == PdfValue::Reference(id);
    if kids.len() > 0 {
        let front = kids_left(kids.drop_last(), ids);
        if k < front.len() {
            assert(front[k] == left[k]);
            lemma_kids_left_references(kids.drop_last(), ids, id);
            let m = choose|m: int|
                0 <= m < kids.drop_last().len() && kids.drop_last()[m] == PdfValue::Reference(id);
            assert(kids[m] == PdfValue::Reference(id));
        } else {
            lemma_strip_keeps_kind(kids.last(), ids);
            assert(kids[kids.len() - 1] == PdfValue::Reference(id));
        }
    }
}

/// What remains of the items of an array, whatever becomes of the array itself.
spec fn items_stripped(items: Seq<PdfValue>, id: ObjectId) -> Seq<PdfValue> {
    Seq::new(items.len(), |i: int| stripped(items[i], id))
}

/// Taking one more reference out.
proof fn lemma_strip_one(kids: Seq<PdfValue>, ids: Seq<ObjectId>)
    requires
        ids.len() > 0,
        referred_once(kids, ids.to_set()),
    ensures
        ({
            let items = kids_left(kids, ids.drop_last());
            let inner = items_stripped(items, ids.last());
            let at = reference_at(items, ids.last());
            kids_left(kids, ids) == if at < items.len() {
                inner.remove(at)
            } else {
                inner
            }
        }),
    decreases kids.len(),
{
    let front = ids.drop_last();
    let id = ids.last();
    let items = kids_left(kids, front);
    let inner = items_stripped(items, id);
    lemma_set_of_push(ids);
    if kids.len() == 0 {
        assert(inner =~= Seq::empty());
    } else {
        let front_kids = kids.drop_last();
        let last = kids.last();
        assert(referred_once(front_kids, ids.to_set())) by {
            assert forall|i: int, j: int|
                #![trigger front_kids[i], front_kids[j]]
                0 <= i < j < front_kids.len() && front_kids[i] is Reference
                    && ids.to_set().contains(front_kids[i]->Reference_0) implies front_kids[i]
                != front_kids[j] by {
                assert(kids[i] != kids[j]);
            }
        }
        lemma_strip_one(front_kids, ids);
        let before = kids_left(front_kids, front);
        let before_inner = items_stripped(before, id);
        lemma_reference_at(before, id);
        lemma_strip_keeps_kind(last, front);
        if last is Reference && front.to_set().contains(last->Reference_0) {
            assert(items == before);
        } else {
            let pushed = stripped_by(last, front);
            assert(items == before.push(pushed));
            assert(items.drop_last() =~= before);
            assert(inner =~= before_inner.push(stripped(pushed, id)));
            let p = reference_at(before, id);
            if last == PdfValue::Reference(id) {
                if p < before.len() {
                    assert(before.contains(PdfValue::Reference(id)));
                    lemma_kids_left_references(front_kids, front, id);
                    let k = choose|k: int|
                        0 <= k < front_kids.len() && front_kids[k] == PdfValue::Reference(id);
                    assert(ids.to_set().contains(id));
                    assert(kids[k] != kids[kids.len() - 1]);
                }
                assert(inner.remove(before.len() as int) =~= before_inner);
            } else {
                assert(stripped_by(last, ids) == stripped(pushed, id));
                if p < before.len() {
                    assert(inner.remove(p) =~= before_inner.remove(p).push(stripped(pushed, id)));
                }
            }
        }
    }
}

proof fn lemma_strip_array(items: Seq<PdfValue>, id: ObjectId)
    ensures
        stripped(PdfValue::Array(items), id) == PdfValue::Array(
            if reference_at(items, id) < items.len() {
                items_stripped(items, id).remove(reference_at(items, id))
            } else {
                items_stripped(items, id)
            },
        ),
{
    lemma_reference_at(items, id);
    let at = reference_at(items, id);
    let left = stripped(PdfValue::Array(items), id)->Array_0;
    if at < items.len() {
        assert(left =~= items_stripped(items, id).remove(at));
    } else {
        assert(left =~= items_stripped(items, id));
    }
}

/// Taking references out of a list, one object after the other.
proof fn lemma_strip_kids(kids: Seq<PdfValue>, ids: Seq<ObjectId>)
    requires
        referred_once(kids, ids.to_set()),
    ensures
        stripped_by(PdfValue::Array(kids), ids) == PdfValue::Array(kids_left(kids, ids)),
    decreases ids.len(),
{
    if ids.len() == 0 {
        lemma_kids_left_none(kids, ids);
    } else {
        let front = ids.drop_last();
        lemma_set_of_push(ids);
        assert(referred_once(kids, front.to_set())) by {
            assert forall|i: int, j: int|
                #![trigger kids[i], kids[j]]
                0 <= i < j < kids.len() && kids[i] is Reference && front.to_set().contains(
                    kids[i]->Reference_0,
                ) implies kids[i] != kids[j] by {
                assert(ids.to_set().contains(kids[i]->Reference_0));
            }
        }
        lemma_strip_kids(kids, front);
        lemma_strip_one(kids, ids);
        lemma_strip_array(kids_left(kids, front), ids.last());
    }
}

proof fn lemma_set_of_push(ids: Seq<ObjectId>)
    requires
        ids.len() > 0,
    ensures
        ids.to_set() == ids.drop_last().to_set().insert(ids.last()),
{
    let front = ids.drop_last();
    assert forall|id: ObjectId| ids.to_set().contains(id) == front.to_set().insert(
        ids.last(),
    ).contains(id) by {
        if ids.contains(id) {
            let k = choose|k: int| 0 <= k < ids.len() && ids[k] == id;
            if k < front.len() {
                assert(front[k] == id);
            }
        }
        if front.contains(id) {
            let k = choose|k: int| 0 <= k < front.len() && front[k] == id;
            assert(ids[k] == id);
        }
        assert(ids[ids.len() - 1] == ids.last());
    }
    assert(ids.to_set() =~= front.to_set().insert(ids.last()));
}

/// Of a dictionary, a name stays, and so does a reference to anything else; an array
/// stays as what remains of it.
proof fn lemma_strip_entry(dict: Map<Seq<u8>, PdfValue>, ids: Seq<ObjectId>, k: Seq<u8>)
    requires
        dict.dom().contains(k),
        !(dict[k] is Reference) || !ids.to_set().contains(dict[k]->Reference_0),
    ensures
        stripped_by(PdfValue::Dictionary(dict), ids) matches PdfValue::Dictionary(after)
            && after.dom().contains(k) && after[k] == stripped_by(dict[k], ids) && (
        dict[k] is Reference ==> after[k] == dict[k]) && (dict[k] is Name ==> after[k] == dict[k])
            && (dict[k] is Array ==> after[k] is Array),
    decreases ids.len(),
{
    if ids.len() > 0 {
        let front = ids.drop_last();
        lemma_set_of_push(ids);
        lemma_strip_entry(dict, front, k);
        let before = stripped_by(PdfValue::Dictionary(dict), front)->Dictionary_0;
        lemma_strip_keeps_kind(dict[k], front);
    }
}

proof fn lemma_strip_keeps_kind(value: PdfValue, ids: Seq<ObjectId>)
    ensures
        value is Reference <==> stripped_by(value, ids) is Reference,
        value is Reference ==> stripped_by(value, ids) == value,
        value is Name ==> stripped_by(value, ids) == value,
        value is Array ==> stripped_by(value, ids) is Array,
        value is Dictionary <==> stripped_by(value, ids) is Dictionary,
    decreases ids.len(),
{
    if ids.len() > 0 {
        lemma_strip_keeps_kind(value, ids.drop_last());
    }
}

/// Of a dictionary, no name and no array is left that was not there.
proof fn lemma_strip_invents_nothing(
    dict: Map<Seq<u8>, PdfValue>,
    ids: Seq<ObjectId>,
    k: Seq<u8>,
)
    ensures
        stripped_by(PdfValue::Dictionary(dict), ids) is Dictionary,
        ({
            let after = stripped_by(PdfValue::Dictionary(dict), ids)->Dictionary_0;
            &&& entry(after, k) is Name ==> entry(after, k) == entry(dict, k)
            &&& entry(after, k) is Array ==> entry(dict, k) is Array
        }),
    decreases ids.len(),
{
    if ids.len() > 0 {
        lemma_strip_invents_nothing(dict, ids.drop_last(), k);
        let before = stripped_by(PdfValue::Dictionary(dict), ids.drop_last())->Dictionary_0;
        let after = stripped_by(PdfValue::Dictionary(dict), ids)->Dictionary_0;
        if after.dom().contains(k) {
            assert(before.dom().contains(k));
            assert(after[k] == stripped(before[k], ids.last()));
        }
    }
}

/// An object that a page tree passes over is passed over when references are taken out
/// of it.
proof fn lemma_still_passed_over(
    before: Map<ObjectId, PdfValue>,
    after: Map<ObjectId, PdfValue>,
    ids: Seq<ObjectId>,
    id: ObjectId,
    depth: nat,
)
    requires
        objects_left(before, after, ids),
        !ids.to_set().contains(id),
        branch(before, PdfValue::Reference(id), depth) == Some(
            passed_over(PdfValue::Reference(id)),
        ),
    ensures
        branch(after, PdfValue::Reference(id), depth) == Some(
            passed_over(PdfValue::Reference(id)),
        ),
{
    lemma_tree_keys();
    if before.dom().contains(id) {
        let others = passed_over(PdfValue::Reference(id)).others;
        assert(others.len() == 1);
        assert(after.dom().contains(id));
        let some = choose|some: Seq<ObjectId>|
            some.to_set().subset_of(ids.to_set()) && same_but_count(
                #[trigger] stripped_by(before[id], some),
                after[id],
            );
        lemma_strip_keeps_kind(before[id], some);
        if let PdfValue::Dictionary(dict) = before[id] {
            lemma_strip_invents_nothing(dict, some, key("Type"@));
            if type_is(dict, "Pages"@) && entry(dict, key("Kids"@)) is Array {
                let below = branches(
                    before,
                    entry(dict, key("Kids"@))->Array_0,
                    (depth - 1) as nat,
                )->Some_0;
                assert((seq![id] + below.nodes).len() > 0);
            }
        }
    }
}

proof fn lemma_tree_keys()
    ensures
        key("Type"@) != key("Count"@),
        key("Kids"@) != key("Count"@),
        key("Pages"@) != key("Count"@),
        key("Page"@) != key("Pages"@),
{
    reveal_strlit("Type");
    reveal_strlit("Count");
    reveal_strlit("Kids");
    reveal_strlit("Pages");
    reveal_strlit("Page");
    lemma_keys_differ("Type"@, "Count"@);
    lemma_keys_differ("Kids"@, "Count"@);
    assert("Pages"@[0] == 'P' && "Count"@[0] == 'C');
    lemma_keys_differ("Pages"@, "Count"@);
    lemma_keys_differ("Page"@, "Pages"@);
}

// ---------------------------------------------------------------------------
// The page tree afterwards
// ---------------------------------------------------------------------------

proof fn lemma_without_concat(a: Seq<ObjectId>, b: Seq<ObjectId>, gone: Set<ObjectId>)
    ensures
        without(a + b, gone) == without(a, gone) + without(b, gone),
    decreases b.len(),
{
    if b.len() == 0 {
        assert(a + b =~= a);
        assert(without(a, gone) + without(b, gone) =~= without(a, gone));
    } else {
        assert((a + b).drop_last() =~= a + b.drop_last());
        lemma_without_concat(a, b.drop_last(), gone);
        assert(without(a + b, gone) =~= without(a, gone) + without(b, gone));
    }
}

proof fn lemma_without_one(id: ObjectId, gone: Set<ObjectId>)
    ensures
        without(seq![id], gone) == if gone.contains(id) {
            Seq::empty()
        } else {
            seq![id]
        },
{
    assert(seq![id].drop_last() =~= Seq::empty());
    assert(without(Seq::<ObjectId>::empty(), gone) =~= Seq::empty());
    assert(Seq::<ObjectId>::empty().push(id) =~= seq![id]);
}

proof fn lemma_without_members(ids: Seq<ObjectId>, gone: Set<ObjectId>)
    ensures
        forall|id: ObjectId| #[trigger]
            without(ids, gone).contains(id) <==> ids.contains(id) && !gone.contains(id),
        ids.no_duplicates() ==> without(ids, gone).no_duplicates(),
    decreases ids.len(),
{
    if ids.len() > 0 {
        let front = ids.drop_last();
        let last = ids.last();
        lemma_without_members(front, gone);
        let before = without(front, gone);
        let after = without(ids, gone);
        assert forall|id: ObjectId| #[trigger] after.contains(id) <==> ids.contains(id)
            && !gone.contains(id) by {
            if ids.contains(id) {
                let k = choose|k: int| 0 <= k < ids.len() && ids[k] == id;
                if k < front.len() {
                    assert(front[k] == id);
                }
            }
            if front.contains(id) {
                let k = choose|k: int| 0 <= k < front.len() && front[k] == id;
                assert(ids[k] == id);
            }
            assert(ids[ids.len() - 1] == last);
            if !gone.contains(last) {
                assert(after[before.len() as int] == last);
                if before.contains(id) {
                    let k = choose|k: int| 0 <= k < before.len() && before[k] == id;
                    assert(after[k] == id);
                }
                if after.contains(id) {
                    let k = choose|k: int| 0 <= k < after.len() && after[k] == id;
                    if k < before.len() {
                        assert(before[k] == id);
                    }
                }
            }
        }
        if ids.no_duplicates() {
            assert(front.no_duplicates());
            assert(!front.contains(last)) by {
                if front.contains(last) {
                    let k = choose|k: int| 0 <= k < front.len() && front[k] == last;
                    assert(ids[k] == ids[ids.len() - 1]);
                }
            }
            assert(!before.contains(last));
            assert(after.no_duplicates());
        }
    }
}

proof fn lemma_parts_distinct(a: Seq<ObjectId>, b: Seq<ObjectId>)
    requires
        (a + b).no_duplicates(),
    ensures
        a.no_duplicates(),
        b.no_duplicates(),
        forall|id: ObjectId| a.contains(id) && b.contains(id) ==> false,
        forall|id: ObjectId| #[trigger]
            (a + b).contains(id) <==> a.contains(id) || b.contains(id),
{
    let c = a + b;
    assert forall|i: int, j: int| 0 <= i < j < a.len() implies a[i] != a[j] by {
        assert(c[i] != c[j]);
    }
    assert forall|i: int, j: int| 0 <= i < j < b.len() implies b[i] != b[j] by {
        assert(c[a.len() + i] != c[a.len() + j]);
    }
    assert forall|id: ObjectId| a.contains(id) && b.contains(id) implies false by {
        let i = choose|i: int| 0 <= i < a.len() && a[i] == id;
        let j = choose|j: int| 0 <= j < b.len() && b[j] == id;
        assert(c[i] == c[a.len() + j]);
    }
    lemma_concat_members(a, b);
}

proof fn lemma_concat_members(a: Seq<ObjectId>, b: Seq<ObjectId>)
    ensures
        forall|id: ObjectId| #[trigger]
            (a + b).contains(id) <==> a.contains(id) || b.contains(id),
{
    let c = a + b;
    assert forall|id: ObjectId| #[trigger] c.contains(id) <==> a.contains(id) || b.contains(id) by {
        if c.contains(id) {
            let k = choose|k: int| 0 <= k < c.len() && c[k] == id;
            if k < a.len() {
                assert(a[k] == id);
            } else {
                assert(b[k - a.len()] == id);
            }
        }
        if a.contains(id) {
            let k = choose|k: int| 0 <= k < a.len() && a[k] == id;
            assert(c[k] == id);
        }
        if b.contains(id) {
            let k = choose|k: int| 0 <= k < b.len() && b[k] == id;
            assert(c[a.len() + k] == id);
        }
    }
}

/// An object is a page.
pub open spec fn is_page(objects: Map<ObjectId, PdfValue>, id: ObjectId) -> bool {
    objects.dom().contains(id) && match objects[id] {
        PdfValue::Dictionary(dict) => type_is(dict, "Page"@),
        _ => false,
    }
}

proof fn lemma_branch_pages(objects: Map<ObjectId, PdfValue>, kid: PdfValue, depth: nat)
    ensures
        branch(objects, kid, depth) matches Some(b) ==> {
            &&& kid is Reference && is_page(objects, kid->Reference_0) ==> b.nodes.contains(
                kid->Reference_0,
            )
            &&& forall|id: ObjectId| #[trigger]
                b.pages.contains(id) ==> is_page(objects, id) && b.nodes.contains(id)
            &&& forall|id: ObjectId| #[trigger] b.nodes.contains(id) ==> objects.dom().contains(id)
        },
    decreases depth, 0nat,
{
    if let Some(b) = branch(objects, kid, depth) {
        if b != passed_over(kid) {
            let id = kid->Reference_0;
            assert(b.nodes[0] == id);
            let dict = objects[id]->Dictionary_0;
            if type_is(dict, "Pages"@) && entry(dict, key("Kids"@)) is Array && !type_is(
                dict,
                "Page"@,
            ) {
                let kids = entry(dict, key("Kids"@))->Array_0;
                lemma_branches_pages(objects, kids, (depth - 1) as nat);
                let below = branches(objects, kids, (depth - 1) as nat)->Some_0;
                lemma_concat_members(seq![id], below.nodes);
                assert forall|p: ObjectId| seq![id].contains(p) implies p == id by {}
            } else {
                assert forall|p: ObjectId| #[trigger] b.nodes.contains(p) implies p == id by {}
            }
        }
    }
}

proof fn lemma_branches_pages(objects: Map<ObjectId, PdfValue>, kids: Seq<PdfValue>, depth: nat)
    ensures
        branches(objects, kids, depth) matches Some(b) ==> {
            &&& forall|i: int|
                0 <= i < kids.len() && (#[trigger] kids[i]) is Reference && is_page(
                    objects,
                    kids[i]->Reference_0,
                ) ==> b.nodes.contains(kids[i]->Reference_0)
            &&& forall|id: ObjectId| #[trigger]
                b.pages.contains(id) ==> is_page(objects, id) && b.nodes.contains(id)
            &&& forall|id: ObjectId| #[trigger] b.nodes.contains(id) ==> objects.dom().contains(id)
        },
    decreases depth, kids.len(),
{
    if kids.len() > 0 && branches(objects, kids, depth) is Some {
        let front_kids = kids.drop_last();
        lemma_branches_pages(objects, front_kids, depth);
        lemma_branch_pages(objects, kids.last(), depth);
        let front = branches(objects, front_kids, depth)->Some_0;
        let last = branch(objects, kids.last(), depth)->Some_0;
        lemma_concat_members(front.nodes, last.nodes);
        lemma_concat_members(front.pages, last.pages);
        let b = branches(objects, kids, depth)->Some_0;
        assert forall|i: int|
            0 <= i < kids.len() && (#[trigger] kids[i]) is Reference && is_page(
                objects,
                kids[i]->Reference_0,
            ) implies b.nodes.contains(kids[i]->Reference_0) by {
            if i < front_kids.len() {
                assert(front_kids[i] == kids[i]);
            }
        }
    }
}

/// What holds of nodes when some pages are taken out.
spec fn nodes_stripped(
    before: Map<ObjectId, PdfValue>,
    after: Map<ObjectId, PdfValue>,
    ids: Seq<ObjectId>,
    nodes: Seq<ObjectId>,
) -> bool {
    &&& forall|id: ObjectId| #[trigger]
        nodes.contains(id) && !ids.to_set().contains(id) ==> after.dom().contains(id)
            && same_but_count(stripped_by(before[id], ids), after[id])
    &&& forall|id: ObjectId| #[trigger] ids.to_set().contains(id) ==> is_page(before, id)
    &&& objects_left(before, after, ids)
}

/// What remains of a branch, or of several.
spec fn branch_left(before: Branch, after: Option<Branch>, gone: Set<ObjectId>) -> bool {
    match after {
        Some(b) => b.pages == without(before.pages, gone) && b.nodes == without(
            before.nodes,
            gone,
        ) && b.others.len() == before.others.len(),
        None => false,
    }
}

proof fn lemma_nodes_part(
    before: Map<ObjectId, PdfValue>,
    after: Map<ObjectId, PdfValue>,
    ids: Seq<ObjectId>,
    all: Seq<ObjectId>,
    part: Seq<ObjectId>,
)
    requires
        nodes_stripped(before, after, ids, all),
        forall|id: ObjectId| #[trigger] part.contains(id) ==> all.contains(id),
    ensures
        nodes_stripped(before, after, ids, part),
{
    assert forall|id: ObjectId| #[trigger] part.contains(id) && !ids.to_set().contains(id) implies
        after.dom().contains(id) && same_but_count(stripped_by(before[id], ids), after[id]) by {
        assert(all.contains(id));
    }
}

proof fn lemma_branch_pruned(
    before: Map<ObjectId, PdfValue>,
    after: Map<ObjectId, PdfValue>,
    ids: Seq<ObjectId>,
    kid: PdfValue,
    depth: nat,
)
    requires
        branch(before, kid, depth) is Some,
        branch(before, kid, depth)->Some_0.nodes.no_duplicates(),
        nodes_stripped(before, after, ids, branch(before, kid, depth)->Some_0.nodes),
    ensures
        ({
            let b = branch(before, kid, depth)->Some_0;
            let gone = ids.to_set();
            if kid is Reference && gone.contains(kid->Reference_0) {
                without(b.pages, gone) == Seq::<ObjectId>::empty() && without(b.nodes, gone)
                    == Seq::<ObjectId>::empty() && b.others.len() == 0
            } else {
                branch_left(b, branch(after, stripped_by(kid, ids), depth), gone)
            }
        }),
    decreases depth, 0nat,
{
    let b = branch(before, kid, depth)->Some_0;
    let gone = ids.to_set();
    lemma_tree_keys();
    lemma_strip_keeps_kind(kid, ids);
    assert(without(Seq::<ObjectId>::empty(), gone) =~= Seq::empty());
    if kid is Reference {
        let id = kid->Reference_0;
        lemma_without_one(id, gone);
        if gone.contains(id) {
            assert(is_page(before, id));
        } else if b == passed_over(kid) {
            lemma_still_passed_over(before, after, ids, id, depth);
        } else {
            let dict = before[id]->Dictionary_0;
            assert(b.nodes[0] == id);
            assert(b.nodes.contains(id));
            lemma_strip_entry(dict, ids, key("Type"@));
            let d = after[id]->Dictionary_0;
            assert(entry(d, key("Type"@)) == entry(dict, key("Type"@)));
            if !type_is(dict, "Page"@) {
                match entry(dict, key("Kids"@)) {
                    PdfValue::Array(kids) => {
                        let below = branches(before, kids, (depth - 1) as nat)->Some_0;
                        lemma_parts_distinct(seq![id], below.nodes);
                        lemma_nodes_part(before, after, ids, b.nodes, below.nodes);
                        lemma_branches_pruned(before, after, ids, kids, (depth - 1) as nat);
                        lemma_strip_entry(dict, ids, key("Kids"@));
                        lemma_strip_kids(kids, ids);
                        assert(entry(d, key("Kids"@)) == PdfValue::Array(kids_left(kids, ids)));
                        lemma_without_concat(seq![id], below.nodes, gone);
                    },
                    _ => {
                        lemma_strip_invents_nothing(dict, ids, key("Kids"@));
                    },
                }
            }
        }
    }
}

proof fn lemma_branches_pruned(
    before: Map<ObjectId, PdfValue>,
    after: Map<ObjectId, PdfValue>,
    ids: Seq<ObjectId>,
    kids: Seq<PdfValue>,
    depth: nat,
)
    requires
        branches(before, kids, depth) is Some,
        branches(before, kids, depth)->Some_0.nodes.no_duplicates(),
        nodes_stripped(before, after, ids, branches(before, kids, depth)->Some_0.nodes),
    ensures
        referred_once(kids, ids.to_set()),
        branch_left(
            branches(before, kids, depth)->Some_0,
            branches(after, kids_left(kids, ids), depth),
            ids.to_set(),
        ),
    decreases depth, kids.len(),
{
    let gone = ids.to_set();
    if kids.len() == 0 {
        let b = branches(before, kids, depth)->Some_0;
        assert(without(b.pages, gone) =~= Seq::empty());
        assert(without(b.nodes, gone) =~= Seq::empty());
    } else {
        let front_kids = kids.drop_last();
        let front = branches(before, front_kids, depth)->Some_0;
        let last = branch(before, kids.last(), depth)->Some_0;
        lemma_parts_distinct(front.nodes, last.nodes);
        lemma_nodes_part(before, after, ids, front.nodes + last.nodes, front.nodes);
        lemma_nodes_part(before, after, ids, front.nodes + last.nodes, last.nodes);
        lemma_branches_pruned(before, after, ids, front_kids, depth);
        lemma_branch_pruned(before, after, ids, kids.last(), depth);
        lemma_branches_pages(before, front_kids, depth);
        lemma_branch_pages(before, kids.last(), depth);
        assert(referred_once(kids, gone)) by {
            assert forall|i: int, j: int|
                #![trigger kids[i], kids[j]]
                0 <= i < j < kids.len() && kids[i] is Reference && gone.contains(
                    kids[i]->Reference_0,
                ) implies kids[i] != kids[j] by {
                assert(front_kids[i] == kids[i]);
                assert(is_page(before, kids[i]->Reference_0));
                if j < front_kids.len() {
                    assert(front_kids[j] == kids[j]);
                } else {
                    assert(front.nodes.contains(front_kids[i]->Reference_0));
                }
            }
        }
        lemma_without_concat(front.nodes, last.nodes, gone);
        lemma_without_concat(front.pages, last.pages, gone);
        let kept = kids_left(front_kids, ids);
        if kids.last() is Reference && gone.contains(kids.last()->Reference_0) {
            assert(without(front.pages, gone) + Seq::<ObjectId>::empty() =~= without(
                front.pages,
                gone,
            ));
            assert(without(front.nodes, gone) + Seq::<ObjectId>::empty() =~= without(
                front.nodes,
                gone,
            ));
        } else {
            let stays = stripped_by(kids.last(), ids);
            assert(kids_left(kids, ids) == kept.push(stays));
            assert(kept.push(stays).drop_last() =~= kept);
        }
    }
}

pub(crate) proof fn lemma_numbered_are_pages(order: Seq<ObjectId>, numbers: Seq<u32>)
    ensures
        forall|id: ObjectId| #[trigger]
            numbered(order, numbers).to_set().contains(id) ==> order.contains(id),
    decreases numbers.len(),
{
    if numbers.len() > 0 {
        lemma_numbered_are_pages(order, numbers.drop_last());
        let front = numbered(order, numbers.drop_last());
        let all = numbered(order, numbers);
        assert forall|id: ObjectId| #[trigger] all.to_set().contains(id) implies order.contains(
            id,
        ) by {
            let k = choose|k: int| 0 <= k < all.len() && all[k] == id;
            if k < front.len() {
                assert(front[k] == id);
                assert(front.to_set().contains(id));
            }
        }
    }
}

/// The pages of a tree that is in order can be found.
pub(crate) proof fn lemma_tree_pages_found(
    trailer: Map<Seq<u8>, PdfValue>,
    objects: Map<ObjectId, PdfValue>,
)
    ensures
        tree_of(trailer, objects) matches Some(tree) ==> pages_found(tree.below.pages, objects)
            && tree.below.pages.no_duplicates() && forall|id: ObjectId| #[trigger]
            tree.below.pages.contains(id) ==> is_page(objects, id),
{
    if let Some(tree) = tree_of(trailer, objects) {
        let kids = kids_of(objects, tree.root)->Some_0;
        lemma_branches_pages(objects, kids, 256);
        lemma_branches_distinct(objects, kids, 256);
        let pages = tree.below.pages;
        assert forall|i: int| 0 <= i < pages.len() implies leads_to_dict(
            objects,
            #[trigger] pages[i],
        ) by {
            assert(pages.contains(pages[i]));
        }
    }
}

proof fn lemma_branch_distinct(objects: Map<ObjectId, PdfValue>, kid: PdfValue, depth: nat)
    ensures
        branch(objects, kid, depth) matches Some(b) ==> b.nodes.no_duplicates()
            ==> b.pages.no_duplicates(),
    decreases depth, 0nat,
{
    if let Some(b) = branch(objects, kid, depth) {
        let id = kid->Reference_0;
        let dict = objects[id]->Dictionary_0;
        if b != passed_over(kid) && !type_is(dict, "Page"@) && entry(dict, key("Kids"@)) is Array
            && b.nodes.no_duplicates() {
            let kids = entry(dict, key("Kids"@))->Array_0;
            let below = branches(objects, kids, (depth - 1) as nat)->Some_0;
            lemma_parts_distinct(seq![id], below.nodes);
            lemma_branches_distinct(objects, kids, (depth - 1) as nat);
        }
    }
}

proof fn lemma_branches_distinct(
    objects: Map<ObjectId, PdfValue>,
    kids: Seq<PdfValue>,
    depth: nat,
)
    ensures
        branches(objects, kids, depth) matches Some(b) ==> b.nodes.no_duplicates()
            ==> b.pages.no_duplicates(),
    decreases depth, kids.len(),
{
    if let Some(b) = branches(objects, kids, depth) {
        if kids.len() > 0 && b.nodes.no_duplicates() {
            let front = branches(objects, kids.drop_last(), depth)->Some_0;
            let last = branch(objects, kids.last(), depth)->Some_0;
            lemma_parts_distinct(front.nodes, last.nodes);
            lemma_branches_distinct(objects, kids.drop_last(), depth);
            lemma_branch_distinct(objects, kids.last(), depth);
            lemma_branches_pages(objects, kids.drop_last(), depth);
            lemma_branch_pages(objects, kids.last(), depth);
            let all = front.pages + last.pages;
            assert forall|i: int, j: int| 0 <= i < j < all.len() implies all[i] != all[j] by {
                if i < front.pages.len() && j >= front.pages.len() {
                    assert(front.pages.contains(all[i]));
                    assert(last.pages[j - front.pages.len()] == all[j]);
                    assert(last.pages.contains(all[j]));
                    assert(front.nodes.contains(all[i]) && last.nodes.contains(all[j]));
                } else if j < front.pages.len() {
                    assert(front.pages[i] != front.pages[j]);
                } else {
                    assert(last.pages[i - front.pages.len()] != last.pages[j
                        - front.pages.len()]);
                }
            }
        }
    }
}

proof fn lemma_tree_pruned(before: DocView, after: DocView, ids: Seq<ObjectId>)
    requires
        tree_of(before.trailer, before.objects) is Some,
        forall|id: ObjectId| #[trigger]
            ids.to_set().contains(id) ==> pages_of_doc(before).contains(id),
        objects_left(before.objects, after.objects, ids),
        trailer_left(before.trailer, after.trailer, ids),
        tree_left(
            tree_of(before.trailer, before.objects)->Some_0,
            before.objects,
            after.objects,
            ids,
        ),
    ensures
        tree_of(after.trailer, after.objects) is Some,
        pages_of_doc(after) == without(pages_of_doc(before), ids.to_set()),
{
    let tree = tree_of(before.trailer, before.objects)->Some_0;
    let gone = ids.to_set();
    let kids = kids_of(before.objects, tree.root)->Some_0;
    lemma_tree_keys();
    lemma_branches_pages(before.objects, kids, 256);
    lemma_tree_pages_found(before.trailer, before.objects);
    assert(!gone.contains(tree.catalog)) by {
        if gone.contains(tree.catalog) {
            assert(tree.below.pages.contains(tree.catalog));
            assert(tree.below.nodes.contains(tree.catalog));
        }
    }
    assert(!gone.contains(tree.root)) by {
        if gone.contains(tree.root) {
            assert(tree.below.pages.contains(tree.root));
            assert(tree.below.nodes.contains(tree.root));
        }
    }
    assert(nodes_stripped(before.objects, after.objects, ids, tree.below.nodes)) by {
        assert forall|id: ObjectId| #[trigger]
            tree.below.nodes.contains(id) && !gone.contains(id) implies after.objects.dom().contains(
            id,
        ) && same_but_count(stripped_by(before.objects[id], ids), after.objects[id]) by {
            assert(before.objects.dom().contains(id));
            assert(after.objects.dom().contains(id));
        }
        assert forall|id: ObjectId| #[trigger] gone.contains(id) implies is_page(
            before.objects,
            id,
        ) by {
            assert(pages_of_doc(before).contains(id));
        }
    }
    lemma_branches_pruned(before.objects, after.objects, ids, kids, 256);
    // The trailer still names the catalog.
    lemma_strip_keeps_kind(before.trailer[key("Root"@)], ids);
    assert(entry(after.trailer, key("Root"@)) == PdfValue::Reference(tree.catalog));
    // The catalog still names the root.
    assert(after.objects.dom().contains(tree.catalog));
    let cat = before.objects[tree.catalog]->Dictionary_0;
    lemma_strip_entry(cat, ids, key("Pages"@));
    assert(root_of(after.objects, tree.catalog) == Some(tree.root));
    // The root still has its kids, but for those that are gone.
    assert(after.objects.dom().contains(tree.root));
    let root = before.objects[tree.root]->Dictionary_0;
    lemma_strip_entry(root, ids, key("Kids"@));
    lemma_strip_kids(kids, ids);
    assert(kids_of(after.objects, tree.root) == Some(kids_left(kids, ids)));
    lemma_without_members(tree.below.nodes, gone);
    // The other objects are still there.
    let n = tree.below.others.len();
    let spare = choose|spare: Seq<ObjectId>|
        spare.len() == n && #[trigger] are_spare(before.objects, tree.below.nodes, spare);
    assert(are_spare(after.objects, without(tree.below.nodes, gone), spare)) by {
        assert forall|i: int| 0 <= i < spare.len() implies after.objects.dom().contains(
            #[trigger] spare[i],
        ) && !without(tree.below.nodes, gone).contains(spare[i]) by {
            if gone.contains(spare[i]) {
                assert(tree.below.pages.contains(spare[i]));
                assert(tree.below.nodes.contains(spare[i]));
            }
        }
    }
}

pub(crate) proof fn lemma_taken_out(before: DocView, after: DocView, ids: Seq<ObjectId>)
    requires
        forall|id: ObjectId| #[trigger]
            ids.to_set().contains(id) ==> pages_of_doc(before).contains(id),
        objects_left(before.objects, after.objects, ids),
        trailer_left(before.trailer, after.trailer, ids),
        tree_of(before.trailer, before.objects) matches Some(tree) ==> tree_left(
            tree,
            before.objects,
            after.objects,
            ids,
        ),
        pages_found(page_order(after.trailer, after.objects), after.objects),
    ensures
        pages_found(pages_of_doc(after), after.objects),
        tree_of(before.trailer, before.objects) is Some ==> tree_of(
            after.trailer,
            after.objects,
        ) is Some && pages_of_doc(after) == without(pages_of_doc(before), ids.to_set()),
{
    lemma_tree_pages_found(after.trailer, after.objects);
    if tree_of(before.trailer, before.objects) is Some {
        lemma_tree_pruned(before, after, ids);
    }
}

// ---------------------------------------------------------------------------
// What survives
// ---------------------------------------------------------------------------

/// A value refers to one of some objects, directly or inside.
pub open spec fn mentions(value: PdfValue, ids: Set<ObjectId>) -> bool
    decreases value,
{
    match value {
        PdfValue::Reference(id) => ids.contains(id),
        PdfValue::Array(items) => exists|i: int|
            0 <= i < items.len() && mentions(#[trigger] items[i], ids),
        PdfValue::Dictionary(entries) => exists|k: Seq<u8>|
            entries.dom().contains(k) && mentions(#[trigger] entries[k], ids),
        PdfValue::Stream(entries, _) => exists|k: Seq<u8>|
            entries.dom().contains(k) && mentions(#[trigger] entries[k], ids),
        _ => false,
    }
}

proof fn lemma_strip_unmentioned(value: PdfValue, ids: Set<ObjectId>, id: ObjectId)
    requires
        !mentions(value, ids),
        ids.contains(id),
    ensures
        stripped(value, id) == value,
    decreases value,
{
    match value {
        PdfValue::Array(items) => {
            lemma_reference_at(items, id);
            assert forall|i: int| 0 <= i < items.len() implies stripped(#[trigger] items[i], id)
                == items[i] && items[i] != PdfValue::Reference(id) by {
                assert(!mentions(items[i], ids));
                lemma_strip_unmentioned(items[i], ids, id);
            }
            assert(stripped(value, id)->Array_0 =~= items);
        },
        PdfValue::Dictionary(entries) => {
            assert forall|k: Seq<u8>| entries.dom().contains(k) implies stripped(
                #[trigger] entries[k],
                id,
            ) == entries[k] && entries[k] != PdfValue::Reference(id) by {
                assert(!mentions(entries[k], ids));
                lemma_strip_unmentioned(entries[k], ids, id);
            }
            assert(stripped(value, id)->Dictionary_0 =~= entries);
        },
        PdfValue::Stream(entries, bytes) => {
            assert forall|k: Seq<u8>| entries.dom().contains(k) implies stripped(
                #[trigger] entries[k],
                id,
            ) == entries[k] by {
                assert(!mentions(entries[k], ids));
                lemma_strip_unmentioned(entries[k], ids, id);
            }
            assert(stripped(value, id)->Stream_0 =~= entries);
        },
        _ => {},
    }
}

proof fn lemma_strip_all_unmentioned(value: PdfValue, ids: Set<ObjectId>, some: Seq<ObjectId>)
    requires
        !mentions(value, ids),
        some.to_set().subset_of(ids),
    ensures
        stripped_by(value, some) == value,
    decreases some.len(),
{
    if some.len() > 0 {
        lemma_set_of_push(some);
        lemma_strip_all_unmentioned(value, ids, some.drop_last());
        assert(some.to_set().contains(some.last()));
        lemma_strip_unmentioned(value, ids, some.last());
    }
}

/// What is left of an object that does not refer to a page that was taken out is the
/// object, but for a count.
proof fn lemma_unmentioned_survives(before: PdfValue, after: PdfValue, ids: Seq<ObjectId>)
    requires
        left_over(before, after, ids),
        !mentions(before, ids.to_set()),
    ensures
        same_but_count(before, after),
{
    let some = choose|some: Seq<ObjectId>|
        some.to_set().subset_of(ids.to_set()) && same_but_count(
            #[trigger] stripped_by(before, some),
            after,
        );
    lemma_strip_all_unmentioned(before, ids.to_set(), some);
}

proof fn lemma_entry_survives(
    entries: Map<Seq<u8>, PdfValue>,
    after: PdfValue,
    ids: Seq<ObjectId>,
    k: Seq<u8>,
)
    requires
        left_over(PdfValue::Dictionary(entries), after, ids),
        entries.dom().contains(k),
        k != key("Count"@),
        !mentions(entries[k], ids.to_set()),
    ensures
        after is Dictionary,
        after->Dictionary_0.dom().contains(k),
        after->Dictionary_0[k] == entries[k],
{
    let some = choose|some: Seq<ObjectId>|
        some.to_set().subset_of(ids.to_set()) && same_but_count(
            #[trigger] stripped_by(PdfValue::Dictionary(entries), some),
            after,
        );
    lemma_strip_entry(entries, some, k);
    lemma_strip_all_unmentioned(entries[k], ids.to_set(), some);
}

/// Once pages have been taken out, none of them is among the pages any more. Every
/// other object is still there: one that does not refer to such a page is unchanged but
/// for a count, and so is every entry of a dictionary that does not.
pub proof fn kept_pages_survive(
    before: DocView,
    after: DocView,
    numbers: Seq<u32>,
    id: ObjectId,
    k: Seq<u8>,
)
    requires
        pages_taken_out(before, after, numbers),
    ensures
        ({
            let gone = numbered(pages_of_doc(before), numbers).to_set();
            &&& gone.contains(id) ==> !pages_of_doc(after).contains(id)
            &&& before.objects.dom().contains(id) && !gone.contains(id) ==> {
                &&& after.objects.dom().contains(id)
                &&& !mentions(before.objects[id], gone) ==> same_but_count(
                    before.objects[id],
                    after.objects[id],
                )
                &&& before.objects[id] matches PdfValue::Dictionary(entries)
                    ==> entries.dom().contains(k) && k != key("Count"@) && !mentions(
                    entries[k],
                    gone,
                ) ==> after.objects[id] is Dictionary && after.objects[id]->Dictionary_0.dom().contains(
                    k,
                ) && after.objects[id]->Dictionary_0[k] == entries[k]
            }
        }),
{
    let ids = numbered(pages_of_doc(before), numbers);
    let gone = ids.to_set();
    if gone.contains(id) && pages_of_doc(after).contains(id) {
        let i = choose|i: int| 0 <= i < pages_of_doc(after).len() && pages_of_doc(after)[i] == id;
        assert(leads_to_dict(after.objects, pages_of_doc(after)[i]));
    }
    if before.objects.dom().contains(id) && !gone.contains(id) {
        assert(after.objects.dom().contains(id));
        if !mentions(before.objects[id], gone) {
            lemma_unmentioned_survives(before.objects[id], after.objects[id], ids);
        }
        if let PdfValue::Dictionary(entries) = before.objects[id] {
            if entries.dom().contains(k) && k != key("Count"@) && !mentions(entries[k], gone) {
                lemma_entry_survives(entries, after.objects[id], ids, k);
            }
        }
    }
}

/// Once pages have been taken out, every entry of the trailer is still there, and one
/// that does not refer to such a page is unchanged. So what the trailer names, such as
/// the metadata and the identifier, is named as before.
pub proof fn trailer_survives(before: DocView, after: DocView, numbers: Seq<u32>, k: Seq<u8>)
    requires
        pages_taken_out(before, after, numbers),
    ensures
        after.trailer.dom() == before.trailer.dom(),
        before.trailer.dom().contains(k) && (before.trailer[k] is Reference || !mentions(
            before.trailer[k],
            numbered(pages_of_doc(before), numbers).to_set(),
        )) ==> after.trailer[k] == before.trailer[k],
{
    let ids = numbered(pages_of_doc(before), numbers);
    if before.trailer.dom().contains(k) {
        if before.trailer[k] is Reference {
            lemma_strip_keeps_kind(before.trailer[k], ids);
        } else if !mentions(before.trailer[k], ids.to_set()) {
            lemma_strip_all_unmentioned(before.trailer[k], ids.to_set(), ids);
        }
    }
}

/// A change that leaves the type and the kids of every object as they were, and puts
/// nothing where an item of `Kids` names nothing, leaves the page tree as it was.
pub(crate) proof fn lemma_same_branch(
    before: Map<ObjectId, PdfValue>,
    after: Map<ObjectId, PdfValue>,
    kid: PdfValue,
    depth: nat,
)
    requires
        same_nodes(before, after),
        branch(before, kid, depth) is Some,
        missing_stay(before, after, branch(before, kid, depth)->Some_0.others),
    ensures
        branch(after, kid, depth) == branch(before, kid, depth),
    decreases depth, 0nat,
{
    if kid is Reference {
        let id = kid->Reference_0;
        let b = branch(before, kid, depth)->Some_0;
        if before.dom().contains(id) {
            if let PdfValue::Dictionary(dict) = before[id] {
                if !type_is(dict, "Page"@) && type_is(dict, "Pages"@) && entry(
                    dict,
                    key("Kids"@),
                ) is Array {
                    lemma_same_branches(
                        before,
                        after,
                        entry(dict, key("Kids"@))->Array_0,
                        (depth - 1) as nat,
                    );
                }
            }
        } else {
            assert(b.others[0] == kid);
        }
    }
}

/// Every object is still there: a dictionary with the entries that make up a page tree,
/// and anything else but a reference as something else.
pub open spec fn same_nodes(
    before: Map<ObjectId, PdfValue>,
    after: Map<ObjectId, PdfValue>,
) -> bool {
    forall|id: ObjectId| #[trigger]
        before.dom().contains(id) ==> after.dom().contains(id) && match before[id] {
            PdfValue::Dictionary(dict) => after[id] is Dictionary && same_tree_entries(
                dict,
                after[id]->Dictionary_0,
            ),
            PdfValue::Reference(_) => true,
            _ => !(after[id] is Dictionary) && !(after[id] is Reference),
        }
}

/// Those of the items that name nothing still do.
pub open spec fn missing_stay(
    before: Map<ObjectId, PdfValue>,
    after: Map<ObjectId, PdfValue>,
    items: Seq<PdfValue>,
) -> bool {
    forall|i: int|
        0 <= i < items.len() && (#[trigger] items[i]) is Reference && !before.dom().contains(
            items[i]->Reference_0,
        ) ==> !after.dom().contains(items[i]->Reference_0)
}

/// The entries of two dictionaries that make up a page tree are the same.
pub open spec fn same_tree_entries(
    a: Map<Seq<u8>, PdfValue>,
    b: Map<Seq<u8>, PdfValue>,
) -> bool {
    &&& entry(a, key("Type"@)) == entry(b, key("Type"@))
    &&& entry(a, key("Kids"@)) == entry(b, key("Kids"@))
    &&& entry(a, key("Pages"@)) == entry(b, key("Pages"@))
}

proof fn lemma_same_branches(
    before: Map<ObjectId, PdfValue>,
    after: Map<ObjectId, PdfValue>,
    kids: Seq<PdfValue>,
    depth: nat,
)
    requires
        same_nodes(before, after),
        branches(before, kids, depth) is Some,
        missing_stay(before, after, branches(before, kids, depth)->Some_0.others),
    ensures
        branches(after, kids, depth) == branches(before, kids, depth),
    decreases depth, kids.len(),
{
    if kids.len() > 0 {
        let front = branches(before, kids.drop_last(), depth)->Some_0;
        let last = branch(before, kids.last(), depth)->Some_0;
        let all = front.others + last.others;
        assert forall|i: int|
            0 <= i < front.others.len() && (#[trigger] front.others[i]) is Reference
                && !before.dom().contains(front.others[i]->Reference_0) implies !after.dom().contains(
            front.others[i]->Reference_0,
        ) by {
            assert(all[i] == front.others[i]);
        }
        assert forall|i: int|
            0 <= i < last.others.len() && (#[trigger] last.others[i]) is Reference
                && !before.dom().contains(last.others[i]->Reference_0) implies !after.dom().contains(
            last.others[i]->Reference_0,
        ) by {
            assert(all[front.others.len() + i] == last.others[i]);
        }
        lemma_same_branches(before, after, kids.drop_last(), depth);
        lemma_same_branch(before, after, kids.last(), depth);
    }
}

pub(crate) proof fn lemma_same_tree(
    trailer: Map<Seq<u8>, PdfValue>,
    before: Map<ObjectId, PdfValue>,
    after: Map<ObjectId, PdfValue>,
)
    requires
        same_nodes(before, after),
        tree_of(trailer, before) is Some,
        missing_stay(before, after, tree_of(trailer, before)->Some_0.below.others),
    ensures
        tree_of(trailer, after) == tree_of(trailer, before),
{
    let tree = tree_of(trailer, before)->Some_0;
    assert(before.dom().contains(tree.catalog) && before.dom().contains(tree.root));
    lemma_same_branches(before, after, kids_of(before, tree.root)->Some_0, 256);
    let n = tree.below.others.len();
    let spare = choose|spare: Seq<ObjectId>|
        spare.len() == n && #[trigger] are_spare(before, tree.below.nodes, spare);
    assert(are_spare(after, tree.below.nodes, spare));
}

} // verus!
