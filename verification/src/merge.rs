//! Folding redactions, or pending marks, that overlap into one rectangle, so
//! that an area marked several times looks like one marked once.

use vstd::prelude::*;

use crate::geom::{
    intersection_area, overlap, overlap_is_symmetric, union_covers_both, union_of, union_rect, Rect,
};
use crate::overlay::{overlay_views, overlays_bounded, overlays_wf, Overlay, OverlayView};

verus! {

/// The overlays that are plain rectangles.
#[derive(Clone, Copy, Debug, PartialEq, Eq, Structural)]
pub enum RectKind {
    Redact,
    PendingMark,
}

/// The rectangle of an overlay of that kind.
pub open spec fn rect_of(o: OverlayView, kind: RectKind) -> Option<Rect> {
    match (o, kind) {
        (OverlayView::Redact { x, y, w, h }, RectKind::Redact) => Some(
            Rect { x: x as i64, y: y as i64, w: w as i64, h: h as i64 },
        ),
        (OverlayView::PendingMark { x, y, w, h }, RectKind::PendingMark) => Some(
            Rect { x: x as i64, y: y as i64, w: w as i64, h: h as i64 },
        ),
        _ => None,
    }
}

/// The overlay of that kind with the given rectangle.
pub open spec fn of_kind(kind: RectKind, r: Rect) -> OverlayView {
    match kind {
        RectKind::Redact => OverlayView::Redact {
            x: r.x as int,
            y: r.y as int,
            w: r.w as int,
            h: r.h as int,
        },
        RectKind::PendingMark => OverlayView::PendingMark {
            x: r.x as int,
            y: r.y as int,
            w: r.w as int,
            h: r.h as int,
        },
    }
}

/// The rectangles of the overlays of that kind, in order.
pub open spec fn rects_of(overlays: Seq<OverlayView>, kind: RectKind) -> Seq<Rect>
    decreases overlays.len(),
{
    if overlays.len() == 0 {
        seq![]
    } else {
        let front = rects_of(overlays.drop_last(), kind);
        match rect_of(overlays.last(), kind) {
            Some(r) => front.push(r),
            None => front,
        }
    }
}

/// The overlays of any other kind, in order.
pub open spec fn others_of(overlays: Seq<OverlayView>, kind: RectKind) -> Seq<OverlayView>
    decreases overlays.len(),
{
    if overlays.len() == 0 {
        seq![]
    } else {
        let front = others_of(overlays.drop_last(), kind);
        if rect_of(overlays.last(), kind) is Some {
            front
        } else {
            front.push(overlays.last())
        }
    }
}

/// The pair of positions `i < j` comes before every other overlapping pair.
pub open spec fn first_overlap(s: Seq<Rect>, i: int, j: int) -> bool {
    &&& 0 <= i < j < s.len()
    &&& overlap(s[i], s[j])
    &&& forall|a: int, b: int|
        0 <= a < b < s.len() && (a < i || (a == i && b < j)) ==> !overlap(
            #[trigger] s[a],
            #[trigger] s[b],
        )
}

/// No two rectangles of the list share an area.
pub open spec fn apart(s: Seq<Rect>) -> bool {
    forall|a: int, b: int|
        0 <= a < s.len() && 0 <= b < s.len() && a != b ==> !overlap(#[trigger] s[a], #[trigger] s[b])
}

/// The pair replaced by its union, at the place of the earlier one.
pub open spec fn fold_pair(s: Seq<Rect>, i: int, j: int) -> Seq<Rect> {
    s.update(i, union_of(s[i], s[j])).remove(j)
}

/// Overlapping pairs folded, the first one first, until none is left.
pub open spec fn merged(s: Seq<Rect>) -> Seq<Rect>
    decreases s.len(),
{
    if exists|i: int, j: int| first_overlap(s, i, j) {
        let (i, j) = choose|i: int, j: int| first_overlap(s, i, j);
        if 0 <= j < s.len() {
            merged(fold_pair(s, i, j))
        } else {
            s
        }
    } else {
        s
    }
}

/// The overlays after merging one kind: the others in their order, then the
/// merged rectangles.
pub open spec fn merged_overlays(overlays: Seq<OverlayView>, kind: RectKind) -> Seq<OverlayView> {
    others_of(overlays, kind) + merged(rects_of(overlays, kind)).map_values(
        |r: Rect| of_kind(kind, r),
    )
}

proof fn lemma_first_overlap_exists(s: Seq<Rect>, i: int, j: int)
    requires
        0 <= i < j < s.len(),
        overlap(s[i], s[j]),
    ensures
        exists|a: int, b: int| first_overlap(s, a, b),
    decreases i, j,
{
    if exists|a: int, b: int|
        0 <= a < b < s.len() && (a < i || (a == i && b < j)) && overlap(
            #[trigger] s[a],
            #[trigger] s[b],
        ) {
        let (a, b) = choose|a: int, b: int|
            0 <= a < b < s.len() && (a < i || (a == i && b < j)) && overlap(
                #[trigger] s[a],
                #[trigger] s[b],
            );
        lemma_first_overlap_exists(s, a, b);
    } else {
        assert(first_overlap(s, i, j));
    }
}

proof fn lemma_no_first_overlap(s: Seq<Rect>)
    requires
        !(exists|a: int, b: int| first_overlap(s, a, b)),
    ensures
        apart(s),
{
    assert forall|a: int, b: int|
        0 <= a < s.len() && 0 <= b < s.len() && a != b implies !overlap(
        #[trigger] s[a],
        #[trigger] s[b],
    ) by {
        overlap_is_symmetric(s[a], s[b]);
        if overlap(s[a], s[b]) {
            if a < b {
                lemma_first_overlap_exists(s, a, b);
            } else {
                lemma_first_overlap_exists(s, b, a);
            }
        }
    }
}

proof fn lemma_first_overlap_unique(s: Seq<Rect>, i: int, j: int, a: int, b: int)
    requires
        first_overlap(s, i, j),
        first_overlap(s, a, b),
    ensures
        i == a,
        j == b,
{
}

proof fn lemma_merged_step(s: Seq<Rect>, i: int, j: int)
    requires
        first_overlap(s, i, j),
    ensures
        merged(s) == merged(fold_pair(s, i, j)),
        fold_pair(s, i, j).len() == s.len() - 1,
{
    let (a, b) = choose|a: int, b: int| first_overlap(s, a, b);
    lemma_first_overlap_unique(s, i, j, a, b);
}

/// After merging, no two rectangles share an area.
pub proof fn merged_are_apart(s: Seq<Rect>)
    ensures
        apart(merged(s)),
    decreases s.len(),
{
    if exists|i: int, j: int| first_overlap(s, i, j) {
        let (i, j) = choose|i: int, j: int| first_overlap(s, i, j);
        merged_are_apart(fold_pair(s, i, j));
    } else {
        lemma_no_first_overlap(s);
    }
}

/// Rectangles that share no area stay as they are: merging twice gives what
/// merging once gives.
pub proof fn merging_apart_changes_nothing(s: Seq<Rect>)
    requires
        apart(s),
    ensures
        merged(s) == s,
{
    if exists|i: int, j: int| first_overlap(s, i, j) {
        let (i, j) = choose|i: int, j: int| first_overlap(s, i, j);
        assert(overlap(s[i], s[j]));
    }
}

/// One of the rectangles of the list covers `r`.
pub open spec fn covered_in(r: Rect, s: Seq<Rect>) -> bool {
    exists|m: int| 0 <= m < s.len() && (#[trigger] s[m]).covers(r)
}

/// All corners of the rectangles are positions that the library works on.
pub open spec fn all_on_plane(s: Seq<Rect>) -> bool {
    forall|k: int| 0 <= k < s.len() ==> (#[trigger] s[k]).on_plane()
}

proof fn lemma_fold_fits(s: Seq<Rect>, i: int, j: int)
    requires
        all_on_plane(s),
        first_overlap(s, i, j),
    ensures
        all_on_plane(fold_pair(s, i, j)),
        union_of(s[i], s[j]).covers(s[i]),
        union_of(s[i], s[j]).covers(s[j]),
{
    let t = fold_pair(s, i, j);
    union_covers_both(s[i], s[j]);
    assert forall|a: int| 0 <= a < t.len() implies (#[trigger] t[a]).on_plane() by {
        assert(t[a] == if a == i {
            union_of(s[i], s[j])
        } else if a < j {
            s[a]
        } else {
            s[a + 1]
        });
    }
}

/// Nothing is lost: every rectangle is covered by one of the merged rectangles.
pub proof fn merged_cover_all(s: Seq<Rect>)
    requires
        all_on_plane(s),
    ensures
        all_on_plane(merged(s)),
        forall|k: int| 0 <= k < s.len() ==> covered_in(#[trigger] s[k], merged(s)),
    decreases s.len(),
{
    if exists|i: int, j: int| first_overlap(s, i, j) {
        let (i, j) = choose|i: int, j: int| first_overlap(s, i, j);
        let t = fold_pair(s, i, j);
        lemma_merged_step(s, i, j);
        lemma_fold_fits(s, i, j);
        merged_cover_all(t);
        assert forall|k: int| 0 <= k < s.len() implies covered_in(#[trigger] s[k], merged(s)) by {
            let p = if k == j {
                i
            } else if k < j {
                k
            } else {
                k - 1
            };
            assert(t[p].covers(s[k]));
            assert(covered_in(t[p], merged(t)));
            let m = choose|m: int|
                0 <= m < merged(t).len() && (#[trigger] merged(t)[m]).covers(t[p]);
            assert(merged(s)[m].covers(s[k]));
        }
    } else {
        assert(merged(s) == s);
        assert forall|k: int| 0 <= k < s.len() implies covered_in(#[trigger] s[k], merged(s)) by {
            assert(merged(s)[k].covers(s[k]));
        }
    }
}

/// One of the rectangles lies in `u` and reaches its left side.
pub open spec fn left_is_met(u: Rect, s: Seq<Rect>) -> bool {
    exists|k: int| 0 <= k < s.len() && u.covers(#[trigger] s[k]) && s[k].x == u.x
}

/// One of the rectangles lies in `u` and reaches its top.
pub open spec fn top_is_met(u: Rect, s: Seq<Rect>) -> bool {
    exists|k: int| 0 <= k < s.len() && u.covers(#[trigger] s[k]) && s[k].y == u.y
}

/// One of the rectangles lies in `u` and reaches its right side.
pub open spec fn right_is_met(u: Rect, s: Seq<Rect>) -> bool {
    exists|k: int| 0 <= k < s.len() && u.covers(#[trigger] s[k]) && s[k].right() == u.right()
}

/// One of the rectangles lies in `u` and reaches its bottom.
pub open spec fn bottom_is_met(u: Rect, s: Seq<Rect>) -> bool {
    exists|k: int| 0 <= k < s.len() && u.covers(#[trigger] s[k]) && s[k].bottom() == u.bottom()
}

/// `u` is the smallest rectangle around those of the list that lie in it.
pub open spec fn is_bounding_box(u: Rect, s: Seq<Rect>) -> bool {
    left_is_met(u, s) && top_is_met(u, s) && right_is_met(u, s) && bottom_is_met(u, s)
}

proof fn lemma_bounds_kept(u: Rect, a: Rect, s: Seq<Rect>)
    requires
        u.covers(a),
        is_bounding_box(a, s),
    ensures
        u.x == a.x ==> left_is_met(u, s),
        u.y == a.y ==> top_is_met(u, s),
        u.right() == a.right() ==> right_is_met(u, s),
        u.bottom() == a.bottom() ==> bottom_is_met(u, s),
{
    let l = choose|k: int| 0 <= k < s.len() && a.covers(#[trigger] s[k]) && s[k].x == a.x;
    let t = choose|k: int| 0 <= k < s.len() && a.covers(#[trigger] s[k]) && s[k].y == a.y;
    let r = choose|k: int|
        0 <= k < s.len() && a.covers(#[trigger] s[k]) && s[k].right() == a.right();
    let b = choose|k: int|
        0 <= k < s.len() && a.covers(#[trigger] s[k]) && s[k].bottom() == a.bottom();
    assert(u.covers(s[l]) && u.covers(s[t]) && u.covers(s[r]) && u.covers(s[b]));
}

proof fn lemma_merging_keeps_bounds(t: Seq<Rect>, s: Seq<Rect>)
    requires
        all_on_plane(t),
        forall|k: int| 0 <= k < t.len() ==> is_bounding_box(#[trigger] t[k], s),
    ensures
        forall|m: int| 0 <= m < merged(t).len() ==> is_bounding_box(#[trigger] merged(t)[m], s),
    decreases t.len(),
{
    if exists|i: int, j: int| first_overlap(t, i, j) {
        let (i, j) = choose|i: int, j: int| first_overlap(t, i, j);
        let f = fold_pair(t, i, j);
        lemma_merged_step(t, i, j);
        lemma_fold_fits(t, i, j);
        let u = union_of(t[i], t[j]);
        lemma_bounds_kept(u, t[i], s);
        lemma_bounds_kept(u, t[j], s);
        assert forall|k: int| 0 <= k < f.len() implies is_bounding_box(#[trigger] f[k], s) by {
            assert(f[k] == if k == i {
                u
            } else if k < j {
                t[k]
            } else {
                t[k + 1]
            });
        }
        lemma_merging_keeps_bounds(f, s);
    }
}

/// Nothing is invented: each merged rectangle is the smallest one around those of the
/// old rectangles that lie in it.
pub proof fn merged_are_bounding_boxes(s: Seq<Rect>)
    requires
        all_on_plane(s),
    ensures
        forall|m: int| 0 <= m < merged(s).len() ==> is_bounding_box(#[trigger] merged(s)[m], s),
{
    assert forall|k: int| 0 <= k < s.len() implies is_bounding_box(#[trigger] s[k], s) by {
        assert(s[k].covers(s[k]));
    }
    lemma_merging_keeps_bounds(s, s);
}

proof fn lemma_split_kinds(front: Seq<OverlayView>, rects: Seq<Rect>, kind: RectKind)
    requires
        forall|k: int| 0 <= k < front.len() ==> rect_of(#[trigger] front[k], kind) is None,
    ensures
        ({
            let all = front + rects.map_values(|r: Rect| of_kind(kind, r));
            &&& rects_of(all, kind) == rects
            &&& others_of(all, kind) == front
        }),
    decreases front.len() + rects.len(),
{
    let all = front + rects.map_values(|r: Rect| of_kind(kind, r));
    if rects.len() > 0 {
        lemma_split_kinds(front, rects.drop_last(), kind);
        assert(all.drop_last() =~= front + rects.drop_last().map_values(
            |r: Rect| of_kind(kind, r),
        ));
        assert(all.last() == of_kind(kind, rects.last()));
        assert(rect_of(all.last(), kind) == Some(rects.last()));
        assert(rects.drop_last().push(rects.last()) =~= rects);
    } else if front.len() > 0 {
        lemma_split_kinds(front.drop_last(), rects, kind);
        assert(all =~= front);
        assert(all.drop_last() =~= front.drop_last() + rects.map_values(
            |r: Rect| of_kind(kind, r),
        ));
        assert(front.drop_last().push(front.last()) =~= front);
        assert(rects_of(all, kind) =~= rects);
    } else {
        assert(all =~= seq![]);
        assert(rects =~= seq![]);
        assert(front =~= seq![]);
    }
}

pub(crate) proof fn lemma_others_not_of_kind(overlays: Seq<OverlayView>, kind: RectKind)
    ensures
        forall|k: int|
            0 <= k < others_of(overlays, kind).len() ==> rect_of(
                #[trigger] others_of(overlays, kind)[k],
                kind,
            ) is None,
    decreases overlays.len(),
{
    if overlays.len() > 0 {
        lemma_others_not_of_kind(overlays.drop_last(), kind);
    }
}

/// Merging leaves no two overlays of the kind with a common area, keeps the
/// other overlays in their order, and a second merge changes nothing.
pub proof fn merge_settles(overlays: Seq<OverlayView>, kind: RectKind)
    ensures
        apart(rects_of(merged_overlays(overlays, kind), kind)),
        others_of(merged_overlays(overlays, kind), kind) == others_of(overlays, kind),
        merged_overlays(merged_overlays(overlays, kind), kind) == merged_overlays(overlays, kind),
{
    let rects = merged(rects_of(overlays, kind));
    lemma_others_not_of_kind(overlays, kind);
    lemma_split_kinds(others_of(overlays, kind), rects, kind);
    merged_are_apart(rects_of(overlays, kind));
    merging_apart_changes_nothing(rects);
}

/// The first overlapping pair, if there is one.
fn find_overlap(rects: &Vec<Rect>) -> (r: Option<(usize, usize)>)
    requires
        forall|k: int| 0 <= k < rects.len() ==> (#[trigger] rects[k]).wf(),
    ensures
        r matches Some((i, j)) ==> first_overlap(rects@, i as int, j as int),
        r is None ==> !(exists|i: int, j: int| first_overlap(rects@, i, j)),
{
    let n = rects.len();
    let mut i: usize = 0;
    while i < n
        invariant
            n == rects.len(),
            i <= n,
            forall|k: int| 0 <= k < rects.len() ==> (#[trigger] rects[k]).wf(),
            forall|a: int, b: int|
                0 <= a < i && a < b < n ==> !overlap(#[trigger] rects[a], #[trigger] rects[b]),
        decreases n - i,
    {
        let mut j: usize = i + 1;
        while j < n
            invariant
                n == rects.len(),
                i < j <= n,
                forall|k: int| 0 <= k < rects.len() ==> (#[trigger] rects[k]).wf(),
                forall|a: int, b: int|
                    0 <= a < i && a < b < n ==> !overlap(#[trigger] rects[a], #[trigger] rects[b]),
                forall|b: int| i < b < j ==> !overlap(rects[i as int], #[trigger] rects[b]),
            decreases n - j,
        {
            if intersection_area(rects[i], rects[j]) > 0 {
                return Some((i, j));
            }
            j += 1;
        }
        i += 1;
    }
    None
}

/// Fold overlapping rectangles until no two of them share an area.
fn merge_rects(rects: &mut Vec<Rect>)
    requires
        forall|k: int| 0 <= k < old(rects).len() ==> (#[trigger] old(rects)[k]).on_plane(),
    ensures
        final(rects)@ == merged(old(rects)@),
        forall|k: int| 0 <= k < final(rects).len() ==> (#[trigger] final(rects)[k]).on_plane(),
{
    loop
        invariant
            merged(rects@) == merged(old(rects)@),
            forall|k: int| 0 <= k < rects.len() ==> (#[trigger] rects[k]).on_plane(),
        ensures
            rects@ == merged(old(rects)@),
        decreases rects.len(),
    {
        let ghost before = rects@;
        match find_overlap(rects) {
            Some((i, j)) => {
                proof {
                    lemma_merged_step(before, i as int, j as int);
                }
                let u = union_rect(rects[i], rects[j]);
                rects[i] = u;
                rects.remove(j);
                assert(rects@ == fold_pair(before, i as int, j as int));
                assert forall|k: int| 0 <= k < rects.len() implies (#[trigger] rects[k]).on_plane() by {
                    assert(rects[k] == if k == i {
                        u
                    } else if k < j {
                        before[k]
                    } else {
                        before[k + 1]
                    });
                }
            },
            None => {
                break;
            },
        }
    }
}

fn rect_of_kind(o: &Overlay, kind: RectKind) -> (r: Option<Rect>)
    requires
        o@.bounded(),
    ensures
        r == rect_of(o@, kind),
        r matches Some(q) ==> q.on_plane(),
{
    match (o, kind) {
        (Overlay::Redact { x, y, w, h }, RectKind::Redact) => Some(
            Rect { x: *x, y: *y, w: *w, h: *h },
        ),
        (Overlay::PendingMark { x, y, w, h }, RectKind::PendingMark) => Some(
            Rect { x: *x, y: *y, w: *w, h: *h },
        ),
        _ => None,
    }
}

fn overlay_of_kind(kind: RectKind, r: Rect) -> (o: Overlay)
    ensures
        o@ == of_kind(kind, r),
{
    match kind {
        RectKind::Redact => Overlay::Redact { x: r.x, y: r.y, w: r.w, h: r.h },
        RectKind::PendingMark => Overlay::PendingMark { x: r.x, y: r.y, w: r.w, h: r.h },
    }
}

/// Fold the overlays of one kind that share an area into union rectangles.
/// The other overlays keep their order and come first.
pub fn merge_overlapping(overlays: &mut Vec<Overlay>, kind: RectKind)
    requires
        overlays_bounded(overlay_views(old(overlays)@)),
    ensures
        overlay_views(final(overlays)@) == merged_overlays(overlay_views(old(overlays)@), kind),
        overlays_bounded(overlay_views(final(overlays)@)),
        overlays_wf(overlay_views(old(overlays)@)) ==> overlays_wf(overlay_views(final(overlays)@)),
{
    let ghost all = overlay_views(overlays@);
    let mut rects: Vec<Rect> = Vec::new();
    let mut i: usize = 0;
    assert(all.take(0) =~= seq![]);
    while i < overlays.len()
        invariant
            overlays_bounded(all),
            i <= overlays.len(),
            overlays.len() + rects.len() == all.len(),
            rects@ == rects_of(all.take(i + rects.len()), kind),
            overlay_views(overlays@).take(i as int) == others_of(all.take(i + rects.len()), kind),
            overlay_views(overlays@).skip(i as int) == all.skip(i + rects.len()),
            forall|k: int| 0 <= k < rects.len() ==> (#[trigger] rects[k]).on_plane(),
        decreases overlays.len() - i,
    {
        let ghost views = overlay_views(overlays@);
        let ghost k = i + rects.len();
        assert(overlays[i as int]@ == views.skip(i as int)[0]);
        assert(overlays[i as int]@ == all[k]);
        assert(all.take(k + 1).drop_last() =~= all.take(k));
        match rect_of_kind(&overlays[i], kind) {
            Some(r) => {
                rects.push(r);
                overlays.remove(i);
                assert(overlay_views(overlays@) =~= views.remove(i as int));
                assert(views.remove(i as int).take(i as int) =~= views.take(i as int));
                assert(views.remove(i as int).skip(i as int) =~= views.skip(i as int).skip(1));
                assert(all.skip(k).skip(1) =~= all.skip(k + 1));
            },
            None => {
                i += 1;
                assert(views.take(i as int) =~= views.take(i - 1).push(views[i - 1]));
                assert(views.skip(i as int) =~= views.skip(i - 1).skip(1));
                assert(all.skip(k).skip(1) =~= all.skip(k + 1));
            },
        }
    }
    assert(all.take(all.len() as int) =~= all);
    assert(overlay_views(overlays@).take(i as int) =~= overlay_views(overlays@));
    merge_rects(&mut rects);
    let ghost front = overlay_views(overlays@);
    let ghost made = rects@.map_values(|r: Rect| of_kind(kind, r));
    proof {
        lemma_others_bounded(all, kind);
        if overlays_wf(all) {
            lemma_others_wf(all, kind);
        }
    }
    let n = rects.len();
    let mut j: usize = 0;
    assert(front + made.take(0) =~= front);
    while j < n
        invariant
            n == rects.len(),
            j <= n,
            made == rects@.map_values(|r: Rect| of_kind(kind, r)),
            overlay_views(overlays@) == front + made.take(j as int),
            overlays_bounded(overlay_views(overlays@)),
            overlays_wf(all) ==> overlays_wf(overlay_views(overlays@)),
            forall|k: int| 0 <= k < rects.len() ==> (#[trigger] rects[k]).on_plane(),
        decreases n - j,
    {
        let ghost before = overlay_views(overlays@);
        let o = overlay_of_kind(kind, rects[j]);
        overlays.push(o);
        assert(overlay_views(overlays@) =~= before.push(o@));
        assert(front + made.take(j + 1) =~= (front + made.take(j as int)).push(made[j as int]));
        j += 1;
    }
    assert(made.take(n as int) =~= made);
}

pub(crate) proof fn lemma_others_wf(overlays: Seq<OverlayView>, kind: RectKind)
    requires
        overlays_wf(overlays),
    ensures
        overlays_wf(others_of(overlays, kind)),
    decreases overlays.len(),
{
    if overlays.len() > 0 {
        assert(overlays_wf(overlays.drop_last()));
        lemma_others_wf(overlays.drop_last(), kind);
        assert(overlays.last().wf());
    }
}

proof fn lemma_others_bounded(overlays: Seq<OverlayView>, kind: RectKind)
    requires
        overlays_bounded(overlays),
    ensures
        overlays_bounded(others_of(overlays, kind)),
    decreases overlays.len(),
{
    if overlays.len() > 0 {
        assert(overlays_bounded(overlays.drop_last()));
        lemma_others_bounded(overlays.drop_last(), kind);
        assert(overlays.last().bounded());
    }
}

/// Fold overlapping redactions.
pub fn merge_overlapping_redacts(overlays: &mut Vec<Overlay>)
    requires
        overlays_bounded(overlay_views(old(overlays)@)),
    ensures
        overlay_views(final(overlays)@) == merged_overlays(
            overlay_views(old(overlays)@),
            RectKind::Redact,
        ),
        overlays_bounded(overlay_views(final(overlays)@)),
        overlays_wf(overlay_views(old(overlays)@)) ==> overlays_wf(overlay_views(final(overlays)@)),
{
    merge_overlapping(overlays, RectKind::Redact);
}

/// Fold overlapping pending marks.
pub fn merge_overlapping_marks(overlays: &mut Vec<Overlay>)
    requires
        overlays_bounded(overlay_views(old(overlays)@)),
    ensures
        overlay_views(final(overlays)@) == merged_overlays(
            overlay_views(old(overlays)@),
            RectKind::PendingMark,
        ),
        overlays_bounded(overlay_views(final(overlays)@)),
        overlays_wf(overlay_views(old(overlays)@)) ==> overlays_wf(overlay_views(final(overlays)@)),
{
    merge_overlapping(overlays, RectKind::PendingMark);
}

} // verus!
