//! Rounding, turns, merging and stretches of text, by their numbers.

use vstd::prelude::*;
use vstd::utf8::encode_utf8;

use crate::geom::{overlap, to_displayed, to_media_box, union_of, Corners, Rect};
use crate::laws::written::same_place;
use crate::merge::{all_on_plane, first_overlap, fold_pair, merged};
use crate::text::{sections_of, Section};
use crate::units::{limited, rounded, rounded_is_nearest, COORD_LIMIT};

verus! {

// ---------------------------------------------------------------------------
// Numbers
// ---------------------------------------------------------------------------

/// A quotient halfway between two whole numbers is rounded away from zero, and a negative
/// one as the positive one is.
pub proof fn halves_are_rounded_away_from_zero(k: int, den: int, num: int)
    requires
        den > 0,
    ensures
        k >= 0 && 2 * num == (2 * k + 1) * den ==> rounded(num, den) == k + 1,
        rounded(-num, den) == -rounded(num, den),
        rounded(k * den, den) == k,
{
    rounded_is_nearest(num, den);
    rounded_is_nearest(k * den, den);
    let r = rounded(k * den, den);
    assert(r == k) by (nonlinear_arith)
        requires
            -den <= 2 * (r * den - k * den) <= den,
            den > 0,
    ;
    if k >= 0 && 2 * num == (2 * k + 1) * den {
        assert(num >= 0) by (nonlinear_arith)
            requires
                2 * num == (2 * k + 1) * den,
                k >= 0,
                den > 0,
        ;
        assert(2 * num + den == (k + 1) * (2 * den)) by (nonlinear_arith)
            requires
                2 * num == (2 * k + 1) * den,
        ;
        vstd::arithmetic::div_mod::lemma_fundamental_div_mod_converse(
            2 * num + den,
            2 * den,
            k + 1,
            0,
        );
    }
    if num == 0 {
        assert(rounded(0, den) == 0) by {
            vstd::arithmetic::div_mod::lemma_fundamental_div_mod_converse(den, 2 * den, 0, den);
        }
    }
}

/// What is in range stays as it is; what is not becomes the nearest value that is.
pub proof fn limits_change_only_what_is_beyond(v: int)
    ensures
        -COORD_LIMIT <= v <= COORD_LIMIT ==> limited(v) == v,
        v > COORD_LIMIT ==> limited(v) == COORD_LIMIT,
        v < -COORD_LIMIT ==> limited(v) == -COORD_LIMIT,
{
}

// ---------------------------------------------------------------------------
// Turns
// ---------------------------------------------------------------------------

/// A rectangle of the displayed page and its rectangle of the page before the turn are the
/// same place, either way, for each of the four turns.
pub proof fn frames_are_the_same_place(turn: int, size: (i64, i64), r: Corners)
    requires
        turn == 0 || turn == 90 || turn == 180 || turn == 270,
        r.w >= 0,
        r.h >= 0,
    ensures
        ({
            let on_side = turn == 90 || turn == 270;
            let mb_w = if on_side {
                size.1 as int
            } else {
                size.0 as int
            };
            let mb_h = if on_side {
                size.0 as int
            } else {
                size.1 as int
            };
            let m = to_media_box(turn, mb_w, mb_h, r);
            let d = to_displayed(turn, mb_w, mb_h, r);
            &&& same_place(turn, size, m.x, m.y, m.w, m.h, r.x, r.y, r.w, r.h)
            &&& same_place(turn, size, r.x, r.y, r.w, r.h, d.x, d.y, d.w, d.h)
        }),
{
}

/// Full turns more or less make no difference, and a turn that is not a quarter is none.
pub proof fn full_turns_make_no_difference(turn: int, mb_w: int, mb_h: int, r: Corners)
    ensures
        to_media_box(turn + 360, mb_w, mb_h, r) == to_media_box(turn, mb_w, mb_h, r),
        to_displayed(turn + 360, mb_w, mb_h, r) == to_displayed(turn, mb_w, mb_h, r),
        turn % 90 != 0 ==> to_media_box(turn, mb_w, mb_h, r) == to_media_box(0, mb_w, mb_h, r),
        turn % 90 != 0 ==> to_displayed(turn, mb_w, mb_h, r) == to_displayed(0, mb_w, mb_h, r),
{
}

// ---------------------------------------------------------------------------
// Merging
// ---------------------------------------------------------------------------

/// A rectangle has another in it.
pub open spec fn holds(a: Rect, b: Rect) -> bool {
    a.x <= b.x && a.y <= b.y && b.x + b.w <= a.x + a.w && b.y + b.h <= a.y + a.h
}

/// Each of the rectangles lies in one of the others.
pub open spec fn held_by(s: Seq<Rect>, t: Seq<Rect>) -> bool {
    forall|k: int|
        0 <= k < s.len() ==> exists|j: int| 0 <= j < t.len() && holds(t[j], #[trigger] s[k])
}

/// Two rectangles share no area.
pub open spec fn no_common_area(a: Rect, b: Rect) -> bool {
    !(a.w > 0 && a.h > 0 && b.w > 0 && b.h > 0 && a.x < b.x + b.w && b.x < a.x + a.w && a.y < b.y
        + b.h && b.y < a.y + a.h)
}

/// Merging joins no more than it has to: whatever rectangles without a common area hold
/// those that are merged, they hold the merged ones too. So rectangles that no chain of
/// overlaps connects are not joined.
pub proof fn merging_joins_no_more_than_it_has_to(s: Seq<Rect>, t: Seq<Rect>)
    requires
        all_on_plane(s),
        all_on_plane(t),
        held_by(s, t),
        forall|a: int, b: int|
            0 <= a < t.len() && 0 <= b < t.len() && a != b ==> no_common_area(
                #[trigger] t[a],
                #[trigger] t[b],
            ),
    ensures
        held_by(merged(s), t),
    decreases s.len(),
{
    if exists|i: int, j: int| first_overlap(s, i, j) {
        let (i, j) = choose|i: int, j: int| first_overlap(s, i, j);
        let f = fold_pair(s, i, j);
        let u = union_of(s[i], s[j]);
        assert(overlap(s[i], s[j]));
        let a = choose|a: int| 0 <= a < t.len() && holds(t[a], s[i]);
        let b = choose|b: int| 0 <= b < t.len() && holds(t[b], s[j]);
        assert(s[i].on_plane() && s[j].on_plane());
        if a != b {
            assert(no_common_area(t[a], t[b]));
            assert(t[a].on_plane() && t[b].on_plane());
            assert(false);
        }
        crate::geom::union_covers_both(s[i], s[j]);
        assert(holds(t[a], u));
        assert forall|k: int| 0 <= k < f.len() implies exists|m: int|
            0 <= m < t.len() && holds(t[m], #[trigger] f[k]) by {
            if k == i {
                assert(f[k] == u);
            } else {
                let p = if k < j {
                    k
                } else {
                    k + 1
                };
                assert(f[k] == s[p]);
                let m = choose|m: int| 0 <= m < t.len() && holds(t[m], s[p]);
                assert(holds(t[m], f[k]));
            }
        }
        assert(all_on_plane(f)) by {
            assert forall|k: int| 0 <= k < f.len() implies (#[trigger] f[k]).on_plane() by {
                assert(f[k] == if k == i {
                    u
                } else if k < j {
                    s[k]
                } else {
                    s[k + 1]
                });
            }
        }
        merging_joins_no_more_than_it_has_to(f, t);
    }
}

// ---------------------------------------------------------------------------
// Stretches of text
// ---------------------------------------------------------------------------

/// A selected stretch of a text is painted as one section of its bytes, from the byte where
/// its first character begins to the byte where its last one ends, and everything else is
/// not painted as selected.
pub proof fn selected_characters_are_painted(s: Seq<char>, lo: usize, hi: usize, i: int)
    requires
        lo < hi <= s.len(),
        encode_utf8(s).len() <= usize::MAX,
        0 <= i < sections_of(s, Some((lo, hi))).len(),
    ensures
        ({
            let from = encode_utf8(s.take(lo as int)).len();
            let to = encode_utf8(s.take(hi as int)).len();
            let part = sections_of(s, Some((lo, hi)))[i];
            &&& part.selected ==> part.start == from && part.end == to
            &&& !part.selected ==> part.end <= from || part.start >= to
            &&& exists|k: int|
                0 <= k < sections_of(s, Some((lo, hi))).len() && (
                #[trigger] sections_of(s, Some((lo, hi)))[k]).selected
        }),
{
    assert(s.take(s.len() as int) =~= s);
    crate::text::byte_offsets_increase(s, lo as int, hi as int);
    crate::text::byte_offsets_increase(s, 0, lo as int);
    let from = encode_utf8(s.take(lo as int)).len();
    let to = encode_utf8(s.take(hi as int)).len();
    let before: Seq<Section> = if from > 0 {
        seq![Section { start: 0, end: from as usize, selected: false }]
    } else {
        seq![]
    };
    let k = before.len() as int;
    assert(sections_of(s, Some((lo, hi)))[k].selected);
}

/// A text without a selection is painted as one section.
pub proof fn unselected_text_is_painted_whole(s: Seq<char>)
    requires
        encode_utf8(s).len() <= usize::MAX,
    ensures
        sections_of(s, None) == seq![
            Section { start: 0, end: encode_utf8(s).len() as usize, selected: false },
        ],
{
}

} // verus!
