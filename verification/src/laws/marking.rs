//! Which words a selection marks, and what a word is, by coordinates.

use vstd::prelude::*;

use crate::geom::{matched, PageFrame, Rect};
use crate::laws::written::same_place;
use crate::words::{
    glyph_box, glyph_wf, frame_wf, is_blank, marks_of, read_all, words_of, Glyph, Sides,
};

verus! {

/// A word is marked where the point in the middle of it, both across and down, lies in
/// the selection, or that in the middle of the selection lies in the word, and the two
/// share an area. What is marked is what they share. In any other case nothing is.
pub proof fn word_is_marked_by_its_middle(word: Rect, sel: Rect)
    requires
        word.wf(),
        sel.wf(),
    ensures
        ({
            let word_across = 2 * sel.x <= 2 * word.x + word.w <= 2 * (sel.x + sel.w);
            let word_down = 2 * sel.y <= 2 * word.y + word.h <= 2 * (sel.y + sel.h);
            let sel_across = 2 * word.x <= 2 * sel.x + sel.w <= 2 * (word.x + word.w);
            let sel_down = 2 * word.y <= 2 * sel.y + sel.h <= 2 * (word.y + word.h);
            let share = word.w > 0 && word.h > 0 && sel.w > 0 && sel.h > 0 && word.x < sel.x
                + sel.w && sel.x < word.x + word.w && word.y < sel.y + sel.h && sel.y < word.y
                + word.h;
            &&& matched(word, sel) is Some <==> ((word_across && word_down) || (sel_across
                && sel_down)) && share
            &&& matched(word, sel) matches Some(m) ==> {
                &&& m.x >= word.x && m.x >= sel.x && (m.x == word.x || m.x == sel.x)
                &&& m.y >= word.y && m.y >= sel.y && (m.y == word.y || m.y == sel.y)
                &&& m.x + m.w <= word.x + word.w && m.x + m.w <= sel.x + sel.w && (m.x + m.w
                    == word.x + word.w || m.x + m.w == sel.x + sel.w)
                &&& m.y + m.h <= word.y + word.h && m.y + m.h <= sel.y + sel.h && (m.y + m.h
                    == word.y + word.h || m.y + m.h == sel.y + sel.h)
            }
        }),
{
}

/// The marks that a selection leaves are those of the words one by one, in their order;
/// a word more adds its own mark, where it has one, and changes no other.
pub proof fn words_are_marked_one_by_one(words: Seq<Rect>, next: Rect, sel: Rect)
    ensures
        marks_of(words.push(next), sel) == match matched(next, sel) {
            Some(m) => marks_of(words, sel).push(m),
            None => marks_of(words, sel),
        },
        marks_of(Seq::<Rect>::empty(), sel) == Seq::<Rect>::empty(),
{
    assert(words.push(next).drop_last() =~= words);
}

/// The extents of a page before its turn, given as it is displayed.
pub open spec fn unturned(frame: PageFrame, size: (i64, i64)) -> bool {
    if frame.rotate == 90 || frame.rotate == 270 {
        frame.mb_w == size.1 && frame.mb_h == size.0
    } else {
        frame.mb_w == size.0 && frame.mb_h == size.1
    }
}

/// The box of a glyph is the rectangle that its bounds are displayed as, for each of the
/// four turns of a page. A glyph without an extent has none.
pub proof fn glyph_lies_where_it_is_shown(g: Glyph, frame: PageFrame, size: (i64, i64))
    requires
        unturned(frame, size),
        frame.rotate == 0 || frame.rotate == 90 || frame.rotate == 180 || frame.rotate == 270,
    ensures
        glyph_box(g, frame) is Some <==> (g.bounds matches Some(r) && r.w > 0 && r.h > 0),
        glyph_box(g, frame) matches Some(b) ==> ({
            let r = g.bounds->Some_0;
            same_place(
                frame.rotate as int,
                size,
                r.x as int,
                r.y as int,
                r.w as int,
                r.h as int,
                b.left,
                b.top,
                b.right - b.left,
                b.bottom - b.top,
            )
        }),
{
}

/// A glyph of a blank, a tab or a line break.
pub open spec fn plain_blank(g: Glyph) -> bool {
    g.ch == Some(' ') || g.ch == Some('\t') || g.ch == Some('\n') || g.ch == Some('\r')
}

/// A glyph that can be seen, with its box.
pub open spec fn visible(g: Glyph, frame: PageFrame, b: Sides) -> bool {
    &&& g.ch is None || (g.ch->Some_0 as int > 32 && (g.ch->Some_0 as int) < 127)
    &&& glyph_box(g, frame) == Some(b)
}

/// Two glyphs that follow each other are of one word where neither the top nor the bottom
/// of the second is further from that of the first than half the height of the first;
/// the word is the smallest rectangle around both. Otherwise, and wherever a blank stands
/// between them, they are of two words.
pub proof fn neighbours_make_a_word(a: Glyph, b: Glyph, gap: Glyph, frame: PageFrame, p: Sides, q: Sides)
    requires
        glyph_wf(a),
        glyph_wf(b),
        frame_wf(frame),
        visible(a, frame, p),
        visible(b, frame, q),
        plain_blank(gap),
    ensures
        ({
            let high = p.bottom - p.top;
            let near = -high <= 2 * (q.top - p.top) <= high && -high <= 2 * (q.bottom - p.bottom)
                <= high;
            &&& near ==> words_of(seq![a, b], frame).len() == 1
                && is_around(words_of(seq![a, b], frame)[0], p, q)
            &&& !near ==> words_of(seq![a, b], frame) == seq![rect_of_sides(p), rect_of_sides(q)]
            &&& words_of(seq![a, gap, b], frame) == seq![rect_of_sides(p), rect_of_sides(q)]
            &&& words_of(seq![a], frame) == seq![rect_of_sides(p)]
        }),
{
    reveal_with_fuel(read_all, 4);
    assert(seq![a].drop_last() =~= Seq::<Glyph>::empty());
    assert(seq![a, b].drop_last() =~= seq![a]);
    assert(seq![a, gap].drop_last() =~= seq![a]);
    assert(seq![a, gap, b].drop_last() =~= seq![a, gap]);
    assert(!is_blank(a) && !is_blank(b) && is_blank(gap));
    assert(read_all(seq![a], frame).current == Some(p));
    assert(read_all(seq![a], frame).words =~= seq![]);
    assert(words_of(seq![a], frame) =~= seq![rect_of_sides(p)]);
    assert(read_all(seq![a, gap], frame).words =~= seq![rect_of_sides(p)]);
    assert(words_of(seq![a, gap, b], frame) =~= seq![rect_of_sides(p), rect_of_sides(q)]);
    let high = p.bottom - p.top;
    let near = -high <= 2 * (q.top - p.top) <= high && -high <= 2 * (q.bottom - p.bottom) <= high;
    if near {
        assert(words_of(seq![a, b], frame) =~= seq![p.join(q).to_rect()]);
    } else {
        assert(words_of(seq![a, b], frame) =~= seq![rect_of_sides(p), rect_of_sides(q)]);
    }
}

/// The rectangle between four sides.
pub open spec fn rect_of_sides(s: Sides) -> Rect {
    Rect {
        x: s.left as i64,
        y: s.top as i64,
        w: (s.right - s.left) as i64,
        h: (s.bottom - s.top) as i64,
    }
}

/// A rectangle has both boxes in it, and each of its sides is one of theirs.
pub open spec fn is_around(r: Rect, p: Sides, q: Sides) -> bool {
    &&& r.x <= p.left && r.x <= q.left && (r.x == p.left || r.x == q.left)
    &&& r.y <= p.top && r.y <= q.top && (r.y == p.top || r.y == q.top)
    &&& r.x + r.w >= p.right && r.x + r.w >= q.right && (r.x + r.w == p.right || r.x + r.w
        == q.right)
    &&& r.y + r.h >= p.bottom && r.y + r.h >= q.bottom && (r.y + r.h == p.bottom || r.y + r.h
        == q.bottom)
}

/// A glyph that follows a longer text is of its last word, where that word is not ended
/// by a blank and the glyph is near its top and its bottom by half its height; the word
/// grows to hold it. A glyph further off begins a new word. Earlier words stay.
pub proof fn next_glyph_joins_or_begins(front: Seq<Glyph>, g: Glyph, frame: PageFrame, q: Sides)
    requires
        visible(g, frame, q),
        read_all(front, frame).current is Some,
    ensures
        ({
            let c = read_all(front, frame).current->Some_0;
            let before = words_of(front, frame);
            let after = words_of(front.push(g), frame);
            let high = c.bottom - c.top;
            let near = -high <= 2 * (q.top - c.top) <= high && -high <= 2 * (q.bottom - c.bottom)
                <= high;
            &&& before.len() > 0 && before.last() == rect_of_sides(c)
            &&& !near ==> after == before.push(rect_of_sides(q))
            &&& near ==> after.len() == before.len() && after.drop_last() == before.drop_last()
        }),
{
    assert(front.push(g).drop_last() =~= front);
    let p = read_all(front, frame);
    let c = p.current->Some_0;
    assert(words_of(front, frame) == p.words.push(c.to_rect()));
    assert(!is_blank(g));
    let after = words_of(front.push(g), frame);
    assert(after.drop_last() =~= after.take(after.len() - 1));
    assert(p.words.push(c.to_rect()).drop_last() =~= p.words);
    assert(p.words.push(c.join(q).to_rect()).drop_last() =~= p.words);
}

/// A glyph that cannot be seen and is no blank neither ends a word nor belongs to one.
pub proof fn unseen_glyphs_change_nothing(front: Seq<Glyph>, g: Glyph, frame: PageFrame)
    requires
        g.ch is None || (g.ch->Some_0 as int > 32 && (g.ch->Some_0 as int) < 127),
        g.bounds is None || g.bounds->Some_0.w <= 0 || g.bounds->Some_0.h <= 0,
    ensures
        words_of(front.push(g), frame) == words_of(front, frame),
{
    assert(front.push(g).drop_last() =~= front);
    assert(!is_blank(g));
}

/// A glyph behind a blank begins a new word, whatever stands before the blank.
pub proof fn blank_ends_a_word(
    front: Seq<Glyph>,
    gap: Glyph,
    g: Glyph,
    frame: PageFrame,
    q: Sides,
)
    requires
        plain_blank(gap),
        visible(g, frame, q),
    ensures
        words_of(front.push(gap).push(g), frame) == words_of(front, frame).push(rect_of_sides(q)),
{
    assert(front.push(gap).push(g).drop_last() =~= front.push(gap));
    assert(front.push(gap).drop_last() =~= front);
    assert(is_blank(gap) && !is_blank(g));
    let p = read_all(front.push(gap), frame);
    assert(p == read_all(front, frame).flush());
    assert(p.current is None);
    assert(p.words == words_of(front, frame));
    let after = read_all(front.push(gap).push(g), frame);
    assert(after == p.read(g, frame));
    assert(after.words == p.words && after.current == Some(q));
}

/// A word that a glyph joins grows to the smallest rectangle around both.
pub proof fn joined_word_is_around_both(front: Seq<Glyph>, g: Glyph, frame: PageFrame, q: Sides)
    requires
        frame_wf(frame),
        forall|i: int| 0 <= i < front.len() ==> glyph_wf(#[trigger] front[i]),
        glyph_wf(g),
        visible(g, frame, q),
        read_all(front, frame).current is Some,
        ({
            let c = read_all(front, frame).current->Some_0;
            let high = c.bottom - c.top;
            -high <= 2 * (q.top - c.top) <= high && -high <= 2 * (q.bottom - c.bottom) <= high
        }),
    ensures
        is_around(
            words_of(front.push(g), frame).last(),
            read_all(front, frame).current->Some_0,
            q,
        ),
{
    assert(front.push(g).drop_last() =~= front);
    assert(!is_blank(g));
    crate::words::lemma_read_all_covers(front, frame);
    let c = read_all(front, frame).current->Some_0;
    assert(words_of(front.push(g), frame).last() == c.join(q).to_rect());
}

} // verus!
