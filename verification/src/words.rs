//! Grouping the glyphs of a page into words, and the words that a dragged
//! selection marks.

use vstd::prelude::*;

use crate::geom::{
    match_and_clip, match_lies_in_both, matched, media_box_to_displayed, to_displayed, PageFrame,
    Rect,
};
use crate::text::{is_whitespace, white_space};
use crate::units::{max, min, spec_max, spec_min, COORD_LIMIT};

verus! {

/// Largest magnitude of a glyph's position or extent and of a page's extents,
/// in ticks.
pub const GLYPH_LIMIT: i64 = 12_500_000_000_000_000;

/// One glyph of a page's text, in document order: its character, where it is
/// known, and its tight bounds in the MediaBox frame, where it has any.
#[derive(Clone, Copy, Debug, PartialEq, Eq)]
pub struct Glyph {
    pub ch: Option<char>,
    pub bounds: Option<Rect>,
}

pub open spec fn glyph_sized(v: int) -> bool {
    -GLYPH_LIMIT <= v <= GLYPH_LIMIT
}

/// The bounds of a glyph are of a size that can be added up.
pub open spec fn glyph_wf(g: Glyph) -> bool {
    g.bounds matches Some(r) ==> glyph_sized(r.x as int) && glyph_sized(r.y as int) && glyph_sized(
        r.w as int,
    ) && glyph_sized(r.h as int)
}

pub open spec fn frame_wf(f: PageFrame) -> bool {
    glyph_sized(f.mb_w as int) && glyph_sized(f.mb_h as int)
}

/// The box of a word or glyph in the displayed frame, by its four sides.
pub struct Sides {
    pub left: int,
    pub top: int,
    pub right: int,
    pub bottom: int,
}

impl Sides {
    pub open spec fn to_rect(self) -> Rect {
        Rect {
            x: self.left as i64,
            y: self.top as i64,
            w: (self.right - self.left) as i64,
            h: (self.bottom - self.top) as i64,
        }
    }

    /// The smallest box around both.
    pub open spec fn join(self, other: Sides) -> Sides {
        Sides {
            left: spec_min(self.left, other.left),
            top: spec_min(self.top, other.top),
            right: spec_max(self.right, other.right),
            bottom: spec_max(self.bottom, other.bottom),
        }
    }

    pub open spec fn covers(self, inner: Sides) -> bool {
        &&& self.left <= inner.left
        &&& self.top <= inner.top
        &&& inner.right <= self.right
        &&& inner.bottom <= self.bottom
    }

    pub open spec fn small(self) -> bool {
        &&& -3 * GLYPH_LIMIT <= self.left
        &&& -3 * GLYPH_LIMIT <= self.top
        &&& self.right <= 4 * GLYPH_LIMIT
        &&& self.bottom <= 4 * GLYPH_LIMIT
        &&& self.left < self.right
        &&& self.top < self.bottom
    }
}

/// The glyph separates words.
pub open spec fn is_blank(g: Glyph) -> bool {
    g.ch matches Some(c) && white_space(c)
}

/// The box of a glyph as displayed; `None` for one without a visible extent.
pub open spec fn glyph_box(g: Glyph, frame: PageFrame) -> Option<Sides> {
    match g.bounds {
        Some(r) => if r.w > 0 && r.h > 0 {
            let d = to_displayed(frame.rotate as int, frame.mb_w as int, frame.mb_h as int, r@);
            Some(Sides { left: d.x, top: d.y, right: d.x + d.w, bottom: d.y + d.h })
        } else {
            None
        },
        None => None,
    }
}

/// The sides `top..bottom` differ from `prev_top..prev_bottom` by no more than
/// half of the latter's height.
pub open spec fn same_baseline(prev_top: int, prev_bottom: int, top: int, bottom: int) -> bool {
    let height = prev_bottom - prev_top;
    &&& -height <= 2 * (top - prev_top) <= height
    &&& -height <= 2 * (bottom - prev_bottom) <= height
}

/// Words found so far and the one being built.
#[verifier::ext_equal]
pub struct Progress {
    pub words: Seq<Rect>,
    pub current: Option<Sides>,
}

impl Progress {
    /// The word being built is complete.
    pub open spec fn flush(self) -> Progress {
        match self.current {
            Some(c) => Progress { words: self.words.push(c.to_rect()), current: None },
            None => self,
        }
    }

    /// One more glyph: white space ends a word, and so does a visible glyph
    /// off the word's baseline; any other visible glyph extends it.
    pub open spec fn read(self, g: Glyph, frame: PageFrame) -> Progress {
        if is_blank(g) {
            self.flush()
        } else {
            match glyph_box(g, frame) {
                None => self,
                Some(b) => {
                    let p = match self.current {
                        Some(c) => if same_baseline(c.top, c.bottom, b.top, b.bottom) {
                            self
                        } else {
                            self.flush()
                        },
                        None => self,
                    };
                    let current = match p.current {
                        Some(c) => c.join(b),
                        None => b,
                    };
                    Progress { words: p.words, current: Some(current) }
                },
            }
        }
    }
}

pub open spec fn read_all(glyphs: Seq<Glyph>, frame: PageFrame) -> Progress
    decreases glyphs.len(),
{
    if glyphs.len() == 0 {
        Progress { words: seq![], current: None }
    } else {
        read_all(glyphs.drop_last(), frame).read(glyphs.last(), frame)
    }
}

/// One box per word: per maximal run of visible glyphs on one baseline with no
/// white space between them.
pub open spec fn words_of(glyphs: Seq<Glyph>, frame: PageFrame) -> Seq<Rect> {
    read_all(glyphs, frame).flush().words
}

/// A visible glyph that is part of some word.
pub open spec fn in_a_word(g: Glyph, frame: PageFrame) -> bool {
    !is_blank(g) && glyph_box(g, frame) is Some
}

/// One of the words covers the box.
pub open spec fn covered_by_word(b: Sides, words: Seq<Rect>) -> bool {
    exists|m: int| 0 <= m < words.len() && (#[trigger] words[m]).covers(b.to_rect())
}

proof fn lemma_join_covers(a: Sides, b: Sides)
    requires
        a.small(),
        b.small(),
    ensures
        a.join(b).covers(a),
        a.join(b).covers(b),
        a.join(b).small(),
{
}

proof fn lemma_glyph_box_small(g: Glyph, frame: PageFrame)
    requires
        glyph_wf(g),
        frame_wf(frame),
        glyph_box(g, frame) is Some,
    ensures
        glyph_box(g, frame)->0.small(),
{
}

pub(crate) proof fn lemma_read_all_covers(glyphs: Seq<Glyph>, frame: PageFrame)
    requires
        frame_wf(frame),
        forall|i: int| 0 <= i < glyphs.len() ==> glyph_wf(#[trigger] glyphs[i]),
    ensures
        ({
            let p = read_all(glyphs, frame);
            &&& p.current matches Some(c) ==> c.small()
            &&& forall|i: int|
                0 <= i < glyphs.len() && in_a_word(#[trigger] glyphs[i], frame) ==> covered_by_word(
                    glyph_box(glyphs[i], frame)->0,
                    p.words,
                ) || (p.current matches Some(c) && c.covers(glyph_box(glyphs[i], frame)->0))
        }),
    decreases glyphs.len(),
{
    if glyphs.len() > 0 {
        let front = glyphs.drop_last();
        let g = glyphs.last();
        let p = read_all(front, frame);
        let q = p.read(g, frame);
        assert forall|i: int| 0 <= i < front.len() implies glyph_wf(#[trigger] front[i]) by {
            assert(front[i] == glyphs[i]);
        }
        lemma_read_all_covers(front, frame);
        if glyph_box(g, frame) is Some {
            lemma_glyph_box_small(g, frame);
            if let Some(c) = p.current {
                lemma_join_covers(c, glyph_box(g, frame)->0);
            }
        }
        assert forall|i: int|
            0 <= i < glyphs.len() && in_a_word(#[trigger] glyphs[i], frame) implies covered_by_word(
            glyph_box(glyphs[i], frame)->0,
            q.words,
        ) || (q.current matches Some(c) && c.covers(glyph_box(glyphs[i], frame)->0)) by {
            if i < front.len() {
                let b = glyph_box(glyphs[i], frame)->0;
                lemma_glyph_box_small(glyphs[i], frame);
                assert(front[i] == glyphs[i]);
                if covered_by_word(b, p.words) {
                    let m = choose|m: int|
                        0 <= m < p.words.len() && (#[trigger] p.words[m]).covers(b.to_rect());
                    assert(q.words[m] == p.words[m]);
                } else if q.words.len() > p.words.len() {
                    assert(q.words.last() == p.current->0.to_rect());
                    assert(q.words[q.words.len() - 1].covers(b.to_rect()));
                }
            }
        }
    }
}

/// Every visible glyph lies within one of the words.
pub proof fn words_cover_glyphs(glyphs: Seq<Glyph>, frame: PageFrame)
    requires
        frame_wf(frame),
        forall|i: int| 0 <= i < glyphs.len() ==> glyph_wf(#[trigger] glyphs[i]),
    ensures
        forall|i: int|
            0 <= i < glyphs.len() && in_a_word(#[trigger] glyphs[i], frame) ==> covered_by_word(
                glyph_box(glyphs[i], frame)->0,
                words_of(glyphs, frame),
            ),
{
    lemma_read_all_covers(glyphs, frame);
    let p = read_all(glyphs, frame);
    let words = words_of(glyphs, frame);
    assert forall|i: int|
        0 <= i < glyphs.len() && in_a_word(#[trigger] glyphs[i], frame) implies covered_by_word(
        glyph_box(glyphs[i], frame)->0,
        words,
    ) by {
        let b = glyph_box(glyphs[i], frame)->0;
        lemma_glyph_box_small(glyphs[i], frame);
        if covered_by_word(b, p.words) {
            let m = choose|m: int|
                0 <= m < p.words.len() && (#[trigger] p.words[m]).covers(b.to_rect());
            assert(words[m] == p.words[m]);
        } else {
            assert(words[words.len() - 1] == p.current->0.to_rect());
            assert(words[words.len() - 1].covers(b.to_rect()));
        }
    }
}

/// White space between two stretches of text separates their words.
pub proof fn blank_separates_words(front: Seq<Glyph>, blank: Glyph, frame: PageFrame)
    requires
        is_blank(blank),
    ensures
        words_of(front.push(blank), frame) == words_of(front, frame),
        read_all(front.push(blank), frame).current is None,
{
    assert(front.push(blank).drop_last() =~= front);
}

/// Whether a glyph with the vertical range `top..bottom` sits on the baseline
/// of a word with the range `prev_top..prev_bottom`. The threshold is half the
/// word's height, so that a jump to another line ends the word even where the
/// white space between them is missing.
pub fn on_same_baseline(prev_top: i64, prev_bottom: i64, top: i64, bottom: i64) -> (r: bool)
    requires
        -COORD_LIMIT <= prev_top <= COORD_LIMIT,
        -COORD_LIMIT <= prev_bottom <= COORD_LIMIT,
        -COORD_LIMIT <= top <= COORD_LIMIT,
        -COORD_LIMIT <= bottom <= COORD_LIMIT,
    ensures
        r == same_baseline(prev_top as int, prev_bottom as int, top as int, bottom as int),
{
    let height = prev_bottom - prev_top;
    let up = 2 * (top - prev_top);
    let down = 2 * (bottom - prev_bottom);
    -height <= up && up <= height && -height <= down && down <= height
}

/// The sides of a box, as numbers that can be computed with.
#[derive(Clone, Copy)]
struct Edges {
    left: i64,
    top: i64,
    right: i64,
    bottom: i64,
}

impl Edges {
    spec fn sides(self) -> Sides {
        Sides {
            left: self.left as int,
            top: self.top as int,
            right: self.right as int,
            bottom: self.bottom as int,
        }
    }

    fn to_rect(self) -> (r: Rect)
        requires
            self.sides().small(),
        ensures
            r == self.sides().to_rect(),
            r.wf(),
    {
        Rect {
            x: self.left,
            y: self.top,
            w: self.right - self.left,
            h: self.bottom - self.top,
        }
    }
}

fn visible_box(g: &Glyph, frame: PageFrame) -> (r: Option<Edges>)
    requires
        glyph_wf(*g),
        frame_wf(frame),
    ensures
        r matches Some(e) ==> glyph_box(*g, frame) == Some(e.sides()) && e.sides().small(),
        r is None ==> glyph_box(*g, frame) is None,
{
    match g.bounds {
        Some(b) => {
            if b.w <= 0 || b.h <= 0 {
                return None;
            }
            let d = media_box_to_displayed(frame.rotate, frame.mb_w, frame.mb_h, b);
            proof {
                lemma_glyph_box_small(*g, frame);
                assert(d@ == to_displayed(
                    frame.rotate as int,
                    frame.mb_w as int,
                    frame.mb_h as int,
                    b@,
                ));
            }
            Some(Edges { left: d.x, top: d.y, right: d.x + d.w, bottom: d.y + d.h })
        },
        None => None,
    }
}

spec fn progress_of(words: Seq<Rect>, current: Option<Edges>) -> Progress {
    Progress {
        words,
        current: match current {
            Some(e) => Some(e.sides()),
            None => None,
        },
    }
}

/// One box per word of the page's text, in the displayed frame and in document
/// order. Working in the displayed frame keeps the baseline test right on
/// rotated pages too.
pub fn for_each_word(glyphs: &Vec<Glyph>, frame: PageFrame) -> (r: Vec<Rect>)
    requires
        frame_wf(frame),
        forall|i: int| 0 <= i < glyphs.len() ==> glyph_wf(#[trigger] glyphs[i]),
    ensures
        r@ == words_of(glyphs@, frame),
        forall|i: int| 0 <= i < r.len() ==> (#[trigger] r[i]).wf(),
{
    let mut words: Vec<Rect> = Vec::new();
    let mut current: Option<Edges> = None;
    let n = glyphs.len();
    let mut i: usize = 0;
    assert(progress_of(words@, current) =~= read_all(glyphs@.take(0), frame));
    while i < n
        invariant
            n == glyphs.len(),
            i <= n,
            frame_wf(frame),
            forall|k: int| 0 <= k < glyphs.len() ==> glyph_wf(#[trigger] glyphs[k]),
            progress_of(words@, current) == read_all(glyphs@.take(i as int), frame),
            current matches Some(e) ==> e.sides().small(),
            forall|k: int| 0 <= k < words.len() ==> (#[trigger] words[k]).wf(),
        decreases n - i,
    {
        let g = &glyphs[i];
        let ghost before = progress_of(words@, current);
        assert(glyphs@.take(i + 1).drop_last() =~= glyphs@.take(i as int));
        assert(read_all(glyphs@.take(i + 1), frame) == before.read(*g, frame));
        let blank = match g.ch {
            Some(c) => is_whitespace(c),
            None => false,
        };
        if blank {
            if let Some(e) = current {
                words.push(e.to_rect());
                current = None;
            }
        } else if let Some(b) = visible_box(g, frame) {
            if let Some(e) = current {
                if !on_same_baseline(e.top, e.bottom, b.top, b.bottom) {
                    words.push(e.to_rect());
                    current = None;
                }
            }
            current = match current {
                None => Some(b),
                Some(e) => Some(
                    Edges {
                        left: min(e.left, b.left),
                        top: min(e.top, b.top),
                        right: max(e.right, b.right),
                        bottom: max(e.bottom, b.bottom),
                    },
                ),
            };
        }
        i += 1;
    }
    assert(glyphs@.take(n as int) =~= glyphs@);
    if let Some(e) = current {
        words.push(e.to_rect());
    }
    words
}

/// The marks that a selection leaves on a list of words, in order.
pub open spec fn marks_of(words: Seq<Rect>, sel: Rect) -> Seq<Rect>
    decreases words.len(),
{
    if words.len() == 0 {
        seq![]
    } else {
        let front = marks_of(words.drop_last(), sel);
        match matched(words.last(), sel) {
            Some(m) => front.push(m),
            None => front,
        }
    }
}

/// No mark reaches beyond the selection.
pub proof fn marks_lie_in_selection(words: Seq<Rect>, sel: Rect)
    requires
        sel.wf(),
        forall|i: int| 0 <= i < words.len() ==> (#[trigger] words[i]).wf(),
    ensures
        forall|i: int|
            0 <= i < marks_of(words, sel).len() ==> sel.covers(#[trigger] marks_of(words, sel)[i]),
    decreases words.len(),
{
    if words.len() > 0 {
        assert forall|i: int| 0 <= i < words.drop_last().len() implies (
        #[trigger] words.drop_last()[i]).wf() by {
            assert(words.drop_last()[i] == words[i]);
        }
        marks_lie_in_selection(words.drop_last(), sel);
        assert(words[words.len() - 1].wf());
        if matched(words.last(), sel) is Some {
            match_lies_in_both(words.last(), sel);
        }
        let front = marks_of(words.drop_last(), sel);
        let all = marks_of(words, sel);
        assert forall|i: int| 0 <= i < all.len() implies sel.covers(#[trigger] all[i]) by {
            if i < front.len() {
                assert(all[i] == front[i]);
            }
        }
    }
}

/// One box per word of the page's text that the selection marks, clipped to
/// the selection. Empty where the page has no text or the drag missed it all.
pub fn detect_text_lines(glyphs: &Vec<Glyph>, frame: PageFrame, sel: Rect) -> (r: Vec<Rect>)
    requires
        frame_wf(frame),
        sel.on_plane(),
        forall|i: int| 0 <= i < glyphs.len() ==> glyph_wf(#[trigger] glyphs[i]),
    ensures
        r@ == marks_of(words_of(glyphs@, frame), sel),
        forall|i: int| 0 <= i < r.len() ==> (#[trigger] r[i]).on_plane(),
{
    let words = for_each_word(glyphs, frame);
    let mut r: Vec<Rect> = Vec::new();
    let n = words.len();
    let mut i: usize = 0;
    assert(words@.take(0) =~= seq![]);
    while i < n
        invariant
            n == words.len(),
            i <= n,
            sel.on_plane(),
            forall|k: int| 0 <= k < words.len() ==> (#[trigger] words[k]).wf(),
            r@ == marks_of(words@.take(i as int), sel),
            forall|k: int| 0 <= k < r.len() ==> (#[trigger] r[k]).on_plane(),
        decreases n - i,
    {
        assert(words@.take(i + 1).drop_last() =~= words@.take(i as int));
        if let Some(hit) = match_and_clip(words[i], sel) {
            proof {
                match_lies_in_both(words[i as int], sel);
            }
            r.push(hit);
        }
        i += 1;
    }
    assert(words@.take(n as int) =~= words@);
    r
}

} // verus!
