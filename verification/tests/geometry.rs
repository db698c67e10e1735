use pdfsigner::geom::{
    intersection_area, match_and_clip, media_box_to_displayed, page_frame, rect_to_media_box,
    union_rect, PageFrame, Rect,
};
use pdfsigner::merge::{merge_overlapping_marks, merge_overlapping_redacts};
use pdfsigner::overlay::Overlay;
use pdfsigner::units::{clamp, limit, round_div, COORD_LIMIT};
use pdfsigner::words::{detect_text_lines, for_each_word, on_same_baseline, Glyph};

fn pt(v: f64) -> i64 {
    (v * 10_000.0).round() as i64
}

fn rect(x: f64, y: f64, w: f64, h: f64) -> Rect {
    Rect { x: pt(x), y: pt(y), w: pt(w), h: pt(h) }
}

#[test]
fn match_and_clip_hits_when_centers_overlap() {
    // Word fits inside selection: the word itself.
    let word = rect(10.0, 10.0, 20.0, 8.0);
    let sel = rect(0.0, 0.0, 100.0, 50.0);
    assert_eq!(match_and_clip(word, sel), Some(word));

    // Selection inside the word: clipped to the selection.
    let word = rect(0.0, 0.0, 100.0, 20.0);
    let sel = rect(30.0, 5.0, 10.0, 10.0);
    assert_eq!(match_and_clip(word, sel), Some(sel));

    // Word center in selection, but word extends beyond: the intersection.
    let word = rect(50.0, 10.0, 60.0, 10.0);
    let sel = rect(60.0, 5.0, 40.0, 30.0);
    assert_eq!(match_and_clip(word, sel), Some(rect(60.0, 10.0, 40.0, 10.0)));

    // Neither center in the other.
    let word = rect(0.0, 0.0, 10.0, 10.0);
    let sel = rect(50.0, 50.0, 10.0, 10.0);
    assert_eq!(match_and_clip(word, sel), None);

    // Touching but not overlapping.
    let word = rect(0.0, 0.0, 10.0, 10.0);
    let sel = rect(10.0, 0.0, 10.0, 10.0);
    assert_eq!(match_and_clip(word, sel), None);
}

#[test]
fn media_box_to_displayed_is_inverse_of_rect_to_media_box() {
    for &rotate in &[0, 90, 180, 270] {
        let (mb_w, mb_h) = if rotate == 90 || rotate == 270 {
            (pt(200.0), pt(100.0))
        } else {
            (pt(100.0), pt(200.0))
        };
        let disp = rect(13.0, 27.0, 41.0, 19.0);
        let m = rect_to_media_box(rotate, mb_w, mb_h, disp);
        let back = media_box_to_displayed(rotate, mb_w, mb_h, m);
        assert_eq!(back, disp, "rotate={rotate}: round-trip mismatch got {back:?}, expected {disp:?}");
    }
}

#[test]
fn rect_to_media_box_handles_all_rotations() {
    let r = rect(10.0, 20.0, 30.0, 40.0);
    assert_eq!(rect_to_media_box(0, pt(100.0), pt(200.0), r), rect(10.0, 140.0, 30.0, 40.0));
    assert_eq!(rect_to_media_box(90, pt(200.0), pt(100.0), r), rect(20.0, 10.0, 40.0, 30.0));
    assert_eq!(rect_to_media_box(180, pt(100.0), pt(200.0), r), rect(60.0, 20.0, 30.0, 40.0));
    assert_eq!(rect_to_media_box(270, pt(200.0), pt(100.0), r), rect(140.0, 60.0, 40.0, 30.0));
    assert_eq!(rect_to_media_box(45, pt(100.0), pt(200.0), r), rect(10.0, 140.0, 30.0, 40.0));
}

#[test]
fn negative_turns_count_the_other_way() {
    let r = rect(10.0, 20.0, 30.0, 40.0);
    assert_eq!(
        rect_to_media_box(-90, pt(200.0), pt(100.0), r),
        rect_to_media_box(270, pt(200.0), pt(100.0), r)
    );
}

#[test]
fn a_page_on_its_side_swaps_its_extents() {
    let f = page_frame(pt(842.0), pt(595.0), 90);
    assert_eq!((f.mb_w, f.mb_h), (pt(595.0), pt(842.0)));
    let f = page_frame(pt(842.0), pt(595.0), 180);
    assert_eq!((f.mb_w, f.mb_h), (pt(842.0), pt(595.0)));
}

#[test]
fn areas_and_unions() {
    let a = rect(0.0, 0.0, 10.0, 10.0);
    let b = rect(5.0, 5.0, 10.0, 10.0);
    assert_eq!(intersection_area(a, b), 50_000 * 50_000);
    assert_eq!(intersection_area(b, a), 50_000 * 50_000);
    assert_eq!(intersection_area(a, rect(10.0, 0.0, 5.0, 5.0)), 0);
    assert_eq!(intersection_area(a, rect(40.0, 40.0, 5.0, 5.0)), 0);
    assert_eq!(union_rect(a, b), rect(0.0, 0.0, 15.0, 15.0));
}

#[test]
fn rounding_and_limits() {
    assert_eq!(round_div(5, 2), 3);
    assert_eq!(round_div(-5, 2), -3);
    assert_eq!(round_div(7, 3), 2);
    assert_eq!(clamp(7, 0, 5), 5);
    assert_eq!(limit(i128::MAX), COORD_LIMIT);
    assert_eq!(limit(i128::MIN), -COORD_LIMIT);
}

fn redact(x: f64, y: f64, w: f64, h: f64) -> Overlay {
    Overlay::Redact { x: pt(x), y: pt(y), w: pt(w), h: pt(h) }
}

fn mark(x: f64, y: f64, w: f64, h: f64) -> Overlay {
    Overlay::PendingMark { x: pt(x), y: pt(y), w: pt(w), h: pt(h) }
}

fn rects_of(overlays: &[Overlay]) -> Vec<Rect> {
    overlays
        .iter()
        .filter_map(|o| match o {
            Overlay::Redact { x, y, w, h } | Overlay::PendingMark { x, y, w, h } => {
                Some(Rect { x: *x, y: *y, w: *w, h: *h })
            }
            _ => None,
        })
        .collect()
}

#[test]
fn merging_chains_into_one_union() {
    // The third overlaps the union of the first two only.
    let mut overlays = vec![
        redact(0.0, 0.0, 10.0, 10.0),
        redact(20.0, 20.0, 10.0, 10.0),
        redact(5.0, 5.0, 20.0, 20.0),
    ];
    merge_overlapping_redacts(&mut overlays);
    assert_eq!(rects_of(&overlays), vec![rect(0.0, 0.0, 30.0, 30.0)]);
}

#[test]
fn merging_keeps_the_other_kind_and_what_only_touches() {
    let mut overlays = vec![
        mark(0.0, 0.0, 10.0, 10.0),
        redact(0.0, 0.0, 10.0, 10.0),
        mark(10.0, 0.0, 10.0, 10.0),
    ];
    merge_overlapping_marks(&mut overlays);
    assert!(overlays[0].is_redact());
    assert!(overlays[1].is_pending_mark() && overlays[2].is_pending_mark());
    assert_eq!(overlays.len(), 3);
}

#[test]
fn marking_twice_is_marking_once() {
    let mut once = vec![mark(1.0, 2.0, 30.0, 8.0)];
    merge_overlapping_marks(&mut once);
    let mut twice = vec![mark(1.0, 2.0, 30.0, 8.0), mark(1.0, 2.0, 30.0, 8.0)];
    merge_overlapping_marks(&mut twice);
    assert_eq!(rects_of(&once), rects_of(&twice));
}

fn glyph(ch: char, x: f64, y: f64) -> Glyph {
    Glyph { ch: Some(ch), bounds: Some(rect(x, y, 5.0, 10.0)) }
}

fn upright() -> PageFrame {
    page_frame(pt(200.0), pt(100.0), 0)
}

#[test]
fn glyphs_on_a_baseline() {
    assert!(on_same_baseline(0, 100, 50, 150));
    assert!(!on_same_baseline(0, 100, 51, 151));
    assert!(!on_same_baseline(0, 100, 0, 151));
}

#[test]
fn words_end_at_blanks_and_line_jumps() {
    let glyphs = vec![
        glyph('a', 0.0, 80.0),
        glyph('b', 5.0, 80.0),
        glyph(' ', 10.0, 80.0),
        glyph('c', 15.0, 80.0),
        glyph('d', 0.0, 40.0),
    ];
    let words = for_each_word(&glyphs, upright());
    // MediaBox y 80..90 is 10..20 from the top of the page.
    assert_eq!(
        words,
        vec![
            rect(0.0, 10.0, 10.0, 10.0),
            rect(15.0, 10.0, 5.0, 10.0),
            rect(0.0, 50.0, 5.0, 10.0),
        ]
    );
}

#[test]
fn glyphs_without_extent_are_passed_over() {
    let glyphs = vec![
        Glyph { ch: Some('a'), bounds: None },
        Glyph { ch: Some('a'), bounds: Some(rect(0.0, 80.0, 0.0, 10.0)) },
        Glyph { ch: None, bounds: Some(rect(0.0, 80.0, 5.0, 10.0)) },
    ];
    assert_eq!(for_each_word(&glyphs, upright()), vec![rect(0.0, 10.0, 5.0, 10.0)]);
}

#[test]
fn detection_marks_whole_words_within_the_selection() {
    let glyphs = vec![
        glyph('a', 0.0, 80.0),
        glyph('b', 5.0, 80.0),
        glyph(' ', 10.0, 80.0),
        glyph('c', 15.0, 80.0),
    ];
    let all = detect_text_lines(&glyphs, upright(), rect(0.0, 0.0, 200.0, 100.0));
    assert_eq!(all, vec![rect(0.0, 10.0, 10.0, 10.0), rect(15.0, 10.0, 5.0, 10.0)]);
    let clipped = detect_text_lines(&glyphs, upright(), rect(2.0, 5.0, 6.0, 20.0));
    assert_eq!(clipped, vec![rect(2.0, 10.0, 6.0, 10.0)]);
    assert!(detect_text_lines(&glyphs, upright(), rect(100.0, 50.0, 5.0, 5.0)).is_empty());
}

#[test]
fn merged_rectangles_are_bounding_boxes() {
    let mut overlays = vec![
        redact(0.0, 5.0, 10.0, 10.0),
        redact(100.0, 0.0, 5.0, 5.0),
        redact(8.0, 0.0, 4.0, 30.0),
    ];
    merge_overlapping_redacts(&mut overlays);
    assert_eq!(
        rects_of(&overlays),
        vec![rect(0.0, 0.0, 12.0, 30.0), rect(100.0, 0.0, 5.0, 5.0)]
    );
}

#[test]
fn far_rectangles_are_covered_whole() {
    let mut overlays =
        vec![redact(-1e9, 0.0, 1e9, 10.0), redact(-1.0, 0.0, 1e9, 10.0)];
    merge_overlapping_redacts(&mut overlays);
    assert_eq!(rects_of(&overlays), vec![rect(-1e9, 0.0, 1_999_999_999.0, 10.0)]);
    let a = Rect { x: -COORD_LIMIT, y: -COORD_LIMIT, w: 1, h: 1 };
    let b = Rect { x: COORD_LIMIT - 1, y: COORD_LIMIT - 1, w: 1, h: 1 };
    let all = Rect { x: -COORD_LIMIT, y: -COORD_LIMIT, w: 2 * COORD_LIMIT, h: 2 * COORD_LIMIT };
    assert_eq!(union_rect(a, b), all);
}

#[test]
fn merging_takes_images_of_any_size() {
    let mut overlays = vec![
        redact(0.0, 0.0, 5.0, 5.0),
        Overlay::Image { path: vec![], x: 0, y: 0, w: 1, h: -7 },
        redact(1.0, 1.0, 5.0, 5.0),
    ];
    merge_overlapping_redacts(&mut overlays);
    assert_eq!(rects_of(&overlays), vec![rect(0.0, 0.0, 6.0, 6.0)]);
    assert_eq!(overlays.len(), 2);
}
