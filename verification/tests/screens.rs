use pdfsigner::geom::Rect;
use pdfsigner::menus::{
    color_preset, help_sections, hovered_row, menu_width, row_rect, COLOR_PRESETS, ITEM_H,
};
use pdfsigner::overlay::Overlay;
use pdfsigner::screen::{
    band_between, hit_test, overlay_rect, page_layout, pdf_coords_from_band, rects_touch,
    screen_to_pdf, to_pixels, to_points, Point, SCALE_MIN, SCALE_ONE,
};
use pdfsigner::units::COORD_LIMIT;

fn px(v: f64) -> i64 {
    (v * 10_000.0).round() as i64
}

fn at(x: f64, y: f64) -> Point {
    Point { x: px(x), y: px(y) }
}

fn area(x: f64, y: f64, w: f64, h: f64) -> Rect {
    Rect { x: px(x), y: px(y), w: px(w), h: px(h) }
}

#[test]
fn pages_fit_and_are_centred() {
    let l = page_layout(area(0.0, 0.0, 1000.0, 500.0), (px(100.0), px(100.0)));
    assert_eq!(l.scale, 5 * SCALE_ONE);
    assert_eq!(l.page_rect, area(250.0, 0.0, 500.0, 500.0));
    // Never smaller than a tenth of a pixel to the point.
    let l = page_layout(area(0.0, 0.0, 1.0, 1.0), (px(1000.0), px(1000.0)));
    assert_eq!(l.scale, SCALE_MIN);
}

#[test]
fn positions_go_to_the_page_and_back() {
    let page = area(250.0, 10.0, 500.0, 500.0);
    let p = screen_to_pdf(at(300.0, 60.0), page, 5 * SCALE_ONE);
    assert_eq!(p, at(10.0, 10.0));
    assert_eq!(to_pixels(px(10.0), 5 * SCALE_ONE), px(50.0));
    for v in [0i64, 1, 12_345, -987_654, 5_950_000] {
        let scale = SCALE_ONE * 3 / 2;
        assert!((to_points(to_pixels(v, scale), scale) - v).abs() <= 1);
    }
}

#[test]
fn bands_have_their_corner_at_the_top_left() {
    let band = band_between(at(30.0, 5.0), at(10.0, 25.0));
    assert_eq!(band, area(10.0, 5.0, 20.0, 20.0));
    let r = pdf_coords_from_band(band, area(10.0, 5.0, 100.0, 100.0), 2 * SCALE_ONE);
    assert_eq!(r, area(0.0, 0.0, 10.0, 10.0));
}

#[test]
fn overlays_on_the_screen() {
    let page = area(100.0, 50.0, 500.0, 500.0);
    let o = Overlay::Redact { x: px(10.0), y: px(20.0), w: px(30.0), h: px(40.0) };
    assert_eq!(
        overlay_rect(&o, page, 2 * SCALE_ONE, at(0.0, 0.0), 0),
        area(120.0, 90.0, 60.0, 80.0)
    );
    let text = |t: &str| Overlay::Text {
        text: t.to_string(),
        x: px(10.0),
        y: px(20.0),
        size_pt: px(12.0),
        color: [0, 0, 0],
    };
    assert_eq!(
        overlay_rect(&text("abc"), page, 2 * SCALE_ONE, at(33.0, 29.0), px(29.0)),
        area(120.0, 90.0, 33.0, 29.0)
    );
    assert_eq!(
        overlay_rect(&text(""), page, 2 * SCALE_ONE, at(0.0, 0.0), px(29.0)),
        area(120.0, 90.0, 20.0, 29.0)
    );
}

#[test]
fn the_topmost_is_hit() {
    let rects = vec![area(0.0, 0.0, 10.0, 10.0), area(5.0, 5.0, 10.0, 10.0)];
    assert_eq!(hit_test(&rects, at(7.0, 7.0)), Some(1));
    assert_eq!(hit_test(&rects, at(2.0, 2.0)), Some(0));
    assert_eq!(hit_test(&rects, at(15.0, 15.0)), Some(1));
    assert_eq!(hit_test(&rects, at(15.1, 15.0)), None);
    assert!(rects_touch(rects[0], area(10.0, 10.0, 1.0, 1.0)));
    assert!(!rects_touch(rects[0], area(10.1, 10.0, 1.0, 1.0)));
}

#[test]
fn rows_of_a_menu() {
    let pos = at(100.0, 200.0);
    assert_eq!(row_rect(pos, px(90.0), 2), area(100.0, 236.0, 90.0, 18.0));
    assert_eq!(hovered_row(pos, px(90.0), 3, Some(at(110.0, 210.0))), Some(0));
    assert_eq!(hovered_row(pos, px(90.0), 3, Some(at(110.0, 218.0))), Some(1));
    assert_eq!(hovered_row(pos, px(90.0), 3, Some(at(110.0, 254.0))), Some(2));
    assert_eq!(hovered_row(pos, px(90.0), 3, Some(at(110.0, 254.1))), None);
    assert_eq!(hovered_row(pos, px(90.0), 3, None), None);
    assert_eq!(ITEM_H, px(18.0));
    assert_eq!(menu_width(&vec![px(10.0), px(120.0), px(5.0)], px(80.0), px(20.0)), px(140.0));
    assert_eq!(menu_width(&vec![px(10.0)], px(80.0), px(20.0)), px(100.0));
}

#[test]
fn colours_to_choose_from() {
    let rows: Vec<(&str, Option<[u8; 3]>)> = (0..COLOR_PRESETS).map(color_preset).collect();
    assert_eq!(
        rows,
        vec![
            ("Black", Some([0, 0, 0])),
            ("Red", Some([200, 30, 30])),
            ("Blue", Some([30, 60, 200])),
            ("Custom…", None),
        ]
    );
}

#[test]
fn the_help_names_every_key() {
    let sections = help_sections();
    let titles: Vec<&str> = sections.iter().map(|s| s.title).collect();
    assert_eq!(titles, vec!["place (cursor over page)", "selection", "redact", "file"]);
    assert_eq!(sections.iter().map(|s| s.rows.len()).collect::<Vec<_>>(), vec![5, 5, 5, 3]);
    assert_eq!(sections[0].rows[1].keys, "Shift+S");
    assert_eq!(sections[2].rows[2].desc, "commit marks to redactions");
}

#[test]
fn bands_across_everything() {
    let band = band_between(
        Point { x: -COORD_LIMIT, y: 0 },
        Point { x: COORD_LIMIT, y: px(10.0) },
    );
    assert_eq!(band.w, 2 * COORD_LIMIT);
    let r = pdf_coords_from_band(band, area(0.0, 0.0, 100.0, 100.0), 2 * SCALE_ONE);
    assert_eq!((r.x, r.w), (-COORD_LIMIT / 2, COORD_LIMIT));
    assert_eq!((r.y, r.h), (0, px(5.0)));
}

#[test]
fn small_pages_are_shown_very_large() {
    // A page of a hundredth of a point in an area of two thousand pixels.
    let l = page_layout(area(0.0, 0.0, 2000.0, 3000.0), (px(0.01), px(0.01)));
    assert_eq!(l.scale, 200_000 * SCALE_ONE);
    assert_eq!(l.page_rect, area(0.0, 500.0, 2000.0, 2000.0));
}
