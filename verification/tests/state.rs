use pdfsigner::app::App;
use pdfsigner::editor::EditInput;
use pdfsigner::geom::Rect;
use pdfsigner::input::{size_steps, DropAction, GlobalKeys, GlobalOutcome, Key, KeyEvent};
use pdfsigner::overlay::Overlay;
use pdfsigner::panels::{BandStyle, Paint};
use pdfsigner::pointer::PointerInput;
use pdfsigner::screen::{overlay_rect, PageLayout, Point, SCALE_ONE};
use pdfsigner::stamp::Date;
use pdfsigner::units::COORD_LIMIT;

fn pt(v: f64) -> i64 {
    (v * 10_000.0).round() as i64
}

fn at(x: f64, y: f64) -> Point {
    Point { x: pt(x), y: pt(y) }
}

/// Two A4 pages, shown at one pixel to the point with the corner at (100, 50).
fn app() -> App {
    let mut app = App::new(true, vec![b"/sigs/a.png".to_vec(), b"/sigs/b.png".to_vec()]);
    app.open_pdf(b"/tmp/in.pdf".to_vec(), &vec![(pt(595.0), pt(842.0)); 3]);
    app
}

fn layout() -> PageLayout {
    PageLayout {
        scale: SCALE_ONE,
        page_rect: Rect { x: pt(100.0), y: pt(50.0), w: pt(595.0), h: pt(842.0) },
    }
}

fn today() -> Date {
    Date { year: 2024, month: 2, day: 29 }
}

fn key(key: Key) -> KeyEvent {
    KeyEvent { key, repeat: false, shift: false, ctrl: false, command: false, alt: false }
}

fn shifted(k: Key) -> KeyEvent {
    KeyEvent { shift: true, ..key(k) }
}

fn no_keys() -> GlobalKeys {
    GlobalKeys {
        typing: false,
        help: false,
        escape: false,
        quit: false,
        delete: false,
        save: false,
        duplicate: false,
        events: vec![],
    }
}

fn still() -> PointerInput {
    PointerInput {
        drag_started: false,
        press_origin: None,
        dragged: false,
        drag_stopped: false,
        clicked: false,
        ctrl: false,
        pos: None,
    }
}

fn press(app: &mut App, events: Vec<KeyEvent>, pos: Point) {
    app.handle_page_hotkeys(&events, Some(pos), layout(), today());
}

fn overlays(app: &App) -> &Vec<Overlay> {
    &app.pages[app.current].overlays
}

fn rects(app: &App) -> Vec<Rect> {
    let l = layout();
    overlays(app)
        .iter()
        .map(|o| overlay_rect(o, l.page_rect, l.scale, at(40.0, 14.0), pt(14.0)))
        .collect()
}

fn add_redact(app: &mut App, x: f64, y: f64, w: f64, h: f64) {
    let cur = app.current;
    app.pages[cur].overlays.push(Overlay::Redact { x: pt(x), y: pt(y), w: pt(w), h: pt(h) });
}

fn text_of(o: &Overlay) -> &str {
    match o {
        Overlay::Text { text, .. } => text,
        _ => panic!("no text"),
    }
}

fn rect_of(o: &Overlay) -> Rect {
    match o {
        Overlay::Image { x, y, w, h, .. }
        | Overlay::Redact { x, y, w, h }
        | Overlay::PendingMark { x, y, w, h } => Rect { x: *x, y: *y, w: *w, h: *h },
        Overlay::Text { .. } => panic!("a text"),
    }
}

fn px_rect(x: f64, y: f64, w: f64, h: f64) -> Rect {
    Rect { x: pt(x), y: pt(y), w: pt(w), h: pt(h) }
}

#[test]
fn the_start() {
    let app = App::new(false, vec![]);
    assert_eq!(app.status, "ERROR: pdfium library not found. Install pdfium-binaries.");
    assert_eq!(app.text_size, pt(12.0));
    assert!(app.show_redacts && !app.block_mode && !app.mark_mode && !app.help_open);
    assert!(App::new(true, vec![]).status.is_empty());
    assert_eq!(app.page_label(), "");
}

#[test]
fn opening_shows_the_first_page() {
    let mut a = app();
    a.current = 2;
    a.status = "Saved".to_string();
    a.open_pdf(b"/tmp/other.pdf".to_vec(), &vec![(pt(100.0), pt(200.0))]);
    assert_eq!(a.current, 0);
    assert_eq!(a.pages.len(), 1);
    assert_eq!(a.pages[0].size_pt, (pt(100.0), pt(200.0)));
    assert_eq!(a.pdf_path, Some(b"/tmp/other.pdf".to_vec()));
    assert!(a.status.is_empty() && a.selected.is_empty());
    assert_eq!(a.page_label(), "[1/1]");
}

#[test]
fn text_stands_on_its_baseline() {
    let mut a = app();
    let i = a.add_text_at("x".to_string(), pt(100.0), pt(200.0));
    assert_eq!(i, 0);
    assert_eq!(a.selected, vec![0]);
    match &overlays(&a)[0] {
        Overlay::Text { text, x, y, size_pt, color } => {
            assert_eq!(text, "x");
            assert_eq!((*x, *y), (pt(100.0), pt(200.0 - 12.0 * 0.969)));
            assert_eq!(*size_pt, pt(12.0));
            assert_eq!(*color, [0, 0, 0]);
        }
        _ => panic!("no text"),
    }
}

#[test]
fn pictures_keep_their_shape() {
    let mut a = app();
    a.add_signature_at(b"/sigs/a.png".to_vec(), 300, 100, pt(200.0), pt(300.0));
    assert_eq!(rect_of(&overlays(&a)[0]), px_rect(125.0, 275.0, 150.0, 50.0));
    a.add_image_centered(b"/sigs/b.png".to_vec(), 100, 200);
    assert_eq!(rect_of(&overlays(&a)[1]), px_rect(222.5, 271.0, 150.0, 300.0));
    assert_eq!(a.selected, vec![1]);
}

#[test]
fn deleting_takes_only_the_selected() {
    let mut a = app();
    for t in ["a", "b", "c", "d"] {
        a.add_text_at(t.to_string(), 0, 0);
    }
    a.selected = vec![3, 1];
    a.delete_selected();
    let left: Vec<&str> = overlays(&a).iter().map(text_of).collect();
    assert_eq!(left, vec!["a", "c"]);
    assert!(a.selected.is_empty());
    a.delete_selected();
    assert_eq!(overlays(&a).len(), 2);
    // Indices without an overlay are passed over.
    a.selected = vec![17];
    a.delete_selected();
    assert_eq!(overlays(&a).len(), 2);
}

#[test]
fn deleting_undoes_duplicating() {
    let mut a = app();
    a.add_text_at("a".to_string(), pt(5.0), pt(5.0));
    add_redact(&mut a, 10.0, 20.0, 30.0, 40.0);
    a.selected = vec![1, 0];
    a.duplicate_selected();
    assert_eq!(overlays(&a).len(), 4);
    assert_eq!(a.selected, vec![2, 3]);
    assert_eq!(rect_of(&overlays(&a)[2]), px_rect(20.0, 30.0, 30.0, 40.0));
    assert_eq!(text_of(&overlays(&a)[3]), "a");
    a.delete_selected();
    assert_eq!(overlays(&a).len(), 2);
    assert_eq!(rect_of(&overlays(&a)[1]), px_rect(10.0, 20.0, 30.0, 40.0));
}

#[test]
fn sizes_step_and_stop_at_their_limits() {
    let mut a = app();
    a.adjust_size(1);
    assert_eq!(a.text_size, pt(13.0));
    a.adjust_size(-100);
    assert_eq!(a.text_size, pt(6.0));
    a.adjust_size(100);
    assert_eq!(a.text_size, pt(72.0));
    a.add_text_at("a".to_string(), 0, 0);
    a.adjust_size(-2);
    assert!(matches!(overlays(&a)[0], Overlay::Text { size_pt, .. } if size_pt == pt(70.0)));
    assert_eq!(a.text_size, pt(72.0));
}

#[test]
fn pictures_and_rectangles_change_by_a_factor() {
    let mut a = app();
    a.add_signature_at(b"p".to_vec(), 150, 75, pt(200.0), pt(200.0));
    a.adjust_size(3);
    assert_eq!(rect_of(&overlays(&a)[0]).w, pt(150.0 * 1.0625));
    assert_eq!(rect_of(&overlays(&a)[0]).h, pt(75.0 * 1.0625));
    a.adjust_size(-1);
    assert_eq!(rect_of(&overlays(&a)[0]).w, pt(150.0));
    for _ in 0..60 {
        a.adjust_size(1);
    }
    assert_eq!(rect_of(&overlays(&a)[0]).w, pt(600.0));
    for _ in 0..100 {
        a.adjust_size(-1);
    }
    assert_eq!(rect_of(&overlays(&a)[0]).w, pt(10.0));
    let mut a = app();
    add_redact(&mut a, 0.0, 0.0, 16.0, 4.0);
    a.selected = vec![0];
    a.adjust_size(1);
    assert_eq!(rect_of(&overlays(&a)[0]), px_rect(0.0, 0.0, 17.0, 4.25));
    a.adjust_size(-1);
    a.adjust_size(-1);
    assert_eq!(rect_of(&overlays(&a)[0]).h, pt(4.0));
}

#[test]
fn a_step_down_makes_nothing_larger() {
    let mut a = app();
    add_redact(&mut a, 0.0, 0.0, 2.0, 2.0);
    a.selected = vec![0];
    a.adjust_size(-1);
    assert_eq!(rect_of(&overlays(&a)[0]), px_rect(0.0, 0.0, 2.0, 2.0));
    a.adjust_size(1);
    assert_eq!(rect_of(&overlays(&a)[0]), px_rect(0.0, 0.0, 4.0, 4.0));
}

#[test]
fn colours_reach_selected_texts_only() {
    let mut a = app();
    add_redact(&mut a, 0.0, 0.0, 10.0, 10.0);
    a.add_text_at("a".to_string(), 0, 0);
    a.add_text_at("b".to_string(), 0, 0);
    a.selected = vec![0, 2];
    assert_eq!(a.first_selected_text_color(), Some([0, 0, 0]));
    a.apply_color_to_selected_text([1, 2, 3]);
    assert_eq!(a.first_selected_text_color(), Some([1, 2, 3]));
    assert!(matches!(overlays(&a)[1], Overlay::Text { color: [0, 0, 0], .. }));
    a.selected = vec![0];
    assert_eq!(a.first_selected_text_color(), None);
    assert_eq!(a.picker_color(), [0, 0, 0]);
}

#[test]
fn the_active_text() {
    let mut a = app();
    add_redact(&mut a, 0.0, 0.0, 10.0, 10.0);
    a.add_text_at("a".to_string(), 0, 0);
    assert_eq!(a.active_text_idx(), Some(1));
    a.selected = vec![0, 1];
    assert_eq!(a.active_text_idx(), Some(1));
    a.selected = vec![0];
    assert_eq!(a.active_text_idx(), None);
    a.editing = Some(1);
    assert_eq!(a.active_text_idx(), Some(1));
}

#[test]
fn keys_count_up_and_down() {
    let chord = KeyEvent { ctrl: true, ..key(Key::Plus) };
    let events = vec![key(Key::Plus), key(Key::Equals), key(Key::Minus), chord, key(Key::S)];
    assert_eq!(size_steps(&events), 1);
}

#[test]
fn keys_that_work_everywhere() {
    let mut a = app();
    a.add_text_at("a".to_string(), 0, 0);
    let r = a.handle_global_hotkeys(&GlobalKeys { save: true, duplicate: true, quit: true, ..no_keys() });
    assert_eq!(r, GlobalOutcome { quit: true, save: true, duplicate: true });
    let r = a.handle_global_hotkeys(&GlobalKeys {
        typing: true,
        delete: true,
        quit: true,
        save: true,
        ..no_keys()
    });
    assert_eq!(r, GlobalOutcome { quit: false, save: true, duplicate: false });
    assert_eq!(overlays(&a).len(), 1);
    a.handle_global_hotkeys(&GlobalKeys { events: vec![key(Key::Plus)], ..no_keys() });
    assert!(matches!(overlays(&a)[0], Overlay::Text { size_pt, .. } if size_pt == pt(13.0)));
    a.handle_global_hotkeys(&GlobalKeys { delete: true, ..no_keys() });
    assert!(overlays(&a).is_empty());
    // Without a document nothing is saved.
    let mut empty = App::new(true, vec![]);
    let r = empty.handle_global_hotkeys(&GlobalKeys { save: true, ..no_keys() });
    assert!(!r.save);
}

#[test]
fn open_help_takes_all_keys() {
    let mut a = app();
    a.add_text_at("a".to_string(), 0, 0);
    a.handle_global_hotkeys(&GlobalKeys { help: true, ..no_keys() });
    assert!(a.help_open);
    let r = a.handle_global_hotkeys(&GlobalKeys { delete: true, save: true, ..no_keys() });
    assert_eq!(r, GlobalOutcome { quit: false, save: false, duplicate: false });
    assert_eq!(overlays(&a).len(), 1);
    let r = a.handle_global_hotkeys(&GlobalKeys { quit: true, ..no_keys() });
    assert!(!r.quit && !a.help_open);
    a.handle_global_hotkeys(&GlobalKeys { help: true, ..no_keys() });
    a.handle_global_hotkeys(&GlobalKeys { help: true, ..no_keys() });
    assert!(!a.help_open);
}

#[test]
fn messages() {
    let mut a = app();
    a.report_save(true, "/tmp/in_signed.pdf");
    assert_eq!(a.status, "Saved /tmp/in_signed.pdf");
    a.report_save(false, "no input PDF");
    assert_eq!(a.status, "Save error: no input PDF");
    a.report_image_error("bad");
    assert_eq!(a.status, "Image error: bad");
    a.report_open_error("bad");
    assert_eq!(a.status, "Error: bad");
}

#[test]
fn dropped_files() {
    let mut a = App::new(true, vec![]);
    assert_eq!(a.handle_dropped_file(Some("PDF"), "/x.PDF"), DropAction::OpenPdf);
    assert_eq!(a.handle_dropped_file(Some("png"), "/x.png"), DropAction::Nothing);
    assert_eq!(a.status, "Drop a PDF first, then drop the signature image.");
    assert_eq!(a.handle_dropped_file(None, "/x"), DropAction::Nothing);
    assert_eq!(a.status, "Unsupported file type: /x");
    let mut a = app();
    assert_eq!(a.handle_dropped_file(Some("JPEG"), "/x.JPEG"), DropAction::AddImage);
}

#[test]
fn the_wheel_turns_pages() {
    let mut a = app();
    a.handle_wheel(-1, -pt(59.0));
    assert_eq!((a.current, a.wheel_accum), (0, -pt(59.0)));
    a.handle_wheel(-1, -pt(1.0));
    assert_eq!((a.current, a.wheel_accum), (1, 0));
    a.handle_wheel(-1, -pt(1000.0));
    assert_eq!((a.current, a.wheel_accum), (2, -pt(40.0)));
    a.handle_wheel(1, pt(160.0));
    assert_eq!((a.current, a.wheel_accum), (0, 0));
    a.handle_wheel(1, pt(60.0));
    assert_eq!(a.current, 0);
}

#[test]
fn the_wheel_resizes_a_selection() {
    let mut a = app();
    a.add_text_at("a".to_string(), 0, 0);
    a.wheel_accum = pt(30.0);
    a.handle_wheel(1, pt(500.0));
    assert_eq!((a.current, a.wheel_accum), (0, 0));
    assert!(matches!(overlays(&a)[0], Overlay::Text { size_pt, .. } if size_pt == pt(13.0)));
    a.help_open = true;
    a.handle_wheel(1, pt(500.0));
    assert!(matches!(overlays(&a)[0], Overlay::Text { size_pt, .. } if size_pt == pt(13.0)));
}

#[test]
fn stamps_at_the_pointer() {
    let mut a = app();
    press(&mut a, vec![key(Key::S), shifted(Key::S), key(Key::X), shifted(Key::X)], at(300.0, 250.0));
    let texts: Vec<&str> = overlays(&a).iter().map(text_of).collect();
    assert_eq!(texts, vec!["29.02.2024", "02/29/2024", "x"]);
    assert!(matches!(overlays(&a)[0], Overlay::Text { x, y, .. }
        if x == pt(200.0) && y == pt(200.0 - 12.0 * 0.969)));
    assert_eq!(a.editing, None);
    // Beside the page, with Ctrl, or as a repetition nothing happens.
    press(&mut a, vec![key(Key::X)], at(90.0, 250.0));
    press(&mut a, vec![KeyEvent { ctrl: true, ..key(Key::X) }], at(300.0, 250.0));
    press(&mut a, vec![KeyEvent { repeat: true, ..key(Key::X) }], at(300.0, 250.0));
    a.handle_page_hotkeys(&vec![key(Key::X)], None, layout(), today());
    assert_eq!(overlays(&a).len(), 3);
}

#[test]
fn a_new_text_is_edited() {
    let mut a = app();
    press(&mut a, vec![key(Key::T)], at(300.0, 250.0));
    assert_eq!(a.editing, Some(0));
    assert!(!a.editing_just_focused);
    assert_eq!(text_of(&overlays(&a)[0]), "");
    press(&mut a, vec![key(Key::D)], at(300.0, 250.0));
    assert!(overlays(&a).is_empty());
}

#[test]
fn modes_and_marks() {
    let mut a = app();
    press(&mut a, vec![shifted(Key::B)], at(300.0, 250.0));
    assert!(a.mark_mode && !a.block_mode);
    assert_eq!(a.band_style(), BandStyle::Mark);
    a.add_marks(px_rect(10.0, 10.0, 50.0, 10.0), vec![]);
    assert_eq!(a.status, "No text detected — using rectangle.");
    a.add_marks(px_rect(0.0, 0.0, 100.0, 100.0), vec![
        px_rect(20.0, 12.0, 60.0, 6.0),
        px_rect(20.0, 40.0, 60.0, 6.0),
    ]);
    assert_eq!(overlays(&a).len(), 2);
    assert_eq!(rect_of(&overlays(&a)[0]), px_rect(10.0, 10.0, 70.0, 10.0));
    let header: Vec<(String, bool)> =
        a.header_segments().into_iter().map(|s| (s.text, s.accent)).collect();
    assert_eq!(header, vec![("MARK · 2 pending".to_string(), true)]);
    press(&mut a, vec![key(Key::B)], at(300.0, 250.0));
    assert!(a.mark_mode);
    assert!(overlays(&a).iter().all(Overlay::is_redact));
    a.add_marks(px_rect(300.0, 300.0, 5.0, 5.0), vec![]);
    press(&mut a, vec![key(Key::Escape)], at(300.0, 250.0));
    assert!(!a.mark_mode);
    assert_eq!(overlays(&a).len(), 2);
    press(&mut a, vec![key(Key::R)], at(300.0, 250.0));
    assert!(!a.show_redacts);
}

#[test]
fn shift_b_waits_for_the_block_mode() {
    let mut a = app();
    press(&mut a, vec![key(Key::B), shifted(Key::B)], at(300.0, 250.0));
    assert!(a.block_mode && !a.mark_mode);
    assert_eq!(a.band_style(), BandStyle::Block);
    press(&mut a, vec![key(Key::B)], at(300.0, 250.0));
    assert!(!a.block_mode);
    assert_eq!(a.band_style(), BandStyle::Select);
}

fn drag(a: &mut App, from: Point, to: Point) -> Option<Rect> {
    let shown = rects(a);
    let l = layout();
    let start = PointerInput {
        drag_started: true,
        press_origin: Some(from),
        pos: Some(to),
        ..still()
    };
    assert_eq!(a.handle_pointer(&start, &shown, l), None);
    let moved = PointerInput { dragged: true, pos: Some(to), ..still() };
    assert_eq!(a.handle_pointer(&moved, &shown, l), None);
    let stop = PointerInput { drag_stopped: true, pos: Some(to), ..still() };
    a.handle_pointer(&stop, &shown, l)
}

#[test]
fn a_band_in_block_mode_blackens_once() {
    let mut a = app();
    a.block_mode = true;
    assert_eq!(drag(&mut a, at(150.0, 100.0), at(250.0, 150.0)), None);
    assert!(!a.block_mode);
    assert_eq!(rect_of(&overlays(&a)[0]), px_rect(50.0, 50.0, 100.0, 50.0));
    assert!(overlays(&a)[0].is_redact());
    // A slip does nothing, and the mode stays.
    a.block_mode = true;
    assert_eq!(drag(&mut a, at(500.0, 500.0), at(502.0, 600.0)), None);
    assert!(a.block_mode);
    assert_eq!(overlays(&a).len(), 1);
    assert_eq!(a.rubber_band, None);
}

#[test]
fn a_band_in_mark_mode_asks_for_words() {
    let mut a = app();
    a.mark_mode = true;
    let r = drag(&mut a, at(250.0, 150.0), at(150.0, 100.0));
    assert_eq!(r, Some(px_rect(50.0, 50.0, 100.0, 50.0)));
    assert!(a.mark_mode && overlays(&a).is_empty());
}

#[test]
fn a_band_selects_what_it_touches() {
    let mut a = app();
    add_redact(&mut a, 0.0, 0.0, 20.0, 20.0);
    add_redact(&mut a, 100.0, 100.0, 20.0, 20.0);
    add_redact(&mut a, 300.0, 300.0, 20.0, 20.0);
    assert_eq!(drag(&mut a, at(130.0, 80.0), at(210.0, 160.0)), None);
    assert_eq!(a.selected, vec![1]);
    assert_eq!(drag(&mut a, at(125.0, 55.0), at(500.0, 500.0)), None);
    assert_eq!(a.selected, vec![1, 2]);
}

#[test]
fn dragging_moves_the_selection() {
    let mut a = app();
    add_redact(&mut a, 0.0, 0.0, 20.0, 20.0);
    add_redact(&mut a, 100.0, 100.0, 20.0, 20.0);
    a.selected = vec![0, 1];
    drag(&mut a, at(110.0, 60.0), at(115.0, 67.0));
    assert_eq!(rect_of(&overlays(&a)[0]), px_rect(5.0, 7.0, 20.0, 20.0));
    assert_eq!(rect_of(&overlays(&a)[1]), px_rect(105.0, 107.0, 20.0, 20.0));
    assert!(a.drag_offsets.is_empty());
    // What is not selected becomes the selection, and moves alone.
    a.selected = vec![0];
    drag(&mut a, at(210.0, 160.0), at(211.0, 160.0));
    assert_eq!(a.selected, vec![1]);
    assert_eq!(rect_of(&overlays(&a)[0]), px_rect(5.0, 7.0, 20.0, 20.0));
    assert_eq!(rect_of(&overlays(&a)[1]), px_rect(106.0, 107.0, 20.0, 20.0));
}

fn click(a: &mut App, pos: Point, ctrl: bool) {
    let shown = rects(a);
    a.handle_click(&PointerInput { clicked: true, ctrl, pos: Some(pos), ..still() }, &shown);
}

#[test]
fn clicks_select() {
    let mut a = app();
    add_redact(&mut a, 0.0, 0.0, 20.0, 20.0);
    a.add_text_at("abc".to_string(), pt(100.0), pt(111.628));
    click(&mut a, at(110.0, 60.0), false);
    assert_eq!((a.selected.clone(), a.editing), (vec![0], None));
    click(&mut a, at(210.0, 155.0), true);
    assert_eq!((a.selected.clone(), a.editing), (vec![0, 1], None));
    click(&mut a, at(110.0, 60.0), true);
    assert_eq!(a.selected, vec![1]);
    click(&mut a, at(210.0, 155.0), false);
    assert_eq!((a.selected.clone(), a.editing), (vec![1], Some(1)));
    click(&mut a, at(600.0, 600.0), false);
    assert!(a.selected.is_empty());
}

fn typed(text: &str) -> EditInput {
    EditInput {
        text: text.to_string(),
        cursor_range: Some((1, 1)),
        esc: false,
        shift_enter: false,
        lost_focus: false,
    }
}

fn editing() -> App {
    let mut a = app();
    add_redact(&mut a, 0.0, 0.0, 20.0, 20.0);
    a.add_text_at("old".to_string(), 0, 0);
    add_redact(&mut a, 50.0, 50.0, 20.0, 20.0);
    a.selected = vec![2, 1, 0];
    a.editing = Some(1);
    a
}

#[test]
fn typing_changes_the_text() {
    let mut a = editing();
    a.handle_edit(Some(typed("new")));
    assert_eq!(text_of(&overlays(&a)[1]), "new");
    assert_eq!(a.edit_cursor_range, Some((1, 1)));
    assert!(a.editing_just_focused);
    assert_eq!(a.editing, Some(1));
}

#[test]
fn shift_enter_ends_without_its_line_break() {
    let mut a = editing();
    a.handle_edit(Some(EditInput { shift_enter: true, ..typed("one\ntwo\n") }));
    assert_eq!(text_of(&overlays(&a)[1]), "one\ntwo");
    assert_eq!(a.editing, None);
    assert!(a.selected.is_empty());
    assert_eq!(a.edit_cursor_range, None);
}

#[test]
fn losing_the_focus_keeps_the_selection() {
    let mut a = editing();
    a.handle_edit(Some(EditInput { lost_focus: true, ..typed("new") }));
    assert_eq!(a.editing, None);
    assert_eq!(a.selected, vec![2, 1, 0]);
    let mut a = editing();
    a.handle_edit(Some(EditInput { esc: true, ..typed("new") }));
    assert!(a.selected.is_empty());
}

#[test]
fn an_empty_text_is_removed() {
    let mut a = editing();
    a.handle_edit(Some(EditInput { shift_enter: true, ..typed("\n") }));
    assert_eq!(overlays(&a).len(), 2);
    assert!(overlays(&a).iter().all(Overlay::is_redact));
    assert_eq!(a.selected, vec![1, 0]);
    assert_eq!(a.editing, None);
}

#[test]
fn a_lost_overlay_closes_the_editor() {
    let mut a = editing();
    a.editing = Some(9);
    a.handle_edit(None);
    assert_eq!(a.editing, None);
    assert_eq!(overlays(&a).len(), 3);
    let mut a = app();
    a.handle_edit(None);
    assert_eq!(a.editing, None);
}

#[test]
fn the_header_tells_mode_size_and_selection() {
    let mut a = app();
    a.add_text_at("a".to_string(), 0, 0);
    a.add_text_at("b".to_string(), 0, 0);
    a.selected = vec![0, 1];
    a.block_mode = true;
    let header: Vec<(String, bool)> =
        a.header_segments().into_iter().map(|s| (s.text, s.accent)).collect();
    assert_eq!(
        header,
        vec![
            ("BLOCK".to_string(), true),
            ("12 pt".to_string(), false),
            ("2 selected".to_string(), false),
        ]
    );
    a.current = 1;
    assert_eq!(a.page_label(), "[2/3]");
}

#[test]
fn sizes_halfway_are_shown_even() {
    let mut a = app();
    for (size, shown) in [(12.5, "12 pt"), (13.5, "14 pt"), (13.4, "13 pt"), (13.6, "14 pt")] {
        a.text_size = pt(size);
        a.add_text_at("a".to_string(), 0, 0);
        assert_eq!(a.header_segments()[0].text, shown);
    }
}

#[test]
fn overlays_are_drawn_by_kind() {
    let mut a = app();
    a.add_text_at("a".to_string(), 0, 0);
    a.add_text_at("b".to_string(), 0, 0);
    add_redact(&mut a, 0.0, 0.0, 5.0, 5.0);
    a.add_marks(px_rect(50.0, 50.0, 5.0, 5.0), vec![]);
    a.add_signature_at(b"p".to_vec(), 1, 1, pt(300.0), pt(300.0));
    a.editing = Some(1);
    a.selected = vec![1, 2];
    let items = a.draw_overlays();
    let paints: Vec<Paint> = items.iter().map(|i| i.paint).collect();
    assert_eq!(paints, vec![Paint::Text, Paint::Nothing, Paint::Black, Paint::Rose, Paint::Image]);
    let outlined: Vec<bool> = items.iter().map(|i| i.outlined).collect();
    assert_eq!(outlined, vec![false, true, true, false, false]);
    a.show_redacts = false;
    assert_eq!(a.draw_overlays()[2].paint, Paint::Nothing);
}

#[test]
fn the_click_that_closes_a_menu_does_nothing_else() {
    let mut a = app();
    assert!(a.takes_pointer());
    a.add_text_at("a".to_string(), 0, 0);
    press(&mut a, vec![key(Key::C)], at(300.0, 250.0));
    assert_eq!(a.color_menu, Some(at(300.0, 250.0)));
    assert!(!a.takes_pointer());
    a.use_color_menu(Some(1), true, false);
    assert_eq!(a.color_menu, None);
    assert_eq!(a.first_selected_text_color(), Some([200, 30, 30]));
    assert!(!a.takes_pointer());
    assert!(a.takes_pointer());
    a.help_open = true;
    assert!(!a.takes_pointer());
}

#[test]
fn the_colour_picker() {
    let mut a = app();
    a.add_text_at("a".to_string(), 0, 0);
    press(&mut a, vec![key(Key::C)], at(300.0, 250.0));
    a.use_color_menu(None, false, true);
    assert_eq!((a.color_menu, a.color_menu_consume_click), (None, false));
    press(&mut a, vec![key(Key::C)], at(300.0, 250.0));
    a.use_color_menu(Some(3), true, false);
    assert_eq!(a.color_custom, Some(at(300.0, 250.0)));
    a.pick_color(Some([9, 8, 7]), false);
    assert_eq!(a.picker_color(), [9, 8, 7]);
    a.pick_color(None, true);
    assert_eq!(a.color_custom, None);
    assert!(a.color_menu_consume_click);
    // A second press of the key closes the menu.
    press(&mut a, vec![key(Key::C), key(Key::C)], at(300.0, 250.0));
    assert_eq!(a.color_menu, None);
    // Without a selected text it does not open.
    a.selected.clear();
    press(&mut a, vec![key(Key::C)], at(300.0, 250.0));
    assert_eq!(a.color_menu, None);
}

#[test]
fn signatures_are_placed_where_the_menu_opened() {
    let mut a = app();
    a.open_sig_menu(Some(at(50.0, 250.0)), layout().page_rect);
    assert_eq!(a.sig_menu, None);
    a.open_sig_menu(Some(at(300.0, 250.0)), layout().page_rect);
    assert_eq!(a.sig_menu, Some(at(300.0, 250.0)));
    let pick = a.release_sig_menu(Some(1), layout()).unwrap();
    assert_eq!(pick.path, b"/sigs/b.png".to_vec());
    assert_eq!(pick.at, at(200.0, 200.0));
    assert_eq!(a.sig_menu, None);
    assert!(a.release_sig_menu(Some(1), layout()).is_none());
    a.open_sig_menu(Some(at(300.0, 250.0)), layout().page_rect);
    assert!(a.release_sig_menu(None, layout()).is_none());
    assert_eq!(a.sig_menu, None);
}

#[test]
fn output_names_tell_redactions() {
    let mut a = app();
    assert_eq!(a.free_output_name(Some("in"), &vec![]), "in_signed.pdf");
    let taken = vec!["in_signed_1.pdf".to_string(), "in_signed.pdf".to_string(), "x".to_string()];
    assert_eq!(a.free_output_name(Some("in"), &taken), "in_signed_2.pdf");
    assert_eq!(a.free_output_name(None, &taken), "out_signed.pdf");
    a.current = 2;
    add_redact(&mut a, 0.0, 0.0, 5.0, 5.0);
    assert!(a.has_redact());
    let taken = vec!["in_masked.pdf".to_string(), "in_masked_1.pdf".to_string()];
    assert_eq!(a.free_output_name(Some("in_signed"), &taken), "in_masked_2.pdf");
}

#[test]
fn the_wheel_adds_up() {
    for (a_part, b_part) in [(pt(35.0), pt(50.0)), (pt(10.0), pt(20.0))] {
        let mut once = app();
        once.handle_wheel(-1, -a_part - b_part);
        let mut twice = app();
        twice.handle_wheel(-1, -a_part);
        twice.handle_wheel(-1, -b_part);
        assert_eq!((once.current, once.wheel_accum), (twice.current, twice.wheel_accum));
    }
}

#[test]
fn a_second_click_with_ctrl_undoes_the_first() {
    let mut a = app();
    add_redact(&mut a, 0.0, 0.0, 20.0, 20.0);
    add_redact(&mut a, 100.0, 100.0, 20.0, 20.0);
    a.selected = vec![1];
    click(&mut a, at(110.0, 60.0), true);
    assert_eq!(a.selected, vec![1, 0]);
    click(&mut a, at(110.0, 60.0), true);
    assert_eq!(a.selected, vec![1]);
}

#[test]
fn steps_of_size_go_back() {
    let mut a = app();
    a.adjust_size(7);
    a.adjust_size(-7);
    assert_eq!(a.text_size, pt(12.0));
}

#[test]
fn hiding_changes_no_overlay() {
    let mut a = app();
    add_redact(&mut a, 0.0, 0.0, 20.0, 20.0);
    press(&mut a, vec![key(Key::R)], at(300.0, 250.0));
    assert!(a.has_redact());
    assert_eq!(a.free_output_name(Some("in"), &vec![]), "in_masked.pdf");
    press(&mut a, vec![key(Key::R)], at(300.0, 250.0));
    assert!(a.show_redacts);
}

#[test]
fn very_tall_pictures_keep_their_shape() {
    let mut a = app();
    a.add_signature_at(b"tall.png".to_vec(), 1, 7_000_000, pt(200.0), pt(300.0));
    let placed = rect_of(&overlays(&a)[0]);
    assert_eq!((placed.w, placed.h), (pt(150.0), pt(1.05e9)));
    let mut a = app();
    a.pages[0].overlays.push(Overlay::Image {
        path: b"tall.png".to_vec(),
        x: 0,
        y: 0,
        w: pt(10.0),
        h: pt(1e9),
    });
    a.selected = vec![0];
    a.adjust_size(1);
    assert_eq!(rect_of(&overlays(&a)[0]), px_rect(0.0, 0.0, 10.625, 1.0625e9));
    a.adjust_size(-1);
    assert_eq!(rect_of(&overlays(&a)[0]), px_rect(0.0, 0.0, 10.0, 1e9));
}

#[test]
fn what_was_selected_is_selected_after_two_clicks_with_ctrl() {
    let mut a = app();
    add_redact(&mut a, 0.0, 0.0, 20.0, 20.0);
    add_redact(&mut a, 100.0, 100.0, 20.0, 20.0);
    a.selected = vec![0, 1];
    click(&mut a, at(110.0, 60.0), true);
    assert_eq!(a.selected, vec![1]);
    click(&mut a, at(110.0, 60.0), true);
    assert_eq!(a.selected, vec![1, 0]);
}

#[test]
fn never_two_modes() {
    let keys = [key(Key::B), shifted(Key::B), key(Key::Escape)];
    for i in 0..3 {
        for j in 0..3 {
            for k in 0..3 {
                let mut a = app();
                press(&mut a, vec![keys[i], keys[j], keys[k]], at(300.0, 250.0));
                assert!(!(a.block_mode && a.mark_mode));
            }
        }
    }
}

#[test]
fn rectangles_stop_where_positions_end() {
    let mut a = app();
    a.pages[0].overlays.push(Overlay::Redact {
        x: COORD_LIMIT - pt(20.0),
        y: 0,
        w: pt(20.0),
        h: pt(20.0),
    });
    a.selected = vec![0];
    a.duplicate_selected();
    assert_eq!(rect_of(&overlays(&a)[1]).x, COORD_LIMIT - pt(20.0));
    assert_eq!(rect_of(&overlays(&a)[1]).w, pt(20.0));
    a.adjust_size(1);
    assert_eq!(rect_of(&overlays(&a)[1]).w, pt(20.0));
    assert_eq!(rect_of(&overlays(&a)[1]).h, pt(21.25));
}
