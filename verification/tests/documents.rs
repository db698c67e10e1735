use epaint_default_fonts::UBUNTU_LIGHT;
use image::{DynamicImage, Rgb, RgbImage, Rgba, RgbaImage};
use lopdf::{Dictionary, Document, Object, ObjectId, Stream};
use pdfsigner::app::App;
use pdfsigner::content::{push_image, push_redact, push_text, PageSpace};
use pdfsigner::font::{
    embed_font, embed_inter_font, encode_text_for_inter, font_metrics, glyphs_for_text, inter_face,
    FontError, FontMetrics,
};
use pdfsigner::fontfile::is_plain_file;
use pdfsigner::load::{load_pdf_robust, Opened};
use pdfsigner::overlay::Overlay;
use pdfsigner::pagedict::{
    add_page_resource, page_resource_keys, read_page_media_box_origin, read_page_rotate,
    wrap_and_append_overlay,
};
use pdfsigner::pagetree::{is_tree_sound, take_pages_out};
use pdfsigner::picture::{embed_image, embed_pixels, PictureError};
use pdfsigner::drawing::{write_overlays_for_page, SaveError};
use pdfsigner::save::save;

fn pt(v: f64) -> i64 {
    (v * 10_000.0).round() as i64
}

fn dict(entries: Vec<(&str, Object)>) -> Dictionary {
    let mut d = Dictionary::new();
    for (k, v) in entries {
        d.set(k, v);
    }
    d
}

fn reals(v: &[f32]) -> Object {
    Object::Array(v.iter().map(|x| Object::Real(*x)).collect())
}

/// A document of A4 pages with nothing on them, and the numbers of the pages.
fn blank(n: usize) -> (Document, ObjectId, Vec<ObjectId>) {
    let mut doc = Document::with_version("1.5");
    let pages_id = doc.new_object_id();
    let mut ids = vec![];
    for _ in 0..n {
        ids.push(doc.add_object(dict(vec![
            ("Type", "Page".into()),
            ("Parent", pages_id.into()),
            ("MediaBox", vec![0.into(), 0.into(), 595.into(), 842.into()].into()),
        ])));
    }
    let kids: Vec<Object> = ids.iter().map(|id| (*id).into()).collect();
    doc.objects.insert(
        pages_id,
        dict(vec![("Type", "Pages".into()), ("Kids", kids.into()), ("Count", (n as i64).into())])
            .into(),
    );
    let catalog = doc.add_object(dict(vec![("Type", "Catalog".into()), ("Pages", pages_id.into())]));
    doc.trailer.set("Root", catalog);
    (doc, pages_id, ids)
}

fn page<'a>(doc: &'a Document, id: ObjectId) -> &'a Dictionary {
    doc.get_object(id).unwrap().as_dict().unwrap()
}

fn page_mut(doc: &mut Document, id: ObjectId) -> &mut Dictionary {
    doc.get_object_mut(id).unwrap().as_dict_mut().unwrap()
}

fn contents(doc: &Document, id: ObjectId) -> Vec<ObjectId> {
    page(doc, id)
        .get(b"Contents")
        .unwrap()
        .as_array()
        .unwrap()
        .iter()
        .map(|o| o.as_reference().unwrap())
        .collect()
}

fn stream_text(doc: &Document, id: ObjectId) -> String {
    let stream = doc.get_object(id).unwrap().as_stream().unwrap();
    String::from_utf8(stream.get_plain_content().unwrap()).unwrap()
}

/// The operators that were appended to a page.
fn overlay_text(doc: &Document, id: ObjectId) -> String {
    stream_text(doc, *contents(doc, id).last().unwrap())
}

fn resource(doc: &Document, id: ObjectId, kind: &[u8], name: &[u8]) -> ObjectId {
    let res = page(doc, id).get(b"Resources").unwrap().as_dict().unwrap();
    res.get(kind).unwrap().as_dict().unwrap().get(name).unwrap().as_reference().unwrap()
}

fn text(t: &str, x: f64, y: f64, size: f64) -> Overlay {
    Overlay::Text { text: t.to_string(), x: pt(x), y: pt(y), size_pt: pt(size), color: [0, 0, 0] }
}

fn redact(x: f64, y: f64, w: f64, h: f64) -> Overlay {
    Overlay::Redact { x: pt(x), y: pt(y), w: pt(w), h: pt(h) }
}

fn a4() -> (i64, i64) {
    (pt(595.0), pt(842.0))
}

fn save_all(doc: &mut Document, overlays: Vec<Vec<Overlay>>, filter: &str) -> Result<(), SaveError> {
    let font = inter_face(UBUNTU_LIGHT).ok().unwrap();
    let n = overlays.len();
    let pictures: Vec<Vec<Option<DynamicImage>>> =
        overlays.iter().map(|p| p.iter().map(|_| None).collect()).collect();
    save(doc, &overlays, &pictures, &vec![a4(); n], filter, &font)
}

fn hex(t: &str) -> String {
    let face = ttf_parser::Face::parse(UBUNTU_LIGHT, 0).unwrap();
    t.chars().map(|c| format!("{:04X}", face.glyph_index(c).map_or(0, |g| g.0))).collect()
}

#[test]
fn written_text_lands_on_the_preview_baseline() {
    let (mut doc, _, ids) = blank(1);
    assert!(save_all(&mut doc, vec![vec![text("BASELINE", 200.0, 100.0, 60.0)]], "").is_ok());
    // 842 - (100 + 60 * 0.969)
    assert_eq!(
        overlay_text(&doc, ids[0]),
        format!(
            "Q\nBT\n/F1 60.0000 Tf\n72.6000 TL\n0.0000 0.0000 0.0000 rg\n\
             200.0000 683.8600 Td\n<{}> Tj\nET\n",
            hex("BASELINE")
        )
    );
    let font = doc.get_object(resource(&doc, ids[0], b"Font", b"F1")).unwrap().as_dict().unwrap();
    assert_eq!(font.get(b"Subtype").unwrap().as_name().unwrap(), b"Type0");
}

#[test]
fn written_lines_are_a_line_height_apart() {
    let (mut doc, _, ids) = blank(1);
    assert!(save_all(&mut doc, vec![vec![text("HH\nHH", 150.0, 100.0, 60.0)]], "").is_ok());
    let ops = overlay_text(&doc, ids[0]);
    assert!(ops.contains("72.6000 TL\n"));
    assert!(ops.contains(&format!("<{0}> Tj\nT*\n<{0}> Tj\nET\n", hex("HH"))));
}

#[test]
fn an_empty_line_stays_a_line() {
    let (mut doc, _, ids) = blank(1);
    assert!(save_all(&mut doc, vec![vec![text("a\n\n", 0.0, 0.0, 10.0)]], "").is_ok());
    let ops = overlay_text(&doc, ids[0]);
    assert!(ops.ends_with(&format!("<{}> Tj\nT*\n<> Tj\nT*\n<> Tj\nET\n", hex("a"))));
}

#[test]
fn redactions_follow_the_turn_and_the_origin() {
    let (mut doc, _, ids) = blank(1);
    page_mut(&mut doc, ids[0]).set("Rotate", 90);
    page_mut(&mut doc, ids[0]).set("MediaBox", reals(&[0.0, 7.83, 595.5, 850.08]));
    let font = inter_face(UBUNTU_LIGHT).ok().unwrap();
    // Displayed on its side: 842 wide and 595 high.
    let sizes = vec![(pt(842.0), pt(595.0))];
    let overlays = vec![vec![redact(10.0, 20.0, 30.0, 40.0)]];
    assert!(save(&mut doc, &overlays, &vec![], &sizes, "", &font).is_ok());
    assert_eq!(
        overlay_text(&doc, ids[0]),
        "Q\nq\n0 0 0 rg\n20.0000 17.8300 40.0000 30.0000 re\nf\nQ\n"
    );
}

#[test]
fn marks_are_not_written_to_the_file() {
    let (mut doc, _, ids) = blank(1);
    let mark = Overlay::PendingMark { x: 0, y: 0, w: pt(10.0), h: pt(10.0) };
    assert!(save_all(&mut doc, vec![vec![mark, redact(0.0, 0.0, 5.0, 5.0)]], "").is_ok());
    assert_eq!(
        overlay_text(&doc, ids[0]),
        "Q\nq\n0 0 0 rg\n0.0000 837.0000 5.0000 5.0000 re\nf\nQ\n"
    );
}

#[test]
fn operators_to_the_letter() {
    let space = PageSpace {
        rotate: 0,
        mb_w: pt(100.0),
        mb_h: pt(200.0),
        x0: pt(1.0),
        y0: pt(2.0),
        page_h: pt(200.0),
    };
    let mut s = String::new();
    push_image(&mut s, &space, "Im3", pt(10.0), pt(20.0), pt(30.0), pt(40.0));
    assert_eq!(s, "q\n30.0000 0 0 40.0000 11.0000 142.0000 cm\n/Im3 Do\nQ\n");
    let mut s = String::new();
    push_text(
        &mut s,
        &space,
        "F2",
        &vec![vec![1, 0xabc], vec![]],
        pt(10.0),
        pt(20.0),
        pt(10.0),
        [255, 128, 1],
    );
    assert_eq!(
        s,
        "BT\n/F2 10.0000 Tf\n12.1000 TL\n1.0000 0.5020 0.0039 rg\n11.0000 172.3100 Td\n\
         <00010ABC> Tj\nT*\n<> Tj\nET\n"
    );
    let mut s = String::new();
    push_redact(&mut s, &space, pt(10.0), pt(20.0), pt(30.0), pt(40.0));
    assert_eq!(s, "q\n0 0 0 rg\n11.0000 142.0000 30.0000 40.0000 re\nf\nQ\n");
}

#[test]
fn the_content_of_a_page_is_kept() {
    let (mut doc, _, ids) = blank(3);
    let a = doc.add_object(Stream::new(Dictionary::new(), b"1 0 0 rg".to_vec()));
    let b = doc.add_object(Stream::new(Dictionary::new(), b"0 0 9 9 re f".to_vec()));
    page_mut(&mut doc, ids[0]).set("Contents", Object::Reference(a));
    page_mut(&mut doc, ids[1]).set("Contents", Object::Array(vec![a.into(), b.into()]));
    let before = doc.clone();
    let overlays = vec![
        vec![redact(0.0, 0.0, 5.0, 5.0)],
        vec![redact(0.0, 0.0, 5.0, 5.0)],
        vec![redact(0.0, 0.0, 5.0, 5.0)],
    ];
    assert!(save_all(&mut doc, overlays, "").is_ok());
    assert_eq!(contents(&doc, ids[0])[1..2], [a]);
    assert_eq!(contents(&doc, ids[0]).len(), 3);
    assert_eq!(contents(&doc, ids[1])[1..3], [a, b]);
    assert_eq!(contents(&doc, ids[2]).len(), 2);
    for id in &ids {
        let first = contents(&doc, *id)[0];
        assert_eq!(stream_text(&doc, first), "q\n");
        assert_eq!(page(&doc, *id).get(b"MediaBox").unwrap(), page(&before, *id).get(b"MediaBox").unwrap());
    }
    // Nothing else has changed.
    for (id, object) in &before.objects {
        if !ids.contains(id) {
            assert_eq!(doc.objects.get(id), Some(object));
        }
    }
}

#[test]
fn appending_an_overlay() {
    let (mut doc, _, ids) = blank(1);
    let overlay = doc.add_object(Stream::new(Dictionary::new(), b"Q\n".to_vec()));
    assert!(wrap_and_append_overlay(&mut doc, ids[0], overlay).is_ok());
    assert_eq!(contents(&doc, ids[0])[1], overlay);
    assert!(wrap_and_append_overlay(&mut doc, (999, 0), overlay).is_err());
    assert!(wrap_and_append_overlay(&mut doc, overlay, overlay).is_err());
}

#[test]
fn names_of_the_page_are_not_taken() {
    let (mut doc, _, ids) = blank(1);
    let fonts = doc.add_object(dict(vec![("F1", Object::Null), ("F2", Object::Null)]));
    let xobjects = dict(vec![("Im1", Object::Null)]);
    let resources = doc.add_object(dict(vec![
        ("Font", fonts.into()),
        ("XObject", xobjects.into()),
        ("ProcSet", vec!["PDF".into()].into()),
    ]));
    page_mut(&mut doc, ids[0]).set("Resources", Object::Reference(resources));
    let mut keys = page_resource_keys(&doc, ids[0], b"Font");
    keys.sort();
    assert_eq!(keys, vec![b"F1".to_vec(), b"F2".to_vec()]);
    assert!(page_resource_keys(&doc, ids[0], b"ExtGState").is_empty());
    assert!(page_resource_keys(&doc, ids[0], b"ProcSet").is_empty());
    assert!(page_resource_keys(&doc, (999, 0), b"Font").is_empty());

    let img = DynamicImage::ImageRgb8(RgbImage::from_pixel(1, 1, Rgb([1, 2, 3])));
    let overlays = vec![
        text("a", 0.0, 0.0, 10.0),
        Overlay::Image { path: vec![], x: 0, y: 0, w: pt(10.0), h: pt(10.0) },
        Overlay::Image { path: vec![], x: 0, y: 0, w: pt(10.0), h: pt(10.0) },
    ];
    let pictures = vec![None, Some(img.clone()), Some(img)];
    let font = inter_face(UBUNTU_LIGHT).ok().unwrap();
    let mut known = None;
    assert!(write_overlays_for_page(
        &mut doc, 0, ids[0], a4(), &overlays, &pictures, &font, &mut known
    )
    .is_ok());
    assert_eq!(Some(resource(&doc, ids[0], b"Font", b"F3")), known);
    assert_ne!(
        resource(&doc, ids[0], b"XObject", b"Im2"),
        resource(&doc, ids[0], b"XObject", b"Im3")
    );
    // What the page had is still there.
    let res = page(&doc, ids[0]).get(b"Resources").unwrap().as_dict().unwrap();
    assert!(res.has(b"ProcSet"));
    assert!(res.get(b"Font").unwrap().as_dict().unwrap().has(b"F1"));
    assert!(res.get(b"XObject").unwrap().as_dict().unwrap().has(b"Im1"));
    let ops = overlay_text(&doc, ids[0]);
    assert!(ops.contains("/F3 10.0000 Tf") && ops.contains("/Im2 Do") && ops.contains("/Im3 Do"));
}

#[test]
fn the_font_is_embedded_once() {
    let (mut doc, _, ids) = blank(2);
    let overlays = vec![vec![text("a", 0.0, 0.0, 10.0)], vec![text("b", 0.0, 0.0, 10.0)]];
    assert!(save_all(&mut doc, overlays, "").is_ok());
    assert_eq!(resource(&doc, ids[0], b"Font", b"F1"), resource(&doc, ids[1], b"Font", b"F1"));
}

#[test]
fn resources_are_added_beside_the_others() {
    let (mut doc, _, ids) = blank(1);
    assert!(add_page_resource(&mut doc, ids[0], b"Font", b"F1", (7, 0)).is_ok());
    assert!(add_page_resource(&mut doc, ids[0], b"Font", b"F2", (8, 0)).is_ok());
    assert_eq!(resource(&doc, ids[0], b"Font", b"F1"), (7, 0));
    assert_eq!(resource(&doc, ids[0], b"Font", b"F2"), (8, 0));
    // A reference that leads nowhere is an error.
    page_mut(&mut doc, ids[0]).set("Resources", Object::Reference((999, 0)));
    assert!(add_page_resource(&mut doc, ids[0], b"Font", b"F3", (7, 0)).is_err());
}

#[test]
fn turns_are_inherited() {
    let (mut doc, pages_id, ids) = blank(1);
    assert_eq!(read_page_rotate(&doc, ids[0]), 0);
    page_mut(&mut doc, pages_id).set("Rotate", -90);
    assert_eq!(read_page_rotate(&doc, ids[0]), 270);
    page_mut(&mut doc, ids[0]).set("Rotate", 450);
    assert_eq!(read_page_rotate(&doc, ids[0]), 90);
    page_mut(&mut doc, ids[0]).set("Rotate", 45);
    assert_eq!(read_page_rotate(&doc, ids[0]), 0);
    // What is no integer is looked for further up; a circle ends.
    page_mut(&mut doc, ids[0]).set("Rotate", Object::Real(90.0));
    assert_eq!(read_page_rotate(&doc, ids[0]), 270);
    page_mut(&mut doc, pages_id).set("Rotate", Object::Null);
    page_mut(&mut doc, pages_id).set("Parent", Object::Reference(ids[0]));
    assert_eq!(read_page_rotate(&doc, ids[0]), 0);
    assert_eq!(read_page_rotate(&doc, (999, 0)), 0);
}

#[test]
fn origins_are_inherited() {
    let (mut doc, pages_id, ids) = blank(1);
    assert_eq!(read_page_media_box_origin(&doc, ids[0]), (0, 0));
    page_mut(&mut doc, ids[0]).set("MediaBox", reals(&[0.0, 7.83, 595.5, 850.08]));
    assert_eq!(read_page_media_box_origin(&doc, ids[0]), (0, 78_300));
    page_mut(&mut doc, ids[0]).set("MediaBox", vec![(-3).into(), "x".into()]);
    assert_eq!(read_page_media_box_origin(&doc, ids[0]), (-30_000, 0));
    page_mut(&mut doc, ids[0]).remove(b"MediaBox");
    page_mut(&mut doc, pages_id).set("MediaBox", vec![1.into(), Object::Real(-2.5)]);
    assert_eq!(read_page_media_box_origin(&doc, ids[0]), (10_000, -25_000));
    page_mut(&mut doc, pages_id).set("MediaBox", vec![1.into()]);
    assert_eq!(read_page_media_box_origin(&doc, ids[0]), (0, 0));
}

#[test]
fn translucent_pictures_get_a_mask() {
    let (mut doc, _, _) = blank(1);
    let mut img = RgbaImage::from_pixel(2, 1, Rgba([10, 20, 30, 255]));
    img.put_pixel(1, 0, Rgba([40, 50, 60, 7]));
    let id = embed_image(&mut doc, &DynamicImage::ImageRgba8(img)).ok().unwrap();
    let stream = doc.get_object(id).unwrap().as_stream().unwrap().clone();
    assert_eq!(stream.dict.get(b"Width").unwrap().as_i64().unwrap(), 2);
    assert_eq!(stream.dict.get(b"Height").unwrap().as_i64().unwrap(), 1);
    assert_eq!(stream.dict.get(b"ColorSpace").unwrap().as_name().unwrap(), b"DeviceRGB");
    assert_eq!(inflate(&stream), vec![10, 20, 30, 40, 50, 60]);
    let mask = stream.dict.get(b"SMask").unwrap().as_reference().unwrap();
    let mask = doc.get_object(mask).unwrap().as_stream().unwrap().clone();
    assert_eq!(mask.dict.get(b"ColorSpace").unwrap().as_name().unwrap(), b"DeviceGray");
    assert_eq!(inflate(&mask), vec![255, 7]);
}

#[test]
fn opaque_pictures_get_no_mask() {
    let (mut doc, _, _) = blank(1);
    let before = doc.max_id;
    let id = embed_pixels(&mut doc, 1, 1, &vec![[1, 2, 3, 255]]).unwrap();
    assert_eq!(id, (before + 1, 0));
    let stream = doc.get_object(id).unwrap().as_stream().unwrap();
    assert!(!stream.dict.has(b"SMask"));
    assert_eq!(inflate(stream), vec![1, 2, 3]);
    // Grey becomes colour.
    let grey = DynamicImage::ImageLuma8(image::GrayImage::from_pixel(1, 1, image::Luma([9])));
    let id = embed_image(&mut doc, &grey).ok().unwrap();
    assert_eq!(inflate(doc.get_object(id).unwrap().as_stream().unwrap()), vec![9, 9, 9]);
}

fn inflate(stream: &Stream) -> Vec<u8> {
    let mut plain = stream.clone();
    plain.dict.remove(b"Subtype");
    plain.get_plain_content().unwrap()
}

#[test]
fn fonts_are_read() {
    let face = ttf_parser::Face::parse(UBUNTU_LIGHT, 0).unwrap();
    let font = inter_face(UBUNTU_LIGHT).ok().unwrap();
    let m = font_metrics(&font);
    assert_eq!(m.units_per_em, face.units_per_em());
    assert_eq!(m.x_max, face.global_bounding_box().x_max);
    assert_eq!(m.y_min, face.global_bounding_box().y_min);
    assert_eq!((m.ascender, m.descender), (face.ascender(), face.descender()));
    assert_eq!(m.capital_height, face.capital_height());
    assert_eq!(m.advances.len(), face.number_of_glyphs() as usize);
    let a = face.glyph_index('A').unwrap();
    assert_eq!(m.advances[a.0 as usize], face.glyph_hor_advance(a).unwrap());
    assert_eq!(glyphs_for_text(&font, "A\u{10fffd}"), vec![a.0, 0]);
    assert_eq!(encode_text_for_inter(&font, "Aé"), hex("Aé"));
    assert!(matches!(inter_face(b"no font"), Err(FontError::Unreadable(_))));
}

/// Where a table of the font file begins.
fn table_at(ttf: &[u8], tag: &[u8]) -> usize {
    let count = u16::from_be_bytes([ttf[4], ttf[5]]) as usize;
    let record = (0..count).map(|i| 12 + 16 * i).find(|r| &ttf[*r..*r + 4] == tag).unwrap();
    u32::from_be_bytes([ttf[record + 8], ttf[record + 9], ttf[record + 10], ttf[record + 11]])
        as usize
}

#[test]
fn a_font_must_tell_its_descent() {
    let mut ttf = UBUNTU_LIGHT.to_vec();
    let hhea = table_at(&ttf, b"hhea");
    let os2 = table_at(&ttf, b"OS/2");
    ttf[hhea + 6..hhea + 8].copy_from_slice(&[0, 0]);
    ttf[os2 + 76..os2 + 78].copy_from_slice(&[0x80, 0]);
    assert!(inter_face(&ttf).is_ok());
    assert!(font_metrics(&inter_face(&ttf).ok().unwrap()).descender < 0);
    ttf[os2 + 70..os2 + 72].copy_from_slice(&[0, 0]);
    assert!(matches!(inter_face(&ttf), Err(FontError::NoDescent)));
}

#[test]
fn fonts_are_embedded_with_their_metrics() {
    let (mut doc, _, _) = blank(1);
    let metrics = FontMetrics {
        units_per_em: 2048,
        x_min: -100,
        y_min: -512,
        x_max: 2048,
        y_max: 1024,
        ascender: 1900,
        descender: -500,
        capital_height: None,
        advances: vec![1024, 128, 0],
    };
    let before = doc.max_id;
    let id = embed_font(&mut doc, b"not really a font", &metrics);
    assert_eq!(id, (before + 4, 0));
    let font = doc.get_object(id).unwrap().as_dict().unwrap();
    assert_eq!(font.get(b"Encoding").unwrap().as_name().unwrap(), b"Identity-H");
    let cid = font.get(b"DescendantFonts").unwrap().as_array().unwrap()[0].as_reference().unwrap();
    let cid = doc.get_object(cid).unwrap().as_dict().unwrap();
    assert_eq!(
        cid.get(b"W").unwrap(),
        &Object::Array(vec![0.into(), vec![500.into(), 63.into(), 0.into()].into()])
    );
    let info = cid.get(b"CIDSystemInfo").unwrap().as_dict().unwrap();
    assert_eq!(info.get(b"Registry").unwrap().as_str().unwrap(), b"Adobe");
    let desc = cid.get(b"FontDescriptor").unwrap().as_reference().unwrap();
    let desc = doc.get_object(desc).unwrap().as_dict().unwrap();
    assert_eq!(
        desc.get(b"FontBBox").unwrap(),
        &Object::Array(vec![(-49).into(), (-250).into(), 1000.into(), 500.into()])
    );
    assert_eq!(desc.get(b"Ascent").unwrap().as_i64().unwrap(), 928);
    assert_eq!(desc.get(b"Descent").unwrap().as_i64().unwrap(), -244);
    assert_eq!(desc.get(b"CapHeight").unwrap().as_i64().unwrap(), 728);
    let file = desc.get(b"FontFile2").unwrap().as_reference().unwrap();
    let file = doc.get_object(file).unwrap().as_stream().unwrap();
    assert_eq!(file.dict.get(b"Length1").unwrap().as_i64().unwrap(), 17);
    assert_eq!(file.get_plain_content().unwrap(), b"not really a font");
}

#[test]
fn a_font_file_is_packed() {
    let (mut doc, _, _) = blank(1);
    let font = inter_face(UBUNTU_LIGHT).ok().unwrap();
    let id = embed_inter_font(&mut doc, &font);
    let file = doc.get_object((id.0 - 3, 0)).unwrap().as_stream().unwrap();
    assert!(file.content.len() < UBUNTU_LIGHT.len());
    assert_eq!(file.dict.get(b"Filter").unwrap().as_name().unwrap(), b"FlateDecode");
    assert_eq!(file.get_plain_content().unwrap(), UBUNTU_LIGHT);
}

#[test]
fn a_filter_keeps_its_pages() {
    let (mut doc, pages_id, ids) = blank(4);
    let overlays: Vec<Vec<Overlay>> = (0..4).map(|_| vec![redact(0.0, 0.0, 5.0, 5.0)]).collect();
    assert!(save_all(&mut doc, overlays, "2,4").is_ok());
    let left: Vec<ObjectId> = doc.get_pages().into_values().collect();
    assert_eq!(left, vec![ids[1], ids[3]]);
    assert!(!doc.has_object(ids[0]) && !doc.has_object(ids[2]));
    assert_eq!(page(&doc, pages_id).get(b"Count").unwrap().as_i64().unwrap(), 2);
    assert!(overlay_text(&doc, ids[1]).starts_with("Q\n"));
    assert!(overlay_text(&doc, ids[3]).starts_with("Q\n"));
}

#[test]
fn pages_without_overlays_stay_as_they_are() {
    let (mut doc, _, ids) = blank(2);
    let overlays = vec![vec![], vec![redact(0.0, 0.0, 5.0, 5.0)]];
    assert!(save_all(&mut doc, overlays, "").is_ok());
    assert!(!page(&doc, ids[0]).has(b"Contents"));
    assert!(page(&doc, ids[1]).has(b"Contents"));
}

#[test]
fn a_page_without_a_size_is_a4() {
    let (mut doc, _, ids) = blank(1);
    let font = inter_face(UBUNTU_LIGHT).ok().unwrap();
    let overlays = vec![vec![redact(0.0, 0.0, 5.0, 5.0)]];
    assert!(save(&mut doc, &overlays, &vec![], &vec![], "", &font).is_ok());
    assert!(overlay_text(&doc, ids[0]).contains("0.0000 837.0000 5.0000 5.0000 re"));
}

#[test]
fn a_filter_that_selects_nothing_is_an_error() {
    let (mut doc, _, _) = blank(2);
    match save_all(&mut doc, vec![], "7") {
        Err(SaveError::Filter(e)) => {
            assert_eq!(e.message(), "Pages filter '7' selects no pages")
        }
        _ => panic!("saved"),
    }
}

#[test]
fn a_missing_picture_is_an_error() {
    let (mut doc, _, _) = blank(2);
    let image = Overlay::Image { path: vec![], x: 0, y: 0, w: pt(10.0), h: pt(10.0) };
    let overlays = vec![vec![], vec![redact(0.0, 0.0, 5.0, 5.0), image]];
    assert!(matches!(
        save_all(&mut doc, overlays, ""),
        Err(SaveError::Picture { page: 1, overlay: 1 })
    ));
}

#[test]
fn a_broken_page_is_an_error() {
    let (mut doc, _, ids) = blank(1);
    page_mut(&mut doc, ids[0]).set("Resources", Object::Reference((999, 0)));
    let r = save_all(&mut doc, vec![vec![text("a", 0.0, 0.0, 10.0)]], "");
    assert!(matches!(r, Err(SaveError::Pdf(lopdf::Error::ObjectNotFound))));
    let stream = contents(&doc, ids[0])[0];
    page_mut(&mut doc, ids[0]).set("Resources", Object::Reference(stream));
    let r = save_all(&mut doc, vec![vec![text("a", 0.0, 0.0, 10.0)]], "");
    assert!(matches!(r, Err(SaveError::Pdf(lopdf::Error::Type))));
}

#[test]
fn a_full_document_is_an_error() {
    let full = |left: u32, overlay: Overlay| {
        let (mut doc, _, _) = blank(1);
        doc.max_id = u32::MAX - left;
        save_all(&mut doc, vec![vec![overlay]], "")
    };
    // A redaction takes two numbers, a text two and four for the font.
    assert!(matches!(full(1, redact(0.0, 0.0, 5.0, 5.0)), Err(SaveError::Full)));
    assert!(full(2, redact(0.0, 0.0, 5.0, 5.0)).is_ok());
    assert!(matches!(full(5, text("a", 0.0, 0.0, 10.0)), Err(SaveError::Full)));
    assert!(full(6, text("a", 0.0, 0.0, 10.0)).is_ok());
}

#[test]
fn pictures_take_as_many_numbers_as_they_need() {
    let opaque = DynamicImage::ImageRgb8(RgbImage::from_pixel(1, 1, Rgb([1, 2, 3])));
    let clear = DynamicImage::ImageRgba8(RgbaImage::from_pixel(1, 1, Rgba([1, 2, 3, 4])));
    let (mut doc, _, _) = blank(1);
    doc.max_id = u32::MAX - 1;
    assert!(matches!(embed_image(&mut doc, &clear), Err(PictureError::Full)));
    assert_eq!(doc.max_id, u32::MAX - 1);
    assert!(embed_image(&mut doc, &opaque).is_ok());
    assert!(matches!(embed_image(&mut doc, &opaque), Err(PictureError::Full)));
}

#[test]
fn a_page_tree_in_a_circle_is_an_error() {
    let (mut doc, pages_id, ids) = blank(2);
    assert!(is_tree_sound(&doc, &vec![1, 2]));
    page_mut(&mut doc, pages_id).set("Parent", Object::Reference(pages_id));
    assert!(!is_tree_sound(&doc, &vec![1]));
    assert!(is_tree_sound(&doc, &vec![]));
    assert!(matches!(save_all(&mut doc, vec![], "1"), Err(SaveError::PageTree)));
    assert!(doc.has_object(ids[1]));
    assert!(!take_pages_out(&mut doc, &vec![1]));
    // All pages kept: nothing is taken out.
    assert!(save_all(&mut doc, vec![], "1-2").is_ok());
}

#[test]
fn circles_above_kept_pages_do_not_matter() {
    let (mut doc, _, ids) = blank(2);
    page_mut(&mut doc, ids[0]).set("Parent", Object::Reference(ids[0]));
    let loose = doc.add_object(dict(vec![("Type", "Pages".into())]));
    page_mut(&mut doc, loose).set("Parent", Object::Reference(loose));
    page_mut(&mut doc, ids[0]).set("Parent", Object::Reference(loose));
    assert!(save_all(&mut doc, vec![], "1").is_ok());
    assert_eq!(doc.get_pages().into_values().collect::<Vec<_>>(), vec![ids[0]]);
}

#[test]
fn absurd_page_counts_are_told() {
    let (mut doc, pages_id, ids) = blank(2);
    let count = doc.add_object(i64::MAX);
    page_mut(&mut doc, pages_id).set("Count", Object::Reference(count));
    assert!(!is_tree_sound(&doc, &vec![1]));
    page_mut(&mut doc, pages_id).set("Count", 2);
    // A count of anything else does not matter.
    doc.add_object(dict(vec![("Type", "Outlines".into()), ("Count", i64::MAX.into())]));
    assert!(take_pages_out(&mut doc, &vec![1, 9]));
    assert_eq!(doc.get_pages().into_values().collect::<Vec<_>>(), vec![ids[1]]);
}

#[test]
fn the_filter_gives_the_order_of_the_source() {
    let (mut doc, _, ids) = blank(5);
    assert!(save_all(&mut doc, vec![], "4,1-2").is_ok());
    assert_eq!(doc.get_pages().into_values().collect::<Vec<_>>(), vec![ids[0], ids[1], ids[3]]);
    let (mut doc, _, ids) = blank(3);
    assert!(save_all(&mut doc, vec![vec![text("a", 0.0, 0.0, 9.0)]], "").is_ok());
    assert_eq!(doc.get_pages().into_values().collect::<Vec<_>>(), ids);
}

#[test]
fn what_refers_to_a_dropped_page_is_stripped() {
    let (mut doc, _, ids) = blank(2);
    let info = doc.add_object(dict(vec![("Title", Object::string_literal("t"))]));
    doc.trailer.set("Info", info);
    doc.trailer.set("ID", vec![Object::string_literal("a")]);
    let dest = doc.add_object(dict(vec![
        ("D", vec![ids[0].into(), "Fit".into()].into()),
        ("Next", ids[0].into()),
        ("Title", Object::string_literal("x")),
    ]));
    doc.trailer.set("Extra", dest);
    let before = doc.clone();
    assert!(save_all(&mut doc, vec![], "2").is_ok());
    assert_eq!(doc.trailer, before.trailer);
    assert_eq!(doc.objects.get(&info), before.objects.get(&info));
    let left = page(&doc, dest);
    assert_eq!(left.get(b"D").unwrap(), &Object::Array(vec!["Fit".into()]));
    assert!(!left.has(b"Next") && left.has(b"Title"));
}

#[test]
fn inherited_resources_stay_in_effect() {
    let (mut doc, pages_id, ids) = blank(1);
    let fonts = dict(vec![("F1", Object::Reference((77, 0)))]);
    page_mut(&mut doc, pages_id).set("Resources", dict(vec![("Font", fonts.into())]));
    assert_eq!(page_resource_keys(&doc, ids[0], b"Font"), vec![b"F1".to_vec()]);
    assert!(add_page_resource(&mut doc, ids[0], b"Font", b"F2", (7, 0)).is_ok());
    assert_eq!(resource(&doc, ids[0], b"Font", b"F1"), (77, 0));
    assert_eq!(resource(&doc, ids[0], b"Font", b"F2"), (7, 0));
    // The parent keeps what it has, and a page that has its own keeps to them.
    let up = page(&doc, pages_id).get(b"Resources").unwrap().as_dict().unwrap();
    assert!(!up.get(b"Font").unwrap().as_dict().unwrap().has(b"F2"));
    // Inherited resources that cannot be read count as none.
    let (mut doc, pages_id, ids) = blank(1);
    page_mut(&mut doc, pages_id).set("Resources", Object::Reference((999, 0)));
    assert!(add_page_resource(&mut doc, ids[0], b"Font", b"F1", (7, 0)).is_ok());
    assert_eq!(resource(&doc, ids[0], b"Font", b"F1"), (7, 0));
}

#[test]
fn content_behind_a_reference_to_an_array_is_spread_out() {
    let (mut doc, _, ids) = blank(1);
    let a = doc.add_object(Stream::new(Dictionary::new(), b"1 0 0 rg".to_vec()));
    let b = doc.add_object(Stream::new(Dictionary::new(), b"0 0 9 9 re f".to_vec()));
    let list = doc.add_object(Object::Array(vec![a.into(), b.into()]));
    page_mut(&mut doc, ids[0]).set("Contents", Object::Reference(list));
    assert!(save_all(&mut doc, vec![vec![redact(0.0, 0.0, 5.0, 5.0)]], "").is_ok());
    assert_eq!(contents(&doc, ids[0])[1..3], [a, b]);
    assert_eq!(contents(&doc, ids[0]).len(), 4);
}

#[test]
fn pages_are_written_as_without_their_marks() {
    let font = inter_face(UBUNTU_LIGHT).ok().unwrap();
    let mark = || Overlay::PendingMark { x: 0, y: 0, w: pt(10.0), h: pt(10.0) };
    let img = DynamicImage::ImageRgb8(RgbImage::from_pixel(1, 1, Rgb([1, 2, 3])));
    let image = || Overlay::Image { path: vec![], x: 0, y: 0, w: pt(10.0), h: pt(10.0) };
    let (mut with, _, _) = blank(1);
    let overlays = vec![vec![mark(), text("a", 1.0, 2.0, 9.0), mark(), image(), mark()]];
    let pictures = vec![vec![None, None, None, Some(img.clone())]];
    assert!(save(&mut with, &overlays, &pictures, &vec![a4()], "", &font).is_ok());
    let (mut less, _, _) = blank(1);
    let overlays = vec![vec![text("a", 1.0, 2.0, 9.0), image()]];
    let pictures = vec![vec![None, Some(img)]];
    assert!(save(&mut less, &overlays, &pictures, &vec![a4()], "", &font).is_ok());
    assert_eq!(with.objects, less.objects);
}

#[test]
fn documents_are_taken_or_normalised() {
    let (mut doc, _, ids) = blank(1);
    let mut bytes = vec![];
    doc.save_to(&mut bytes).unwrap();
    match load_pdf_robust(Document::load_mem(&bytes), false, false) {
        Opened::Document(d) => {
            assert_eq!(d.get_pages().into_values().collect::<Vec<_>>(), ids)
        }
        _ => panic!("not loaded"),
    }
    let broken = || Document::load_mem(b"no document");
    assert!(matches!(load_pdf_robust(broken(), false, true), Opened::NoNormaliser(_)));
    assert!(matches!(load_pdf_robust(broken(), false, false), Opened::NoNormaliser(_)));
    assert!(matches!(load_pdf_robust(broken(), true, false), Opened::PathNotUtf8(_)));
    assert!(matches!(
        load_pdf_robust(broken(), true, true),
        Opened::Normalise(lopdf::Error::Header)
    ));
}

#[test]
fn the_state_is_saved() {
    let (mut doc, _, ids) = blank(2);
    let font = inter_face(UBUNTU_LIGHT).ok().unwrap();
    let mut app = App::new(true, vec![]);
    app.open_pdf(b"/tmp/in.pdf".to_vec(), &vec![a4(), a4()]);
    app.pages[1].overlays.push(redact(0.0, 0.0, 5.0, 5.0));
    app.show_redacts = false;
    app.pages_filter = "2".to_string();
    assert!(app.save(&mut doc, &vec![], &font).is_ok());
    assert_eq!(doc.get_pages().into_values().collect::<Vec<_>>(), vec![ids[1]]);
    assert!(overlay_text(&doc, ids[1]).contains("0.0000 837.0000 5.0000 5.0000 re"));
    let (overlays, sizes) = app.pages_to_save();
    assert_eq!(overlays.iter().map(|p| p.len()).collect::<Vec<_>>(), vec![0, 1]);
    assert_eq!(sizes, vec![a4(), a4()]);
}

#[test]
fn metadata_is_kept() {
    let (mut doc, _, _) = blank(1);
    let info = doc.add_object(dict(vec![("Title", Object::string_literal("contract"))]));
    doc.trailer.set("Info", info);
    doc.trailer.set("ID", vec![Object::string_literal("a"), Object::string_literal("b")]);
    let before = doc.clone();
    assert!(save_all(&mut doc, vec![vec![text("a", 0.0, 0.0, 10.0)]], "").is_ok());
    assert_eq!(doc.trailer, before.trailer);
    assert_eq!(doc.objects.get(&info), before.objects.get(&info));
}

#[test]
fn paths_of_pictures_are_not_stored() {
    let img = DynamicImage::ImageRgb8(RgbImage::from_pixel(2, 2, Rgb([1, 2, 3])));
    let font = inter_face(UBUNTU_LIGHT).ok().unwrap();
    let mut saved = vec![];
    for path in ["/home/a/secret.png", "x"] {
        let (mut doc, _, _) = blank(1);
        let image = Overlay::Image {
            path: path.as_bytes().to_vec(),
            x: 0,
            y: 0,
            w: pt(10.0),
            h: pt(10.0),
        };
        let pictures = vec![vec![Some(img.clone())]];
        assert!(save(&mut doc, &vec![vec![image]], &pictures, &vec![a4()], "", &font).is_ok());
        saved.push(doc.objects);
    }
    assert_eq!(saved[0], saved[1]);
}

#[test]
fn texts_are_encoded_in_parts() {
    let font = inter_face(UBUNTU_LIGHT).ok().unwrap();
    let whole = encode_text_for_inter(&font, "Unterschrift");
    let parts = encode_text_for_inter(&font, "Unter") + &encode_text_for_inter(&font, "schrift");
    assert_eq!(whole, parts);
    assert_eq!(whole.len(), 4 * 12);
}

#[test]
fn references_are_followed_but_not_for_ever() {
    let (mut doc, _, ids) = blank(1);
    let alias = doc.add_object(Object::Reference(ids[0]));
    page_mut(&mut doc, ids[0]).set("Rotate", 90);
    assert_eq!(read_page_rotate(&doc, alias), 90);
    let circle = doc.new_object_id();
    doc.objects.insert(circle, Object::Reference(circle));
    assert_eq!(read_page_rotate(&doc, circle), 0);
    let r = add_page_resource(&mut doc, circle, b"Font", b"F1", (1, 0));
    assert!(matches!(r, Err(lopdf::Error::ReferenceLimit)));
}

/// Where the entry of a table in the directory of the font file begins.
fn entry_at(ttf: &[u8], tag: &[u8]) -> usize {
    let count = u16::from_be_bytes([ttf[4], ttf[5]]) as usize;
    (0..count).map(|i| 12 + 16 * i).find(|r| &ttf[*r..*r + 4] == tag).unwrap()
}

#[test]
fn collections_and_variable_fonts_are_not_plain() {
    let mut collection = b"ttcf".to_vec();
    collection.extend_from_slice(&[0, 1, 0, 0, 0xff, 0xff, 0xff, 0xff]);
    assert!(!is_plain_file(&collection));
    assert!(matches!(inter_face(&collection), Err(FontError::NotPlain)));
    assert!(is_plain_file(UBUNTU_LIGHT));
    for tag in [b"fvar", b"HVAR", b"COLR", b"kerx"] {
        let mut ttf = UBUNTU_LIGHT.to_vec();
        let name = entry_at(&ttf, b"name");
        ttf[name..name + 4].copy_from_slice(tag);
        assert!(matches!(inter_face(&ttf), Err(FontError::NotPlain)));
    }
    let mut crowded = vec![0; 12 + 16 * 65_535];
    crowded[..6].copy_from_slice(&[0, 1, 0, 0, 0xff, 0xff]);
    assert!(matches!(inter_face(&crowded), Err(FontError::NotPlain)));
    crowded[5] = 0xfe;
    assert!(matches!(inter_face(&crowded), Err(FontError::Unreadable(_))));
    assert!(is_plain_file(b""));
    assert!(matches!(inter_face(b""), Err(FontError::Unreadable(_))));
}

/// The font file with another character map, of one subtable.
fn with_map(subtable: &[u8]) -> Vec<u8> {
    let mut ttf = UBUNTU_LIGHT.to_vec();
    let entry = entry_at(&ttf, b"cmap");
    let start = ttf.len() as u32;
    let mut map = vec![0, 0, 0, 1, 0, 3, 0, 10, 0, 0, 0, 12];
    map.extend_from_slice(subtable);
    ttf[entry + 8..entry + 12].copy_from_slice(&start.to_be_bytes());
    ttf[entry + 12..entry + 16].copy_from_slice(&(map.len() as u32).to_be_bytes());
    ttf.extend_from_slice(&map);
    ttf
}

#[test]
fn character_maps_count_what_they_hold() {
    // One group: from 'A' to 'C', from glyph 7 on.
    let mut groups = vec![0, 12, 0, 0, 0, 0, 0, 28, 0, 0, 0, 0, 0, 0, 0, 1];
    groups.extend_from_slice(&[0, 0, 0, 65, 0, 0, 0, 67, 0, 0, 0, 7]);
    let ttf = with_map(&groups);
    let font = inter_face(&ttf).ok().unwrap();
    assert_eq!(glyphs_for_text(&font, "ABCD"), vec![7, 8, 9, 0]);
    for format in [12, 13] {
        groups[1] = format;
        groups[12..16].copy_from_slice(&[0, 0, 0, 2]);
        assert!(matches!(inter_face(&with_map(&groups)), Err(FontError::NotPlain)));
        groups[12..16].copy_from_slice(&[0xff, 0xff, 0xff, 0xff]);
        assert!(matches!(inter_face(&with_map(&groups)), Err(FontError::NotPlain)));
    }
    let mut array = vec![0, 10, 0, 0, 0, 0, 0, 22, 0, 0, 0, 0, 0, 0, 0, 65, 0, 0, 0, 1, 0, 5];
    assert!(inter_face(&with_map(&array)).is_ok());
    array[16] = 0xff;
    assert!(matches!(inter_face(&with_map(&array)), Err(FontError::NotPlain)));
    let variations = [0, 14, 0, 0, 0, 10, 0xff, 0xff, 0xff, 0xff];
    assert!(matches!(inter_face(&with_map(&variations)), Err(FontError::NotPlain)));
}

#[test]
fn layout_tables_point_to_no_variations() {
    let mut ttf = UBUNTU_LIGHT.to_vec();
    let entry = entry_at(&ttf, b"name");
    let start = ttf.len() as u32;
    ttf[entry + 8..entry + 12].copy_from_slice(&start.to_be_bytes());
    ttf[entry + 12..entry + 16].copy_from_slice(&18u32.to_be_bytes());
    ttf.extend_from_slice(&[0, 1, 0, 3, 0, 0, 0, 0, 0, 0, 0, 0, 0, 0, 0, 0, 0, 0]);
    let at = start as usize;
    for (tag, pointer) in [(b"GDEF", at + 17), (b"GSUB", at + 13), (b"GPOS", at + 13)] {
        ttf[entry..entry + 4].copy_from_slice(tag);
        assert!(is_plain_file(&ttf));
        ttf[pointer] = 1;
        assert!(!is_plain_file(&ttf));
        ttf[pointer] = 0;
    }
}

#[test]
fn kids_that_name_nothing_are_passed_over() {
    let (mut doc, pages_id, ids) = blank(3);
    let note = doc.add_object(dict(vec![("Type", "Note".into())]));
    let bare = doc.add_object(dict(vec![("Type", "Pages".into()), ("Parent", pages_id.into())]));
    let missing = doc.new_object_id();
    // The walk looks at no more items than there are objects.
    doc.add_object(Object::Null);
    doc.add_object(Object::Null);
    page_mut(&mut doc, pages_id).set(
        "Kids",
        vec![
            Object::Reference(missing),
            ids[0].into(),
            Object::Null,
            note.into(),
            ids[1].into(),
            bare.into(),
            Object::Array(vec![ids[1].into()]),
            ids[2].into(),
        ],
    );
    let overlays = vec![vec![], vec![], vec![text("a", 0.0, 0.0, 10.0)]];
    assert!(save_all(&mut doc, overlays, "1,3").is_ok());
    assert_eq!(doc.get_pages().into_values().collect::<Vec<_>>(), vec![ids[0], ids[2]]);
    assert!(overlay_text(&doc, ids[2]).contains(" Tj"));
    let kids = page(&doc, pages_id).get(b"Kids").unwrap().as_array().unwrap().len();
    assert_eq!(kids, 7);
}

#[test]
fn a_circle_ends_where_a_page_is_gone() {
    let (mut doc, _, ids) = blank(3);
    let node = doc.add_object(dict(vec![("Type", "Pages".into()), ("Parent", ids[0].into())]));
    page_mut(&mut doc, ids[0]).set("Parent", node);
    page_mut(&mut doc, ids[1]).set("Parent", node);
    // From the second page the parents run in a circle through the first.
    assert!(!is_tree_sound(&doc, &vec![2]));
    assert!(!is_tree_sound(&doc, &vec![2, 1]));
    assert!(is_tree_sound(&doc, &vec![1, 2]));
    assert!(is_tree_sound(&doc, &vec![1, 2, 2]));
    assert!(take_pages_out(&mut doc, &vec![1, 2]));
    assert_eq!(doc.get_pages().into_values().collect::<Vec<_>>(), vec![ids[2]]);
}

#[test]
fn pictures_have_a_pixel_for_each_place() {
    let (mut doc, _, _) = blank(1);
    let img = DynamicImage::ImageRgb8(RgbImage::from_pixel(3, 2, Rgb([9, 8, 7])));
    let id = embed_image(&mut doc, &img).ok().unwrap();
    let stream = doc.get_object(id).unwrap().as_stream().unwrap();
    assert_eq!(inflate(stream), [9, 8, 7].repeat(6));
}
