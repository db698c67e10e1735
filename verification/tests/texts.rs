use pdfsigner::files::{file_kind, is_error, labelled, list_signatures, FileKind, FoundFile};
use pdfsigner::names::{output_file_name, pick_free_name, same_bytes, strip_output_suffix};
use pdfsigner::numtext::{parse_ticks, push_decimal, push_fixed4, push_hex4};
use pdfsigner::pages::{is_kept, pages_to_drop, parse_keep_filter, parse_page_range};
use pdfsigner::stamp::{date_text, Date};
use pdfsigner::text::{char_to_byte, is_whitespace, selection_sections, selection_span, Section};
use pdfsigner::units::COORD_LIMIT;

#[test]
fn strip_output_suffix_recovers_base_name() {
    assert_eq!(strip_output_suffix("contract"), "contract");
    assert_eq!(strip_output_suffix("contract_signed"), "contract");
    assert_eq!(strip_output_suffix("contract_masked"), "contract");
    assert_eq!(strip_output_suffix("contract_signed_1"), "contract");
    assert_eq!(strip_output_suffix("contract_masked_42"), "contract");
    assert_eq!(strip_output_suffix("draft_v2"), "draft_v2");
    assert_eq!(strip_output_suffix("report_2024"), "report_2024");
    assert_eq!(strip_output_suffix("masked_contract"), "masked_contract");
    assert_eq!(strip_output_suffix("signed_by_alice"), "signed_by_alice");
}

#[test]
fn suffixes_are_stripped_once() {
    assert_eq!(strip_output_suffix("_signed"), "");
    assert_eq!(strip_output_suffix("a_signed_signed"), "a_signed");
    assert_eq!(strip_output_suffix("a_signed_"), "a_signed_");
    assert_eq!(strip_output_suffix("a_signed_1_2"), "a_signed_1_2");
    assert_eq!(strip_output_suffix("7"), "7");
    assert_eq!(strip_output_suffix("_7"), "_7");
    assert_eq!(strip_output_suffix("größe_masked_7"), "größe");
    assert_eq!(strip_output_suffix(""), "");
}

#[test]
fn output_names_count_up() {
    assert_eq!(output_file_name(Some("contract"), false, 0), "contract_signed.pdf");
    assert_eq!(output_file_name(Some("contract"), true, 0), "contract_masked.pdf");
    assert_eq!(output_file_name(Some("contract_masked"), true, 1), "contract_masked_1.pdf");
    assert_eq!(output_file_name(Some("contract_signed_3"), true, 12), "contract_masked_12.pdf");
    assert_eq!(output_file_name(None, false, 0), "out_signed.pdf");
}

#[test]
fn output_names_give_their_base_back() {
    for base in ["contract", "a_signed", "x_1", "_masked_2", ""] {
        for n in [0u64, 1, 10] {
            let name = output_file_name(Some(base), n % 2 == 0, n);
            let stem = name.strip_suffix(".pdf").unwrap();
            assert_eq!(strip_output_suffix(stem), strip_output_suffix(base));
        }
    }
}

#[test]
fn free_names_skip_the_taken_ones() {
    assert_eq!(pick_free_name(&vec![], "F"), "F1");
    let taken = vec![b"F1".to_vec(), b"F3".to_vec(), b"F2".to_vec(), b"Im1".to_vec()];
    assert_eq!(pick_free_name(&taken, "F"), "F4");
    assert_eq!(pick_free_name(&taken, "Im"), "Im2");
    assert!(same_bytes(b"ab", b"ab") && !same_bytes(b"ab", b"abc") && !same_bytes(b"ab", b"ac"));
}

#[test]
fn numbers_are_written_and_read() {
    let mut s = String::new();
    push_decimal(&mut s, 0);
    push_decimal(&mut s, 1234567890);
    assert_eq!(s, "01234567890");
    let mut s = String::new();
    push_fixed4(&mut s, 12_345_678);
    s.push(' ');
    push_fixed4(&mut s, -5);
    s.push(' ');
    push_fixed4(&mut s, 0);
    assert_eq!(s, "1234.5678 -0.0005 0.0000");
    let mut s = String::new();
    push_hex4(&mut s, 0x00af);
    push_hex4(&mut s, 0xffff);
    assert_eq!(s, "00AFFFFF");
}

#[test]
fn four_decimal_places_read_back() {
    for v in [0i64, 1, -1, 9_999, 10_000, -123_456_789] {
        let mut s = String::new();
        push_fixed4(&mut s, v);
        assert_eq!(parse_ticks(&s), Some(v));
    }
    assert_eq!(parse_ticks("7.8300"), Some(78_300));
    assert_eq!(parse_ticks("-0.0000"), Some(0));
    assert_eq!(parse_ticks("7.83"), None);
    assert_eq!(parse_ticks("inf"), None);
    assert_eq!(parse_ticks("340282350000000000000000000000000000000.0000"), Some(COORD_LIMIT));
}

#[test]
fn page_ranges() {
    assert_eq!(parse_page_range("1-3,5", 10), vec![1, 2, 3, 5]);
    assert_eq!(parse_page_range("3-1", 10), vec![1, 2, 3]);
    assert_eq!(parse_page_range(" 2 , 2,1 - 2 ,, x, 0, 99", 3), vec![2, 1]);
    assert_eq!(parse_page_range("1-", 3), Vec::<usize>::new());
    assert_eq!(parse_page_range("2-99999999999999", 3), vec![2, 3]);
}

#[test]
fn keep_filters() {
    assert!(matches!(parse_keep_filter("   ", 3), Ok(None)));
    assert!(matches!(parse_keep_filter("2", 3), Ok(Some(v)) if v == vec![2]));
    let e = match parse_keep_filter(" 9 ", 3) {
        Err(e) => e,
        Ok(_) => panic!("selected something"),
    };
    assert_eq!(e.message(), "Pages filter '9' selects no pages");
    let keep = Some(vec![2usize, 4]);
    assert!(is_kept(&keep, 2) && !is_kept(&keep, 3) && is_kept(&None, 3));
    assert_eq!(pages_to_drop(&keep, 5), vec![1, 3, 5]);
    assert_eq!(pages_to_drop(&None, 5), Vec::<u32>::new());
}

#[test]
fn dates() {
    let date = Date { year: 2025, month: 1, day: 9 };
    assert_eq!(date_text(date, false), "09.01.2025");
    assert_eq!(date_text(date, true), "01/09/2025");
    assert_eq!(date_text(Date { year: 7, month: 12, day: 31 }, false), "31.12.0007");
}

#[test]
fn kinds_of_files() {
    assert_eq!(file_kind(Some("PDF")), FileKind::Pdf);
    assert_eq!(file_kind(Some("Jpeg")), FileKind::Image);
    assert_eq!(file_kind(Some("jpg")), FileKind::Image);
    assert_eq!(file_kind(Some("png")), FileKind::Image);
    assert_eq!(file_kind(Some("gif")), FileKind::Other);
    assert_eq!(file_kind(None), FileKind::Other);
}

#[test]
fn errors_are_told_by_their_word() {
    assert!(is_error("ERROR: pdfium library not found."));
    assert!(is_error("Save error: disk full"));
    assert!(is_error("error"));
    assert!(!is_error("Saved /tmp/x.pdf"));
    assert!(!is_error("err"));
    assert!(!is_error(""));
    assert_eq!(labelled("Saved ", "x.pdf"), "Saved x.pdf");
}

#[test]
fn signatures_are_sorted_pictures() {
    let file = |name: &str, ext: Option<&str>| FoundFile {
        name: name.as_bytes().to_vec(),
        is_file: name != "old.png",
        extension: ext.map(|e| e.to_string()),
    };
    let files = vec![
        file("b.png", Some("png")),
        file("notes.txt", Some("txt")),
        file("a.JPG", Some("JPG")),
        file("README", None),
        file("old.png", Some("png")),
        file("ab.jpeg", Some("jpeg")),
    ];
    let names: Vec<String> = list_signatures(&files)
        .into_iter()
        .map(|n| String::from_utf8(n).unwrap())
        .collect();
    assert_eq!(names, vec!["a.JPG", "ab.jpeg", "b.png"]);
}

#[test]
fn character_positions_become_byte_positions() {
    let s = "aß€𝄞z";
    assert_eq!(char_to_byte(s, 0), 0);
    assert_eq!(char_to_byte(s, 1), 1);
    assert_eq!(char_to_byte(s, 2), 3);
    assert_eq!(char_to_byte(s, 3), 6);
    assert_eq!(char_to_byte(s, 4), 10);
    assert_eq!(char_to_byte(s, 5), s.len());
    assert_eq!(char_to_byte(s, 99), s.len());
}

#[test]
fn selections_are_ordered_and_not_empty() {
    assert_eq!(selection_span(5, 2), Some((2, 5)));
    assert_eq!(selection_span(2, 5), Some((2, 5)));
    assert_eq!(selection_span(3, 3), None);
}

#[test]
fn sections_cover_the_text() {
    let s = "aß€z";
    assert_eq!(
        selection_sections(s, Some((1, 3))),
        vec![
            Section { start: 0, end: 1, selected: false },
            Section { start: 1, end: 6, selected: true },
            Section { start: 6, end: 7, selected: false },
        ]
    );
    assert_eq!(
        selection_sections(s, Some((0, 99))),
        vec![Section { start: 0, end: 7, selected: true }]
    );
    assert_eq!(selection_sections(s, None), vec![Section { start: 0, end: 7, selected: false }]);
}

#[test]
fn white_space_is_that_of_the_standard() {
    for c in [' ', '\t', '\n', '\u{a0}', '\u{2003}', '\u{3000}', 'a', '\u{200b}', '-'] {
        assert_eq!(is_whitespace(c), c.is_whitespace());
    }
    for c in (0u32..0x3100).filter_map(char::from_u32) {
        assert_eq!(is_whitespace(c), c.is_whitespace());
    }
}
