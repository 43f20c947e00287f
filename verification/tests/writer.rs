use rocktier_ocr::resources::{font_plan, FontPlan, FontStep, ResourcesStep, Slot};
use rocktier_ocr::forms::forms_to_strip;
use rocktier_ocr::export::{export_txt, page_has_own_text, page_separator, summarize};
use rocktier_ocr::text::{encode_utf16, is_whitespace};
use rocktier_ocr::textlayer::{
    char_width, cid_width, collect_cids, is_text_showing, tounicode_cmap, utf16_hex, word_units,
};

#[test]
fn whitespace_agrees_with_std() {
    for v in 0u32..0x11_0000 {
        if let Some(c) = char::from_u32(v) {
            assert_eq!(is_whitespace(c), c.is_whitespace(), "U+{v:04X}");
        }
    }
}

#[test]
fn utf16_agrees_with_std() {
    for c in ['a', 'é', '中', '→', '😀', '\u{10000}', '\u{10ffff}'] {
        let mut buf = [0u16; 2];
        let expect: Vec<u16> = c.encode_utf16(&mut buf).to_vec();
        assert_eq!(encode_utf16(c), expect);
    }
}

#[test]
fn separator_names_the_page() {
    assert_eq!(page_separator(1), "\n\n--- Page 1 ---\n\n");
    assert_eq!(page_separator(0), "\n\n--- Page 0 ---\n\n");
    assert_eq!(page_separator(1234), "\n\n--- Page 1234 ---\n\n");
}

#[test]
fn born_digital_threshold_is_ten_characters() {
    assert!(!page_has_own_text(0));
    assert!(!page_has_own_text(9));
    assert!(page_has_own_text(10));
    assert!(page_has_own_text(500));
}

fn strs(v: &[&str]) -> Vec<String> {
    v.iter().map(|s| s.to_string()).collect()
}

#[test]
fn txt_export_of_a_pdf() {
    let pages = strs(&["  first page\nline two\n", "", "third\r\n"]);
    let r = export_txt(&pages, true);
    assert_eq!(
        r.text,
        "\n\n--- Page 1 ---\n\nfirst page\nline two\n\n--- Page 2 ---\n\n\n\n--- Page 3 ---\n\nthird"
    );
    assert_eq!(r.pages, 3);
    assert_eq!(r.lines, 2 + 1 + 1);
    assert_eq!(r.chars, r.text.chars().count());
}

#[test]
fn txt_export_of_an_image() {
    let pages = strs(&["\t中文 line\n\nnext "]);
    let r = export_txt(&pages, false);
    assert_eq!(r.text, "中文 line\n\nnext");
    assert_eq!(r.pages, 1);
    assert_eq!(r.lines, 3);
    assert_eq!(r.chars, 13);
}

#[test]
fn txt_export_matches_std_line_and_trim_rules() {
    let samples = ["", "\n", "a", "a\n", "a\nb", "\n\n", " \u{3000}x\u{2028} ", "a\r\nb\r\n"];
    for s in samples {
        let r = export_txt(&vec![s.to_string()], false);
        assert_eq!(r.text, s.trim());
        assert_eq!(r.lines, s.lines().count().max(1));
    }
}

#[test]
fn summary_reports_nothing_to_do() {
    let s = summarize(3, 0, 3, 0, true);
    assert!(s.already_searchable);
    assert_eq!(s.kind, "pdf");
    let s = summarize(1, 1, 0, 7, false);
    assert!(!s.already_searchable);
    assert_eq!(s.kind, "image");
    assert_eq!((s.pages_total, s.pages_ocr, s.pages_skipped, s.lines), (1, 1, 0, 7));
    assert!(!summarize(0, 0, 0, 0, true).already_searchable);
}

#[test]
fn widths_follow_the_helvetica_table() {
    assert_eq!(char_width(' '), 312);
    assert_eq!(char_width('A'), 667);
    assert_eq!(char_width('W'), 944);
    assert_eq!(char_width('i'), 222);
    assert_eq!(char_width('~'), 584);
    assert_eq!(char_width('中'), 500);
    assert_eq!(word_units("Wi"), 944 + 222);
    assert_eq!(word_units(""), 0);
    assert_eq!(cid_width(0x41), 667);
    assert_eq!(cid_width(0xD800), 500);
}

fn reference_cids(texts: &[String]) -> Vec<u16> {
    let mut cids: Vec<u16> = Vec::new();
    for text in texts {
        for word in text.split_whitespace() {
            cids.extend(word.encode_utf16());
        }
        if text.chars().any(char::is_whitespace) {
            cids.push(0x20);
        }
    }
    cids.sort_unstable();
    cids.dedup();
    cids
}

#[test]
fn cids_are_the_sorted_distinct_units() {
    let texts = strs(&["Hello world", "中文 → 😀", " ", "aaa\tbbb"]);
    assert_eq!(collect_cids(&texts), reference_cids(&texts));
    assert!(collect_cids(&vec![]).is_empty());
    // A tab separates words; the run joining them is drawn with U+0020.
    let tabbed = collect_cids(&strs(&["a\tb"]));
    assert_eq!(tabbed, vec![0x20, 0x61, 0x62]);
    // Ideographic space and newline separate words; neither gets a code.
    assert_eq!(collect_cids(&strs(&["中\u{3000}文\n"])), vec![0x20, 0x4E2D, 0x6587]);
    assert_eq!(collect_cids(&strs(&["ab"])), vec![0x61, 0x62]);
}

#[test]
fn cmap_maps_codes_to_themselves() {
    let cids = vec![0x41u16, 0x4E2D, 0xD83D];
    let mut expect = String::from(
        "/CIDInit /ProcSet findresource begin\n12 dict begin\nbegincmap\n\
         /CIDSystemInfo << /Registry (Adobe) /Ordering (UCS) /Supplement 0 >> def\n\
         /CMapName /Adobe-Identity-UCS def\n/CMapType 2 def\n\
         1 begincodespacerange\n<0000> <FFFF>\nendcodespacerange\n",
    );
    expect.push_str(&format!("{} beginbfchar\n", cids.len()));
    for c in &cids {
        expect.push_str(&format!("<{c:04X}> <{c:04X}>\n"));
    }
    expect.push_str("endbfchar\nendcmap\nCMapName currentdict /CMap defineresource pop\nend\nend\n");
    assert_eq!(tounicode_cmap(&cids), expect);
}

#[test]
fn shown_codes_are_utf16_hex() {
    for w in ["A", "中文", "a→b", "😀", ""] {
        let expect: String = w.encode_utf16().map(|u| format!("{u:04X}")).collect();
        assert_eq!(utf16_hex(w), expect);
    }
}

#[test]
fn text_showing_operators() {
    for op in ["Tj", "TJ", "'", "\""] {
        assert!(is_text_showing(op));
    }
    for op in ["Td", "BT", "Do", "cm", "T", "Tjj", ""] {
        assert!(!is_text_showing(op));
    }
}

#[test]
fn forms_reached_once_in_depth_first_order() {
    // Page names forms 10 and 20 and an inline entry; 10 draws 30 and 20,
    // 30 draws 10 again (a cycle), 40 is a form nobody names, 50 is named but
    // is no form (an image).
    let entries = vec![Some((10, 0)), None, Some((20, 0)), Some((50, 0))];
    let forms = vec![
        ((10, 0), vec![Some((30, 0)), Some((20, 0))]),
        ((20, 0), vec![]),
        ((30, 0), vec![Some((10, 0)), None]),
        ((40, 0), vec![Some((10, 0))]),
    ];
    let out = forms_to_strip(&entries, &forms);
    assert_eq!(out, vec![(10, 0), (30, 0), (20, 0)]);
}

#[test]
fn forms_none_when_page_names_nothing() {
    let forms = vec![((1, 0), vec![Some((2, 0))]), ((2, 0), vec![])];
    assert_eq!(forms_to_strip(&vec![], &forms), Vec::<(u32, u16)>::new());
    assert_eq!(forms_to_strip(&vec![None, Some((9, 0))], &forms), Vec::<(u32, u16)>::new());
}

#[test]
fn forms_generation_is_part_of_the_id() {
    let entries = vec![Some((7, 1))];
    let forms = vec![((7, 0), vec![]), ((7, 1), vec![Some((7, 0))])];
    assert_eq!(forms_to_strip(&entries, &forms), vec![(7, 1), (7, 0)]);
}

#[test]
fn every_shown_code_is_described_by_the_font() {
    let texts = strs(&["Rocktier → OCR", "中文 😀 mixed\ttabs", "  "]);
    let cids = collect_cids(&texts);
    for t in &texts {
        let words: Vec<&str> = t.split_whitespace().collect();
        // Each word on its own, and the words of a line drawn as one run.
        let mut shown: Vec<String> = words.iter().map(|w| w.to_string()).collect();
        shown.push(words.join(" "));
        for run in &shown {
            let hex = utf16_hex(run);
            assert_eq!(hex.len() % 4, 0);
            for k in (0..hex.len()).step_by(4) {
                let u = u16::from_str_radix(&hex[k..k + 4], 16).unwrap();
                assert!(cids.contains(&u), "{run}: {u:04X}");
            }
        }
    }
    // The sideways fallback draws "a b" as one run: the space is described.
    assert!(collect_cids(&strs(&["a b"])).contains(&0x20));
}

#[test]
fn font_plan_edits_what_the_page_has() {
    assert_eq!(
        font_plan(Slot::Ref((5, 0)), false, Slot::Ref((9, 0))),
        FontPlan { resources: ResourcesStep::UseRef((5, 0)), font: FontStep::SetInRef((9, 0)) }
    );
    assert_eq!(
        font_plan(Slot::Inline, false, Slot::Inline),
        FontPlan { resources: ResourcesStep::MoveInline, font: FontStep::SetInInline }
    );
    assert_eq!(
        font_plan(Slot::Ref((5, 0)), false, Slot::Missing),
        FontPlan { resources: ResourcesStep::UseRef((5, 0)), font: FontStep::Create }
    );
}

#[test]
fn font_plan_keeps_inherited_resources() {
    // No resources of its own, but the page tree gives it some: copy them.
    assert_eq!(
        font_plan(Slot::Missing, true, Slot::Ref((3, 0))),
        FontPlan { resources: ResourcesStep::CopyInherited, font: FontStep::CopyRefInline((3, 0)) }
    );
    assert_eq!(
        font_plan(Slot::Missing, true, Slot::Inline),
        FontPlan { resources: ResourcesStep::CopyInherited, font: FontStep::SetInInline }
    );
    // Nothing anywhere: a fresh dictionary with a fresh /Font.
    assert_eq!(
        font_plan(Slot::Missing, false, Slot::Inline),
        FontPlan { resources: ResourcesStep::CreateEmpty, font: FontStep::Create }
    );
}
