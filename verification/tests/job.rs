use rocktier_ocr::job::{join_lines, Conversion};

#[test]
fn join_lines_puts_newlines_between() {
    assert_eq!(join_lines(&vec![]), "");
    assert_eq!(join_lines(&vec!["one".to_string()]), "one");
    assert_eq!(
        join_lines(&vec!["a b".to_string(), "".to_string(), "c".to_string()]),
        "a b\n\nc"
    );
}

#[test]
fn conversion_counts_pages_and_lines() {
    let mut c = Conversion::new();
    c.keep_own_text("Already here".to_string());
    c.add_recognised(&vec!["first".to_string(), "second".to_string()]);
    c.add_recognised(&vec![]);
    assert_eq!(c.page_text, vec!["Already here", "first\nsecond", ""]);
    assert_eq!((c.pages_ocr, c.pages_skipped, c.lines), (2, 1, 2));
    let s = c.summary(3, true);
    assert_eq!((s.pages_total, s.pages_ocr, s.pages_skipped, s.lines), (3, 2, 1, 2));
    assert_eq!(s.kind, "pdf");
    assert!(!s.already_searchable);
}

#[test]
fn conversion_of_born_digital_document_is_already_searchable() {
    let mut c = Conversion::new();
    c.keep_own_text("page one".to_string());
    c.keep_own_text("page two".to_string());
    let s = c.summary(2, true);
    assert!(s.already_searchable);
    assert_eq!(c.page_text.len(), c.pages_ocr + c.pages_skipped);
    let empty = Conversion::new().summary(0, false);
    assert!(!empty.already_searchable);
    assert_eq!(empty.kind, "image");
}
