use rocktier_ocr::ctc::{alphabet_from_metadata, ctc_decode};
use rocktier_ocr::words::{get_word_info, is_cjk};

fn strs(v: &[&str]) -> Vec<String> {
    v.iter().map(|s| s.to_string()).collect()
}

#[test]
fn cjk_block_bounds() {
    assert!(is_cjk('\u{4e00}'));
    assert!(is_cjk('中'));
    assert!(is_cjk('\u{9fff}'));
    assert!(!is_cjk('\u{4dff}'));
    assert!(!is_cjk('\u{a000}'));
    assert!(!is_cjk('a'));
}

#[test]
fn word_info_groups_latin_words_and_cjk_runs() {
    let text: Vec<char> = "ab中文cd".chars().collect();
    let sel = vec![1, 2, 3, 4, 5, 6];
    let (words, cols, states) = get_word_info(&text, &sel);
    assert_eq!(words, vec![vec!['a', 'b'], vec!['中', '文'], vec!['c', 'd']]);
    assert_eq!(cols, vec![vec![1, 2], vec![3, 4], vec![5, 6]]);
    assert_eq!(states, strs(&["en&num", "cn", "en&num"]));
}

#[test]
fn word_info_breaks_on_wide_gaps_only() {
    let text: Vec<char> = "abcd".chars().collect();
    let sel = vec![0, 4, 9, 13];
    let (words, cols, states) = get_word_info(&text, &sel);
    assert_eq!(words, vec![vec!['a', 'b'], vec!['c', 'd']]);
    assert_eq!(cols, vec![vec![0, 4], vec![9, 13]]);
    assert_eq!(states, strs(&["en&num", "en&num"]));
}

#[test]
fn word_info_of_empty_selection_is_empty() {
    let (w, c, s) = get_word_info(&['a'], &[]);
    assert!(w.is_empty() && c.is_empty() && s.is_empty());
}

#[test]
fn word_info_of_empty_text() {
    let (w, c, s) = get_word_info(&[], &[3]);
    assert!(w.is_empty() && c.is_empty() && s.is_empty());
}

#[test]
fn word_info_concatenates_back_to_the_text() {
    let text: Vec<char> = "Hello 世界 42x".chars().collect();
    let sel: Vec<usize> = (0..text.len()).map(|i| i * 3).collect();
    let (words, cols, _) = get_word_info(&text, &sel);
    let joined: Vec<char> = words.concat();
    assert_eq!(joined, text);
    let joined_cols: Vec<usize> = cols.concat();
    assert_eq!(joined_cols, sel);
}

#[test]
fn ctc_collapses_repeats_and_drops_blanks() {
    let alphabet = strs(&["blank", "a", "b", "c"]);
    let best = vec![0, 1, 1, 0, 1, 2, 2, 9, 3, 0];
    let (text, sel) = ctc_decode(&best, &alphabet);
    assert_eq!(text, "aabc");
    assert_eq!(sel, vec![1, 4, 5, 8]);
}

#[test]
fn ctc_out_of_range_class_still_breaks_a_repeat() {
    let alphabet = strs(&["blank", "a"]);
    let (text, sel) = ctc_decode(&vec![1, 7, 1], &alphabet);
    assert_eq!(text, "aa");
    assert_eq!(sel, vec![0, 2]);
}

#[test]
fn ctc_of_all_blanks_is_empty() {
    let (text, sel) = ctc_decode(&vec![0, 0, 0], &strs(&["blank", "x"]));
    assert_eq!(text, "");
    assert!(sel.is_empty());
}

#[test]
fn alphabet_wraps_metadata_lines() {
    assert_eq!(alphabet_from_metadata("a\nb\nc\n"), strs(&["blank", "a", "b", "c", " "]));
    assert_eq!(alphabet_from_metadata("a\nb"), strs(&["blank", "a", "b", " "]));
    assert_eq!(alphabet_from_metadata(""), strs(&["blank", " "]));
    assert_eq!(alphabet_from_metadata("x\n\ny"), strs(&["blank", "x", "", "y", " "]));
}
