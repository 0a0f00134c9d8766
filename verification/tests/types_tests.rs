use fqdt::types::{chapter_file_stem, has_chapter_prefix, sanitize_filename, Chapter, ChapterRange};

fn range(s: &str) -> Option<(usize, usize)> {
    ChapterRange::parse(s).map(|r| (r.start, r.end))
}

#[test]
fn range_forms_of_the_readme() {
    assert_eq!(range("1-50"), Some((1, 50)));
    assert_eq!(range("-5"), Some((1, 5)));
    assert_eq!(range("10-"), Some((10, usize::MAX)));
    assert_eq!(range("7"), Some((7, 7)));
    assert_eq!(range("  3-4\n"), Some((3, 4)));
    assert_eq!(range("+8"), Some((8, 8)));
}

#[test]
fn range_rejects_malformed_text() {
    assert_eq!(range(""), None);
    assert_eq!(range("   "), None);
    assert_eq!(range("-"), None);
    assert_eq!(range("abc"), None);
    assert_eq!(range("1 - 5"), None);
    assert_eq!(range("1-2-3"), None);
    assert_eq!(range("--5"), None);
    assert_eq!(range("99999999999999999999999"), None);
}

#[test]
fn range_contains_both_ends() {
    let r = ChapterRange::parse("3-5").unwrap();
    assert!(!r.contains(2));
    assert!(r.contains(3));
    assert!(r.contains(5));
    assert!(!r.contains(6));
}

#[test]
fn sanitize_replaces_reserved_characters() {
    assert_eq!(sanitize_filename("a/b\\c:d*e?f\"g<h>i|j"), "a_b_c_d_e_f_g_h_i_j");
    assert_eq!(sanitize_filename("第1章 正常"), "第1章 正常");
    let once = sanitize_filename("x:y");
    assert_eq!(sanitize_filename(&once), once);
}

#[test]
fn chapter_numbering_prefix() {
    assert!(has_chapter_prefix("第一章"));
    assert!(has_chapter_prefix("12 回"));
    assert!(!has_chapter_prefix("序章"));
    assert!(!has_chapter_prefix(""));
}

fn ch(index: usize, title: &str) -> Chapter {
    Chapter { index, item_id: format!("id{}", index), title: title.to_string() }
}

#[test]
fn heading_adds_number_when_missing() {
    assert_eq!(ch(3, "序章").heading().iter().collect::<String>(), "第3章 序章");
    assert_eq!(ch(3, "第3章 起").heading().iter().collect::<String>(), "第3章 起");
}

#[test]
fn file_stem_template() {
    let c = ch(7, "a/b");
    assert_eq!(chapter_file_stem("{idx04}_{title}", &c).iter().collect::<String>(), "0007_a_b");
    assert_eq!(chapter_file_stem("{idx}-{title}-{idx04}", &c).iter().collect::<String>(), "7-a_b-0007");
    let big = ch(123456, "t");
    assert_eq!(chapter_file_stem("{idx04}", &big).iter().collect::<String>(), "123456");
}

#[test]
fn chapter_copy_is_equal() {
    let c = ch(2, "x");
    let d = c.copy();
    assert_eq!((d.index, d.item_id, d.title), (2, "id2".to_string(), "x".to_string()));
}
