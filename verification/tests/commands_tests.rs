use fqdt::commands::{
    abstract_preview, auto_choice, chapters_in_range, chapters_not_on_disk, choose_book,
    new_chapters,
};
use fqdt::types::{Chapter, ChapterRange};

fn chs() -> Vec<Chapter> {
    (1..=6).map(|i| Chapter { index: i, item_id: format!("i{}", i), title: format!("t{}", i) }).collect()
}

fn idx(v: &[Chapter]) -> Vec<usize> {
    v.iter().map(|c| c.index).collect()
}

#[test]
fn range_selection() {
    let all = chs();
    assert_eq!(idx(&chapters_in_range(&all, &None)), vec![1, 2, 3, 4, 5, 6]);
    assert_eq!(idx(&chapters_in_range(&all, &ChapterRange::parse("2-4"))), vec![2, 3, 4]);
    assert_eq!(idx(&chapters_in_range(&all, &ChapterRange::parse("-2"))), vec![1, 2]);
    assert_eq!(idx(&chapters_in_range(&all, &ChapterRange::parse("5-"))), vec![5, 6]);
    assert!(chapters_in_range(&all, &ChapterRange::parse("9-10")).is_empty());
}

#[test]
fn only_new_chapters_are_selected() {
    let all = chs();
    let existing = vec![(1, "t1".to_string(), "f1".to_string()), (3, String::new(), String::new())];
    assert_eq!(idx(&new_chapters(&all, &existing, &None)), vec![2, 4, 5, 6]);
    assert_eq!(idx(&new_chapters(&all, &existing, &ChapterRange::parse("-4"))), vec![2, 4]);
}

#[test]
fn only_chapters_missing_on_disk_are_selected() {
    let all = chs();
    let names: Vec<String> =
        vec!["0001_t1.txt".into(), "0003_t3.txt".into(), "0002_t2.mp3".into(), "info.list".into()];
    let ft = "{idx04}_{title}";
    assert_eq!(idx(&chapters_not_on_disk(&all, &names, ft, "txt", &None)), vec![2, 4, 5, 6]);
    assert_eq!(idx(&chapters_not_on_disk(&all, &names, ft, "txt", &ChapterRange::parse("-4"))), vec![2, 4]);
    assert_eq!(idx(&chapters_not_on_disk(&all, &names, ft, "mp3", &None)), vec![1, 3, 4, 5, 6]);
    assert_eq!(idx(&chapters_not_on_disk(&all, &vec![], ft, "txt", &ChapterRange::parse("5-"))), vec![5, 6]);
    let plain: Vec<String> = vec!["2.txt".into(), "6.txt".into()];
    assert_eq!(idx(&chapters_not_on_disk(&all, &plain, "{idx}", "txt", &None)), vec![1, 3, 4, 5]);
    let titled = vec![Chapter { index: 7, item_id: "i7".into(), title: "a/b".into() }];
    let on_disk: Vec<String> = vec!["0007_a_b.txt".into()];
    assert!(chapters_not_on_disk(&titled, &on_disk, ft, "txt", &None).is_empty());
}

#[test]
fn picking_a_result() {
    assert_eq!(choose_book(" 2\n", 3), Some(1));
    assert_eq!(choose_book("0", 3), None);
    assert_eq!(choose_book("4", 3), None);
    assert_eq!(choose_book("x", 3), None);
    assert_eq!(auto_choice(1, 3), Some(0));
    assert_eq!(auto_choice(0, 3), None);
    assert_eq!(auto_choice(5, 3), None);
}

#[test]
fn abstract_summary() {
    let short = "短简介";
    assert_eq!(abstract_preview(short), short);
    let long: String = std::iter::repeat('字').take(61).collect();
    let expect: String = std::iter::repeat('字').take(60).collect::<String>() + "...";
    assert_eq!(abstract_preview(&long), expect);
    let exact: String = std::iter::repeat('a').take(60).collect();
    assert_eq!(abstract_preview(&exact), exact);
}
