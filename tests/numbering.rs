use comic_library::entities::ChapterOrdering;
use comic_library::error::LibraryError;
use comic_library::numbering::{
    chapter_number_from_path, compile_orderings, digit_run_values, key_less_eq,
    ordering_bucket, split_file_name, CompiledOrdering,
};

fn ordering(rank: u32, regex: &str) -> ChapterOrdering {
    ChapterOrdering { id: rank + 1, comic_id: 1, rank, regex: regex.to_string() }
}

#[test]
fn digit_runs_are_read_left_to_right() {
    assert_eq!(digit_run_values("vol2 ch10.5"), vec![2, 10, 5]);
    assert_eq!(digit_run_values("010"), vec![10]);
    assert_eq!(digit_run_values("extra"), Vec::<u32>::new());
    assert_eq!(digit_run_values(""), Vec::<u32>::new());
}

#[test]
fn digit_runs_saturate_at_the_largest_key() {
    assert_eq!(digit_run_values("99999999999 1"), vec![u32::MAX, 1]);
    assert_eq!(digit_run_values("4294967295"), vec![u32::MAX]);
    assert_eq!(digit_run_values("4294967294"), vec![4294967294]);
}

#[test]
fn file_names_split_at_the_last_dot() {
    assert_eq!(split_file_name("12.cbz"), ("12".to_string(), Some("cbz".to_string())));
    assert_eq!(split_file_name("a.b.cbz"), ("a.b".to_string(), Some("cbz".to_string())));
    assert_eq!(split_file_name(".cbz"), (".cbz".to_string(), None));
    assert_eq!(split_file_name("readme"), ("readme".to_string(), None));
    assert_eq!(split_file_name("x."), ("x".to_string(), Some("".to_string())));
}

#[test]
fn unordered_files_get_the_largest_bucket() {
    let key = chapter_number_from_path("10.cbz", &Vec::new());
    assert_eq!(key, vec![u32::MAX, 10]);
    let key = chapter_number_from_path("10.5.cbz", &Vec::new());
    assert_eq!(key, vec![u32::MAX, 10, 5]);
}

#[test]
fn first_matching_ordering_sets_the_bucket() {
    let compiled = compile_orderings(&vec![ordering(0, "special"), ordering(1, "extra|special")])
        .unwrap();
    assert_eq!(ordering_bucket("special 3", &compiled), 0);
    assert_eq!(ordering_bucket("extra 3", &compiled), 1);
    assert_eq!(ordering_bucket("chapter 3", &compiled), u32::MAX);
    assert_eq!(chapter_number_from_path("special 99.cbz", &compiled), vec![0, 99]);
}

#[test]
fn ordered_file_sorts_before_unordered_files() {
    let compiled = compile_orderings(&vec![ordering(0, "special")]).unwrap();
    let special = chapter_number_from_path("special 500.cbz", &compiled);
    let plain = chapter_number_from_path("1.cbz", &compiled);
    assert!(key_less_eq(&special, &plain));
    assert!(!key_less_eq(&plain, &special));
}

#[test]
fn numeric_keys_compare_as_numbers() {
    let k2 = chapter_number_from_path("2.cbz", &Vec::new());
    let k10 = chapter_number_from_path("10.cbz", &Vec::new());
    assert!(key_less_eq(&k2, &k10));
    assert!(!key_less_eq(&k10, &k2));
    let none = chapter_number_from_path("extra.cbz", &Vec::new());
    assert!(key_less_eq(&none, &k2));
}

#[test]
fn invalid_pattern_is_a_configuration_error() {
    let r = compile_orderings(&vec![ordering(0, "ok"), ordering(1, "(unclosed")]);
    assert!(matches!(r, Err(LibraryError::InvalidOrdering { index: 1 })));
    assert!(CompiledOrdering::compile("(").is_none());
    let c = CompiledOrdering::compile("ch\\d+").unwrap();
    assert_eq!(c.pattern(), "ch\\d+");
}
