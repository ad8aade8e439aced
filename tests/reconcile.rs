use comic_library::entities::{Chapter, ChapterOrdering, Comic};
use comic_library::numbering::compile_orderings;
use comic_library::reconcile::{assign_pages, get_new_chaps_for, reconcile, split_series};
use comic_library::scanner::{
    is_not_hidden, persisted_id, scan_chapters, scan_comic, series_dirs, DirEntryInfo,
};

fn file(name: &str) -> DirEntryInfo {
    DirEntryInfo { name: name.to_string(), is_dir: false, is_file: true }
}

fn dir(name: &str) -> DirEntryInfo {
    DirEntryInfo { name: name.to_string(), is_dir: true, is_file: false }
}

fn scan(name: &str, files: &[&str], persisted: &Vec<Comic>) -> Comic {
    let entries: Vec<DirEntryInfo> = files.iter().map(|f| file(f)).collect();
    let id = persisted_id(persisted, &name.to_string());
    scan_comic(&name.to_string(), &entries, id, &Vec::new(), true).unwrap()
}

/// Stores the outcome the way the catalog would: new series get fresh identifiers and
/// new chapters join their series.
fn persist(catalog: &mut Vec<Comic>, outcome: comic_library::reconcile::ReconcileOutcome) {
    for mut c in outcome.new_comics {
        c.id = catalog.len() as u32 + 1;
        let id = c.id;
        for ch in c.chapters.iter_mut() {
            ch.comic_id = id;
        }
        catalog.push(c);
    }
    for ch in outcome.new_chapters {
        let owner = catalog.iter_mut().find(|c| c.id == ch.comic_id).unwrap();
        owner.chapters.push(ch);
    }
}

#[test]
fn hidden_names_start_with_a_dot() {
    assert!(is_not_hidden("one_piece"));
    assert!(!is_not_hidden(".comicdb"));
    assert!(!is_not_hidden(""));
}

#[test]
fn series_are_the_visible_directories() {
    let entries = vec![dir("one_piece"), dir(".cache"), file("notes.txt"), dir("berserk")];
    assert_eq!(series_dirs(&entries), vec!["one_piece".to_string(), "berserk".to_string()]);
}

#[test]
fn chapters_are_numbered_in_numeric_order() {
    let entries = vec![file("10.cbz"), file("2.cbz"), file("1.cbz"), file("3.cbz")];
    let chs = scan_chapters(&"s".to_string(), &entries, &Vec::new(), 4);
    let names: Vec<&str> = chs.iter().map(|c| c.name.as_str()).collect();
    assert_eq!(names, vec!["1", "2", "3", "10"]);
    let numbers: Vec<u32> = chs.iter().map(|c| c.chapter_number).collect();
    assert_eq!(numbers, vec![1, 2, 3, 4]);
    assert_eq!(chs[3].path, "s/10.cbz");
    assert!(chs.iter().all(|c| c.comic_id == 4 && c.id == 0 && c.pages == 0 && c.read == 0));
}

#[test]
fn only_visible_archives_become_chapters() {
    let entries = vec![
        file("1.cbz"),
        file(".2.cbz"),
        file("3.zip"),
        file("4.CBZ"),
        dir("5.cbz"),
        file("cover.jpg"),
    ];
    let chs = scan_chapters(&"s".to_string(), &entries, &Vec::new(), 0);
    assert_eq!(chs.len(), 1);
    assert_eq!(chs[0].name, "1");
}

#[test]
fn ordering_rule_puts_matching_files_first() {
    let rules = vec![ChapterOrdering { id: 1, comic_id: 1, rank: 0, regex: "special".to_string() }];
    let compiled = compile_orderings(&rules).unwrap();
    let entries = vec![file("1.cbz"), file("special 900.cbz"), file("2.cbz")];
    let chs = scan_chapters(&"s".to_string(), &entries, &compiled, 1);
    let names: Vec<&str> = chs.iter().map(|c| c.name.as_str()).collect();
    assert_eq!(names, vec!["special 900", "1", "2"]);
}

#[test]
fn file_without_digits_sorts_before_numbered_files() {
    let entries = vec![file("2.cbz"), file("extra.cbz"), file("1.cbz")];
    let chs = scan_chapters(&"s".to_string(), &entries, &Vec::new(), 1);
    let names: Vec<&str> = chs.iter().map(|c| c.name.as_str()).collect();
    assert_eq!(names, vec!["extra", "1", "2"]);
}

#[test]
fn invalid_ordering_fails_the_series_scan() {
    let rules = vec![ChapterOrdering { id: 1, comic_id: 1, rank: 0, regex: "[".to_string() }];
    let r = scan_comic(&"s".to_string(), &vec![file("1.cbz")], 1, &rules, true);
    assert!(r.is_err());
}

#[test]
fn two_new_series_are_found_with_sequential_numbers() {
    let persisted = Vec::new();
    let scanned = vec![
        scan("one_piece", &["2.cbz", "1.cbz"], &persisted),
        scan("berserk", &["3.cbz", "1.cbz"], &persisted),
    ];
    let mut outcome = reconcile(persisted, scanned);
    assert_eq!(outcome.new_comics.len(), 2);
    assert!(outcome.new_chapters.is_empty());
    assert!(outcome.deleted_comics.is_empty());
    let one_piece = &outcome.new_comics[0];
    assert_eq!(one_piece.dir_path, "one_piece");
    assert_eq!(one_piece.name, "one_piece");
    let op: Vec<(&str, u32)> =
        one_piece.chapters.iter().map(|c| (c.path.as_str(), c.chapter_number)).collect();
    assert_eq!(op, vec![("one_piece/1.cbz", 1), ("one_piece/2.cbz", 2)]);
    let berserk = &outcome.new_comics[1];
    let b: Vec<(&str, u32)> =
        berserk.chapters.iter().map(|c| (c.path.as_str(), c.chapter_number)).collect();
    assert_eq!(b, vec![("berserk/1.cbz", 1), ("berserk/3.cbz", 2)]);

    assign_pages(&mut outcome.new_comics[0].chapters, &vec![30, 23]);
    assign_pages(&mut outcome.new_comics[1].chapters, &vec![97, 54]);
    let pages: Vec<u32> = outcome.new_comics.iter().flat_map(|c| c.chapters.iter().map(|ch| ch.pages)).collect();
    assert_eq!(pages, vec![30, 23, 97, 54]);
}

#[test]
fn second_reconciliation_adds_nothing() {
    let mut catalog: Vec<Comic> = Vec::new();
    let scanned = vec![
        scan("one_piece", &["1.cbz", "2.cbz"], &catalog),
        scan("berserk", &["1.cbz", "3.cbz"], &catalog),
    ];
    let first = reconcile(catalog.clone(), scanned);
    assert_eq!(first.new_comics.len(), 2);
    persist(&mut catalog, first);

    let rescanned = vec![
        scan("one_piece", &["1.cbz", "2.cbz"], &catalog),
        scan("berserk", &["1.cbz", "3.cbz"], &catalog),
    ];
    let second = reconcile(catalog.clone(), rescanned);
    assert!(second.new_comics.is_empty());
    assert!(second.new_chapters.is_empty());
    assert!(second.deleted_comics.is_empty());
    assert!(second.deleted_chapters.is_empty());
}

#[test]
fn new_file_in_known_series_is_a_new_chapter() {
    let mut catalog: Vec<Comic> = Vec::new();
    let first = reconcile(catalog.clone(), vec![scan("berserk", &["1.cbz"], &catalog)]);
    persist(&mut catalog, first);
    let second = reconcile(catalog.clone(), vec![scan("berserk", &["1.cbz", "2.cbz"], &catalog)]);
    assert!(second.new_comics.is_empty());
    assert_eq!(second.new_chapters.len(), 1);
    assert_eq!(second.new_chapters[0].path, "berserk/2.cbz");
    assert_eq!(second.new_chapters[0].chapter_number, 2);
    assert_eq!(second.new_chapters[0].comic_id, 1);
}

#[test]
fn vanished_series_are_reported_as_deleted() {
    let mut catalog: Vec<Comic> = Vec::new();
    let first = reconcile(
        catalog.clone(),
        vec![scan("a", &["1.cbz"], &catalog), scan("b", &["1.cbz"], &catalog)],
    );
    persist(&mut catalog, first);
    let second = reconcile(catalog.clone(), vec![scan("b", &["1.cbz"], &catalog)]);
    assert_eq!(second.deleted_comics.len(), 1);
    assert_eq!(second.deleted_comics[0].dir_path, "a");
    assert!(second.new_comics.is_empty());
}

#[test]
fn split_series_pairs_by_directory() {
    let catalog = vec![scan("a", &[], &Vec::new())];
    let r = split_series(catalog.clone(), vec![scan("a", &["1.cbz"], &catalog), scan("b", &[], &catalog)]);
    assert_eq!(r.kept.len(), 1);
    assert_eq!(r.added.len(), 1);
    assert_eq!(r.added[0].dir_path, "b");
    assert!(r.deleted.is_empty());
}

#[test]
fn renumbered_file_is_new_under_its_new_number() {
    let lib = Comic {
        id: 5,
        dir_path: "s".to_string(),
        name: "s".to_string(),
        cover_path: None,
        is_manga: true,
        chapters: vec![],
        chapter_count: None,
        chapter_read: None,
    };
    let db = vec![Chapter {
        id: 1,
        path: "s/2.cbz".to_string(),
        name: "2".to_string(),
        chapter_number: 1,
        read: 3,
        pages: 10,
        comic_id: 5,
    }];
    let scanned = scan("s", &["1.cbz", "2.cbz"], &vec![]);
    let new = get_new_chaps_for(&lib, scanned, db);
    let got: Vec<(&str, u32, u32)> =
        new.iter().map(|c| (c.path.as_str(), c.chapter_number, c.comic_id)).collect();
    assert_eq!(got, vec![("s/1.cbz", 1, 5), ("s/2.cbz", 2, 5)]);
}
