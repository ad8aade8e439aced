use comic_library::entities::ChapterOrdering;
use comic_library::error::{LibraryError, StringResult};
use comic_library::orderings::delete_ordering;
use comic_library::pages::{page_index, page_mime_type};
use comic_library::settings::{get_idx, ComicProjDirs, LibraryChange, LibraryConfig, Settings};

fn lib(id: usize, path: &str) -> LibraryConfig {
    LibraryConfig { id, name: format!("lib {}", id), path: path.to_string() }
}

#[test]
fn deleting_an_ordering_closes_the_rank_gap() {
    let orderings: Vec<ChapterOrdering> = (0..4)
        .map(|r| ChapterOrdering { id: 10 + r, comic_id: 1, rank: r, regex: format!("r{}", r) })
        .collect();
    let after = delete_ordering(orderings, 12).unwrap();
    let mut ranks: Vec<u32> = after.iter().map(|o| o.rank).collect();
    assert_eq!(after.iter().map(|o| o.id).collect::<Vec<_>>(), vec![10, 11, 13]);
    ranks.sort();
    assert_eq!(ranks, vec![0, 1, 2]);
}

#[test]
fn deleting_an_unknown_ordering_is_not_found() {
    let orderings = vec![ChapterOrdering { id: 1, comic_id: 1, rank: 0, regex: "a".to_string() }];
    assert!(delete_ordering(orderings, 7).is_none());
}

#[test]
fn selected_library_is_looked_up_by_id() {
    let mut s = Settings::default();
    assert_eq!(s.next_library_id, 1);
    assert!(s.library().is_none());
    s.libraries = vec![lib(1, "/a"), lib(2, "/b")];
    s.selected_library = Some(2);
    assert_eq!(s.library().unwrap().path, "/b");
    s.selected_library = Some(3);
    assert!(s.library().is_none());
}

#[test]
fn library_index_or_error() {
    let libs = vec![lib(4, "/a"), lib(9, "/b")];
    assert_eq!(get_idx(&libs, 9), Ok(1));
    assert_eq!(get_idx(&libs, 5), Err("library doesn't exist".to_string()));
}

#[test]
fn config_file_lives_in_the_config_dir() {
    let dirs = ComicProjDirs::new("/home/u/.config/comic-leser".to_string());
    assert_eq!(dirs.config_file_path(), "/home/u/.config/comic-leser/config.json");
}

#[test]
fn errors_turn_into_messages() {
    let r: Result<u32, LibraryError> = Err(LibraryError::NotFound { what: "chapter 3".to_string() });
    assert_eq!(r.str_err(), Err("not found: chapter 3".to_string()));
    let ok: Result<u32, LibraryError> = Ok(3);
    assert_eq!(ok.str_err(), Ok(3));
}

#[test]
fn first_added_library_is_selected() {
    let mut s = Settings::default();
    let (id, change) = s.add_library(lib(0, "/a"));
    assert_eq!(id, 1);
    assert_eq!(change, Ok(LibraryChange::Load(0)));
    assert_eq!(s.selected_library, Some(1));
    let (id, change) = s.add_library(lib(0, "/b"));
    assert_eq!(id, 2);
    assert_eq!(change, Ok(LibraryChange::Unchanged));
    assert_eq!(s.selected_library, Some(1));
    assert_eq!(s.next_library_id, 3);
    assert_eq!(s.libraries[1].id, 2);
}

#[test]
fn selecting_an_unknown_library_fails() {
    let mut s = Settings::default();
    s.add_library(lib(0, "/a"));
    assert_eq!(s.select_library(1), Ok(LibraryChange::Unchanged));
    assert!(s.select_library(8).is_err());
}

#[test]
fn deleting_the_selected_library_selects_another() {
    let mut s = Settings::default();
    s.add_library(lib(0, "/a"));
    s.add_library(lib(0, "/b"));
    assert_eq!(s.delete_library(1), Ok(LibraryChange::Load(0)));
    assert_eq!(s.selected_library, Some(2));
    assert_eq!(s.delete_library(2), Ok(LibraryChange::Unload));
    assert_eq!(s.selected_library, None);
    assert!(s.libraries.is_empty());
    assert!(s.delete_library(2).is_err());
}

#[test]
fn deleting_another_library_keeps_the_selection() {
    let mut s = Settings::default();
    s.add_library(lib(0, "/a"));
    s.add_library(lib(0, "/b"));
    assert_eq!(s.delete_library(2), Ok(LibraryChange::Unchanged));
    assert_eq!(s.selected_library, Some(1));
}

#[test]
fn moving_the_selected_library_reloads_it() {
    let mut s = Settings::default();
    s.add_library(lib(0, "/a"));
    s.add_library(lib(0, "/b"));
    assert_eq!(s.update_library(lib(1, "/c")), Ok(LibraryChange::Load(0)));
    assert_eq!(s.libraries[0].path, "/c");
    assert_eq!(s.update_library(lib(2, "/d")), Ok(LibraryChange::Unchanged));
    assert_eq!(s.update_library(lib(1, "/c")), Ok(LibraryChange::Unchanged));
    assert!(s.update_library(lib(9, "/e")).is_err());
}

#[test]
fn pages_count_from_one() {
    assert_eq!(page_index(0), None);
    assert_eq!(page_index(1), Some(0));
    assert_eq!(page_index(12), Some(11));
    assert_eq!(page_mime_type("001.png"), Some("image/png".to_string()));
    assert_eq!(page_mime_type("dir/p.2.jpeg"), Some("image/jpeg".to_string()));
    assert_eq!(page_mime_type("README"), None);
}
