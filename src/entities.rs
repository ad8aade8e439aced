use vstd::prelude::*;

verus! {

/// A series: one directory under the library root.
#[derive(Clone, Debug, PartialEq, Eq)]
pub struct Comic {
    /// Catalog identifier; 0 until the series is persisted.
    pub id: u32,
    /// Directory path relative to the library root; identifies the series.
    pub dir_path: String,
    pub name: String,
    pub cover_path: Option<String>,
    pub is_manga: bool,
    pub chapters: Vec<Chapter>,
    pub chapter_count: Option<usize>,
    pub chapter_read: Option<usize>,
}

/// A chapter: one archive file inside a series directory.
#[derive(Clone, Debug, PartialEq, Eq)]
pub struct Chapter {
    /// Catalog identifier; 0 until the chapter is persisted.
    pub id: u32,
    /// Archive path relative to the library root.
    pub path: String,
    /// Archive file name without its extension.
    pub name: String,
    /// Position of the chapter in its series, counted from 1 in scan order.
    pub chapter_number: u32,
    /// Index of the page last viewed.
    pub read: u32,
    /// Number of entries in the archive; 0 until counted.
    pub pages: u32,
    pub comic_id: u32,
}

/// A user rule that groups chapters whose file stem matches `regex`.
#[derive(Clone, Debug, PartialEq, Eq)]
pub struct ChapterOrdering {
    pub id: u32,
    pub comic_id: u32,
    /// Evaluation position within the series; lower ranks are tried first.
    pub rank: u32,
    pub regex: String,
}

} // verus!
