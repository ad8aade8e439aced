use vstd::prelude::*;
use vstd::seq_lib::group_to_multiset_ensures;

use crate::entities::{Chapter, ChapterOrdering, Comic};
use crate::error::LibraryError;
use crate::numbering::{
    chapter_number_from_path, compile_orderings, file_extension, file_stem, key_le, key_less_eq,
    lemma_key_le_total, lemma_key_le_trans, pattern_compiles, patterns_of, sort_key,
    split_file_name, CompiledOrdering,
};

verus! {

/// One entry of a directory listing, as the file system reported it.
#[derive(Clone, Debug, PartialEq, Eq)]
pub struct DirEntryInfo {
    /// The entry's own name, without any directory part.
    pub name: String,
    pub is_dir: bool,
    pub is_file: bool,
}

/// A name is hidden when it starts with a dot.
pub open spec fn not_hidden(name: Seq<char>) -> bool {
    name.len() > 0 && name[0] != '.'
}

/// The extension that marks a chapter archive.
pub open spec fn archive_extension() -> Seq<char> {
    seq!['c', 'b', 'z']
}

pub open spec fn is_series_dir(e: DirEntryInfo) -> bool {
    e.is_dir && not_hidden(e.name@)
}

pub open spec fn is_chapter_file(e: DirEntryInfo) -> bool {
    e.is_file && not_hidden(e.name@) && file_extension(e.name@) == Some(archive_extension())
}

/// The names of the entries that `keep` accepts, in listing order.
pub open spec fn names_where(es: Seq<DirEntryInfo>, keep: spec_fn(DirEntryInfo) -> bool) -> Seq<
    Seq<char>,
>
    decreases es.len(),
{
    if es.len() == 0 {
        Seq::empty()
    } else {
        let r = names_where(es.drop_last(), keep);
        if keep(es.last()) {
            r.push(es.last().name@)
        } else {
            r
        }
    }
}

pub open spec fn string_views(s: Seq<String>) -> Seq<Seq<char>> {
    s.map_values(|x: String| x@)
}

/// Whether `name` is visible, that is, does not start with a dot.
pub fn is_not_hidden(name: &str) -> (r: bool)
    ensures
        r == not_hidden(name@),
{
    name.unicode_len() > 0 && name.get_char(0) != '.'
}

fn is_archive_entry(e: &DirEntryInfo) -> (r: bool)
    ensures
        r == is_chapter_file(*e),
{
    if !e.is_file || !is_not_hidden(e.name.as_str()) {
        return false;
    }
    let (_, ext) = split_file_name(e.name.as_str());
    match ext {
        Some(x) => {
            let s = x.as_str();
            let r = s.unicode_len() == 3 && s.get_char(0) == 'c' && s.get_char(1) == 'b'
                && s.get_char(2) == 'z';
            assert(r == (x@ =~= archive_extension()));
            r
        },
        None => false,
    }
}

/// The names of the series directories in a listing of the library root: the visible
/// directories, in listing order.
pub fn series_dirs(entries: &Vec<DirEntryInfo>) -> (r: Vec<String>)
    ensures
        string_views(r@) == names_where(entries@, |e: DirEntryInfo| is_series_dir(e)),
{
    let mut out: Vec<String> = Vec::new();
    let mut i: usize = 0;
    while i < entries.len()
        invariant
            i <= entries@.len(),
            string_views(out@) == names_where(entries@.take(i as int), |e: DirEntryInfo| is_series_dir(e)),
        decreases entries@.len() - i,
    {
        assert(entries@.take(i + 1).drop_last() =~= entries@.take(i as int));
        let e = &entries[i];
        if e.is_dir && is_not_hidden(e.name.as_str()) {
            out.push(e.name.clone());
        }
        assert(string_views(out@) =~= names_where(entries@.take(i + 1), |e: DirEntryInfo| is_series_dir(e)));
        i = i + 1;
    }
    assert(entries@.take(entries@.len() as int) =~= entries@);
    out
}

fn chapter_files(entries: &Vec<DirEntryInfo>) -> (r: Vec<String>)
    ensures
        string_views(r@) == names_where(entries@, |e: DirEntryInfo| is_chapter_file(e)),
        r@.len() <= entries@.len(),
{
    let mut out: Vec<String> = Vec::new();
    let mut i: usize = 0;
    while i < entries.len()
        invariant
            i <= entries@.len(),
            out@.len() <= i,
            string_views(out@) == names_where(entries@.take(i as int), |e: DirEntryInfo| is_chapter_file(e)),
        decreases entries@.len() - i,
    {
        assert(entries@.take(i + 1).drop_last() =~= entries@.take(i as int));
        if is_archive_entry(&entries[i]) {
            out.push(entries[i].name.clone());
        }
        assert(string_views(out@) =~= names_where(entries@.take(i + 1), |e: DirEntryInfo| is_chapter_file(e)));
        i = i + 1;
    }
    assert(entries@.take(entries@.len() as int) =~= entries@);
    out
}

pub open spec fn item_names(s: Seq<(Vec<u32>, String)>) -> Seq<Seq<char>> {
    s.map_values(|x: (Vec<u32>, String)| x.1@)
}

/// Sorts file names by their sort key; files of equal key keep their relative order.
fn sort_by_key(files: Vec<String>, orderings: &Vec<CompiledOrdering>) -> (r: Vec<(Vec<u32>, String)>)
    requires
        orderings@.len() < u32::MAX,
    ensures
        item_names(r@).to_multiset() == string_views(files@).to_multiset(),
        r@.len() == files@.len(),
        forall|k: int| 0 <= k < r@.len() ==> (#[trigger] r@[k]).0@ == sort_key(
            patterns_of(orderings@),
            file_stem(r@[k].1@),
        ),
        forall|a: int, b: int| 0 <= a < b < r@.len() ==> key_le(r@[a].0@, r@[b].0@),
{
    broadcast use group_to_multiset_ensures;

    let ghost ps = patterns_of(orderings@);
    let mut sorted: Vec<(Vec<u32>, String)> = Vec::new();
    let mut i: usize = 0;
    while i < files.len()
        invariant
            i <= files@.len(),
            orderings@.len() < u32::MAX,
            ps == patterns_of(orderings@),
            sorted@.len() == i,
            item_names(sorted@).to_multiset() == string_views(files@.take(i as int)).to_multiset(),
            forall|k: int| 0 <= k < sorted@.len() ==> (#[trigger] sorted@[k]).0@ == sort_key(
                ps,
                file_stem(sorted@[k].1@),
            ),
            forall|a: int, b: int| 0 <= a < b < sorted@.len() ==> key_le(sorted@[a].0@, sorted@[b].0@),
        decreases files@.len() - i,
    {
        let name = files[i].clone();
        let key = chapter_number_from_path(name.as_str(), orderings);
        let mut p: usize = 0;
        while p < sorted.len() && key_less_eq(&sorted[p].0, &key)
            invariant
                p <= sorted@.len(),
                forall|q: int| 0 <= q < p ==> key_le(#[trigger] sorted@[q].0@, key@),
            decreases sorted@.len() - p,
        {
            p = p + 1;
        }
        proof {
            if p < sorted@.len() {
                lemma_key_le_total(sorted@[p as int].0@, key@);
                assert forall|q: int| p <= q < sorted@.len() implies key_le(key@, #[trigger] sorted@[q].0@) by {
                    if q > p {
                        lemma_key_le_trans(key@, sorted@[p as int].0@, sorted@[q].0@);
                    }
                }
            }
        }
        let ghost before = sorted@;
        let item = (key, name);
        sorted.insert(p, item);
        proof {
            assert(files@.take(i + 1) =~= files@.take(i as int).push(files@[i as int]));
            assert(string_views(files@.take(i + 1)) =~= string_views(files@.take(i as int)).push(
                files@[i as int]@,
            ));
            assert(item_names(sorted@) =~= item_names(before).insert(p as int, files@[i as int]@));
            vstd::seq_lib::to_multiset_insert(item_names(before), p as int, files@[i as int]@);
            vstd::seq_lib::to_multiset_build(string_views(files@.take(i as int)), files@[i as int]@);
            assert(item_names(sorted@).to_multiset() == item_names(before).to_multiset().insert(
                files@[i as int]@,
            ));
            assert(string_views(files@.take(i + 1)).to_multiset() == string_views(
                files@.take(i as int),
            ).to_multiset().insert(files@[i as int]@));
            assert forall|a: int, b: int| 0 <= a < b < sorted@.len() implies key_le(
                sorted@[a].0@,
                sorted@[b].0@,
            ) by {
                if a < p && b > p {
                    assert(sorted@[a] == before[a]);
                    assert(sorted@[b] == before[b - 1]);
                } else if a < p && b == p {
                    assert(sorted@[a] == before[a]);
                } else if a == p {
                    assert(sorted@[b] == before[b - 1]);
                } else if a > p {
                    assert(sorted@[a] == before[a - 1]);
                    assert(sorted@[b] == before[b - 1]);
                }
            }
            assert forall|k: int| 0 <= k < sorted@.len() implies (#[trigger] sorted@[k]).0@ == sort_key(
                ps,
                file_stem(sorted@[k].1@),
            ) by {
                if k < p {
                    assert(sorted@[k] == before[k]);
                } else if k > p {
                    assert(sorted@[k] == before[k - 1]);
                }
            }
        }
        i = i + 1;
    }
    assert(files@.take(files@.len() as int) =~= files@);
    sorted
}

/// The relative path of the archive `file` in the series directory `dir`.
pub open spec fn chapter_path(dir: Seq<char>, file: Seq<char>) -> Seq<char> {
    dir + seq!['/'] + file
}

/// A chapter just found on disk: numbered, named after its stem, nothing read or counted yet.
pub open spec fn fresh_chapter(
    c: Chapter,
    dir: Seq<char>,
    file: Seq<char>,
    number: int,
    comic_id: u32,
) -> bool {
    &&& c.id == 0
    &&& c.path@ == chapter_path(dir, file)
    &&& c.name@ == file_stem(file)
    &&& c.chapter_number == number
    &&& c.read == 0
    &&& c.pages == 0
    &&& c.comic_id == comic_id
}

/// `chs` are the chapters of the series directory `dir` whose listing is `entries`: one fresh
/// chapter for each visible `.cbz` file, in an order that sorts the files' keys under
/// `patterns`, numbered from 1.
pub open spec fn listed_chapters(
    chs: Seq<Chapter>,
    dir: Seq<char>,
    entries: Seq<DirEntryInfo>,
    patterns: Seq<Seq<char>>,
    comic_id: u32,
) -> bool {
    exists|files: Seq<Seq<char>>|
        {
            &&& #[trigger] files.to_multiset() == names_where(
                entries,
                |e: DirEntryInfo| is_chapter_file(e),
            ).to_multiset()
            &&& files.len() == chs.len()
            &&& forall|k: int|
                0 <= k < chs.len() ==> fresh_chapter(#[trigger] chs[k], dir, files[k], k + 1, comic_id)
            &&& forall|a: int, b: int|
                0 <= a < b < chs.len() ==> key_le(
                    sort_key(patterns, file_stem(#[trigger] files[a])),
                    sort_key(patterns, file_stem(#[trigger] files[b])),
                )
        }
}

/// The chapters of the series directory `dir`, from the listing `entries` of that directory:
/// the visible `.cbz` files, sorted by their sort key under `orderings` and numbered from 1 in
/// that order.
pub fn scan_chapters(
    dir: &String,
    entries: &Vec<DirEntryInfo>,
    orderings: &Vec<CompiledOrdering>,
    comic_id: u32,
) -> (r: Vec<Chapter>)
    requires
        entries@.len() < u32::MAX,
        orderings@.len() < u32::MAX,
    ensures
        listed_chapters(r@, dir@, entries@, patterns_of(orderings@), comic_id),
{
    let files = chapter_files(entries);
    let sorted = sort_by_key(files, orderings);
    let ghost names = item_names(sorted@);
    let mut out: Vec<Chapter> = Vec::new();
    let mut k: usize = 0;
    while k < sorted.len()
        invariant
            k <= sorted@.len() < u32::MAX,
            names == item_names(sorted@),
            out@.len() == k,
            forall|m: int| 0 <= m < k ==> fresh_chapter(#[trigger] out@[m], dir@, names[m], m + 1, comic_id),
        decreases sorted@.len() - k,
    {
        let file = &sorted[k].1;
        let (stem, _) = split_file_name(file.as_str());
        proof {
            reveal_strlit("/");
        }
        let mut path = dir.clone();
        path.append("/");
        path.append(file.as_str());
        let c = Chapter {
            id: 0,
            path,
            name: stem,
            chapter_number: (k + 1) as u32,
            read: 0,
            pages: 0,
            comic_id,
        };
        out.push(c);
        assert(fresh_chapter(out@[k as int], dir@, names[k as int], k + 1, comic_id)) by {
            assert(out@[k as int].path@ =~= chapter_path(dir@, names[k as int]));
        }
        k = k + 1;
    }
    assert forall|a: int, b: int| 0 <= a < b < out@.len() implies key_le(
        sort_key(patterns_of(orderings@), file_stem(#[trigger] names[a])),
        sort_key(patterns_of(orderings@), file_stem(#[trigger] names[b])),
    ) by {
        assert(sorted@[a].0@ == sort_key(patterns_of(orderings@), file_stem(sorted@[a].1@)));
        assert(sorted@[b].0@ == sort_key(patterns_of(orderings@), file_stem(sorted@[b].1@)));
    }
    assert(names.to_multiset() == names_where(entries@, |e: DirEntryInfo| is_chapter_file(e)).to_multiset());
    assert(listed_chapters(out@, dir@, entries@, patterns_of(orderings@), comic_id));
    out
}

/// The identifier of the first persisted series whose directory is `dir`, or 0 when the
/// series is not persisted yet.
pub open spec fn persisted_id_of(persisted: Seq<Comic>, dir: Seq<char>) -> u32
    decreases persisted.len(),
{
    if persisted.len() == 0 {
        0
    } else if persisted[0].dir_path@ == dir {
        persisted[0].id
    } else {
        persisted_id_of(persisted.drop_first(), dir)
    }
}

pub fn persisted_id(persisted: &Vec<Comic>, dir: &String) -> (r: u32)
    ensures
        r == persisted_id_of(persisted@, dir@),
{
    let mut i: usize = 0;
    assert(persisted@.skip(0) =~= persisted@);
    while i < persisted.len()
        invariant
            i <= persisted@.len(),
            persisted_id_of(persisted@, dir@) == persisted_id_of(persisted@.skip(i as int), dir@),
        decreases persisted@.len() - i,
    {
        assert(persisted@.skip(i as int).drop_first() =~= persisted@.skip(i + 1));
        if persisted[i].dir_path == *dir {
            return persisted[i].id;
        }
        i = i + 1;
    }
    0
}

/// The series found in the directory `dir`, with the chapters of its listing `entries`
/// numbered under the series' orderings; fails when an ordering's pattern does not compile.
pub fn scan_comic(
    dir: &String,
    entries: &Vec<DirEntryInfo>,
    id: u32,
    orderings: &Vec<ChapterOrdering>,
    is_manga: bool,
) -> (r: Result<Comic, LibraryError>)
    requires
        entries@.len() < u32::MAX,
        orderings@.len() < u32::MAX,
    ensures
        r is Ok <==> forall|i: int|
            0 <= i < orderings@.len() ==> pattern_compiles(#[trigger] orderings@[i].regex@),
        r matches Err(e) ==> e matches LibraryError::InvalidOrdering { index } && index
            < orderings@.len() && !pattern_compiles(orderings@[index as int].regex@),
        r matches Ok(c) ==> {
            &&& c.id == id
            &&& c.dir_path@ == dir@
            &&& c.name@ == dir@
            &&& c.cover_path is None
            &&& c.is_manga == is_manga
            &&& c.chapter_count is None
            &&& c.chapter_read is None
            &&& listed_chapters(
                c.chapters@,
                dir@,
                entries@,
                orderings@.map_values(|o: ChapterOrdering| o.regex@),
                id,
            )
        },
{
    let compiled = match compile_orderings(orderings) {
        Ok(c) => c,
        Err(e) => {
            return Err(e);
        },
    };
    assert(patterns_of(compiled@) =~= orderings@.map_values(|o: ChapterOrdering| o.regex@));
    let chapters = scan_chapters(dir, entries, &compiled, id);
    Ok(
        Comic {
            id,
            dir_path: dir.clone(),
            name: dir.clone(),
            cover_path: None,
            is_manga,
            chapters,
            chapter_count: None,
            chapter_read: None,
        },
    )
}

} // verus!
