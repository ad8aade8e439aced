//! Locating a page image inside a chapter archive.

use vstd::prelude::*;

use crate::numbering::{file_extension, split_file_name};

verus! {

/// The archive entry that holds page `page`, counted from 1; page 0 does not exist.
pub fn page_index(page: usize) -> (r: Option<usize>)
    ensures
        page == 0 ==> r is None,
        page > 0 ==> r == Some((page - 1) as usize),
{
    if page == 0 {
        None
    } else {
        Some(page - 1)
    }
}

/// The media type of a page image, from the extension of its entry name.
pub fn page_mime_type(entry_name: &str) -> (r: Option<String>)
    ensures
        match file_extension(entry_name@) {
            Some(ext) => r matches Some(m) && m@ == "image/"@ + ext,
            None => r is None,
        },
{
    let (_, ext) = split_file_name(entry_name);
    match ext {
        Some(e) => {
            let mut m = "image/".to_owned();
            m.append(e.as_str());
            Some(m)
        },
        None => None,
    }
}

} // verus!
