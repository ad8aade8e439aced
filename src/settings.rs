use vstd::prelude::*;

verus! {

/// A configured library: a root directory under a display name.
#[derive(Clone, Debug, PartialEq, Eq, Default)]
pub struct LibraryConfig {
    pub id: usize,
    pub name: String,
    /// Absolute path of the library root.
    pub path: String,
}

/// The application's libraries and which of them is open.
#[derive(Clone, Debug, PartialEq, Eq)]
pub struct Settings {
    pub libraries: Vec<LibraryConfig>,
    pub selected_library: Option<usize>,
    /// The identifier the next added library receives.
    pub next_library_id: usize,
}

/// Index of the first library with identifier `id`.
pub open spec fn library_index(libraries: Seq<LibraryConfig>, id: usize) -> Option<int>
    decreases libraries.len(),
{
    if libraries.len() == 0 {
        None
    } else if libraries[0].id == id {
        Some(0)
    } else {
        match library_index(libraries.drop_first(), id) {
            Some(i) => Some(i + 1),
            None => None,
        }
    }
}

proof fn lemma_library_index_at(libraries: Seq<LibraryConfig>, id: usize, i: int)
    requires
        0 <= i <= libraries.len(),
        forall|k: int| 0 <= k < i ==> (#[trigger] libraries[k]).id != id,
        i < libraries.len() ==> libraries[i].id == id,
    ensures
        library_index(libraries, id) == (if i < libraries.len() {
            Some(i)
        } else {
            None::<int>
        }),
    decreases i,
{
    if i > 0 {
        let t = libraries.drop_first();
        assert forall|k: int| 0 <= k < i - 1 implies (#[trigger] t[k]).id != id by {
            assert(t[k] == libraries[k + 1]);
        }
        if i < libraries.len() {
            assert(t[i - 1] == libraries[i]);
        }
        lemma_library_index_at(t, id, i - 1);
    }
}

fn find_library(libraries: &Vec<LibraryConfig>, id: usize) -> (r: Option<usize>)
    ensures
        r matches Some(i) ==> i < libraries@.len(),
        match r {
            Some(i) => library_index(libraries@, id) == Some(i as int),
            None => library_index(libraries@, id) is None,
        },
{
    let mut i: usize = 0;
    while i < libraries.len() && libraries[i].id != id
        invariant
            i <= libraries@.len(),
            forall|k: int| 0 <= k < i ==> (#[trigger] libraries@[k]).id != id,
        decreases libraries@.len() - i,
    {
        i = i + 1;
    }
    proof {
        lemma_library_index_at(libraries@, id, i as int);
    }
    if i < libraries.len() {
        Some(i)
    } else {
        None
    }
}

/// The position of the library with identifier `id`, or an error naming the missing library.
pub fn get_idx(libraries: &Vec<LibraryConfig>, id: usize) -> (r: Result<usize, String>)
    ensures
        match r {
            Ok(i) => library_index(libraries@, id) == Some(i as int) && i < libraries@.len(),
            Err(_) => library_index(libraries@, id) is None,
        },
{
    match find_library(libraries, id) {
        Some(i) => Ok(i),
        None => Err("library doesn't exist".to_owned()),
    }
}

impl Settings {
    /// The selected library, when one is selected and configured.
    pub fn library(&self) -> (r: Option<&LibraryConfig>)
        ensures
            match self.selected_library {
                Some(sel) => match library_index(self.libraries@, sel) {
                    Some(i) => r == Some(&self.libraries@[i]),
                    None => r is None,
                },
                None => r is None,
            },
    {
        match self.selected_library {
            Some(sel) => match find_library(&self.libraries, sel) {
                Some(i) => Some(&self.libraries[i]),
                None => None,
            },
            None => None,
        }
    }
}

/// What the host must do with the open library after a settings change.
#[derive(Clone, Copy, Debug, PartialEq, Eq)]
pub enum LibraryChange {
    /// Keep the open library as it is.
    Unchanged,
    /// Open the library at this index of `libraries`.
    Load(usize),
    /// Close the open library; none is selected any more.
    Unload,
}

/// The index of the first library, other than one with identifier `id`, in `libraries`.
pub open spec fn other_library(libraries: Seq<LibraryConfig>, id: usize) -> Option<int>
    decreases libraries.len(),
{
    if libraries.len() == 0 {
        None
    } else if libraries[0].id != id {
        Some(0)
    } else {
        match other_library(libraries.drop_first(), id) {
            Some(i) => Some(i + 1),
            None => None,
        }
    }
}

proof fn lemma_other_library_at(libraries: Seq<LibraryConfig>, id: usize, i: int)
    requires
        0 <= i <= libraries.len(),
        forall|k: int| 0 <= k < i ==> (#[trigger] libraries[k]).id == id,
        i < libraries.len() ==> libraries[i].id != id,
    ensures
        other_library(libraries, id) == (if i < libraries.len() {
            Some(i)
        } else {
            None::<int>
        }),
    decreases i,
{
    if i > 0 {
        let t = libraries.drop_first();
        assert forall|k: int| 0 <= k < i - 1 implies (#[trigger] t[k]).id == id by {
            assert(t[k] == libraries[k + 1]);
        }
        if i < libraries.len() {
            assert(t[i - 1] == libraries[i]);
        }
        lemma_other_library_at(t, id, i - 1);
    }
}

impl Settings {
    /// Selects the library with identifier `id`. When it was not selected already, the
    /// selection changes and the library is to be loaded; an unknown identifier is an
    /// error, with the selection changed all the same.
    pub fn select_library(&mut self, id: usize) -> (r: Result<LibraryChange, String>)
        ensures
            final(self).libraries@ == old(self).libraries@,
            final(self).next_library_id == old(self).next_library_id,
            final(self).selected_library == Some(id),
            old(self).selected_library == Some(id) ==> r == Ok::<LibraryChange, String>(
                LibraryChange::Unchanged,
            ),
            old(self).selected_library != Some(id) ==> match library_index(old(self).libraries@, id) {
                Some(i) => r == Ok::<LibraryChange, String>(LibraryChange::Load(i as usize)),
                None => r is Err,
            },
    {
        if self.selected_library == Some(id) {
            return Ok(LibraryChange::Unchanged);
        }
        self.selected_library = Some(id);
        match find_library(&self.libraries, id) {
            Some(i) => Ok(LibraryChange::Load(i)),
            None => Err("Invalid Library id".to_owned()),
        }
    }

    /// Adds `lib` under the next free identifier and returns that identifier; the first
    /// library added is selected at once.
    pub fn add_library(&mut self, lib: LibraryConfig) -> (r: (usize, Result<LibraryChange, String>))
        requires
            old(self).next_library_id < usize::MAX,
        ensures
            r.0 == old(self).next_library_id,
            final(self).next_library_id == old(self).next_library_id + 1,
            final(self).libraries@ == old(self).libraries@.push(LibraryConfig { id: r.0, ..lib }),
            final(self).libraries@.len() == 1 ==> final(self).selected_library == Some(r.0) && (
            old(self).selected_library == Some(r.0) ==> r.1 == Ok::<LibraryChange, String>(
                LibraryChange::Unchanged,
            )) && (old(self).selected_library != Some(r.0) ==> r.1 == Ok::<LibraryChange, String>(
                LibraryChange::Load(0),
            )),
            final(self).libraries@.len() != 1 ==> final(self).selected_library == old(self).selected_library
                && r.1 == Ok::<LibraryChange, String>(LibraryChange::Unchanged),
    {
        let id = self.next_library_id;
        let mut lib = lib;
        lib.id = id;
        self.next_library_id = id + 1;
        self.libraries.push(lib);
        if self.libraries.len() == 1 {
            proof {
                lemma_library_index_at(self.libraries@, id, 0);
            }
            (id, self.select_library(id))
        } else {
            (id, Ok(LibraryChange::Unchanged))
        }
    }

    /// Replaces the library that has `lib`'s identifier by `lib`. When it is the selected
    /// library and its path changed, it is to be loaded again.
    pub fn update_library(&mut self, lib: LibraryConfig) -> (r: Result<LibraryChange, String>)
        ensures
            final(self).next_library_id == old(self).next_library_id,
            final(self).selected_library == old(self).selected_library,
            match library_index(old(self).libraries@, lib.id) {
                None => r is Err && final(self).libraries@ == old(self).libraries@,
                Some(i) => {
                    &&& final(self).libraries@ == old(self).libraries@.update(i, lib)
                    &&& if old(self).selected_library == Some(lib.id) && lib.path@
                        != old(self).libraries@[i].path@ {
                        r == Ok::<LibraryChange, String>(LibraryChange::Load(i as usize))
                    } else {
                        r == Ok::<LibraryChange, String>(LibraryChange::Unchanged)
                    }
                },
            },
    {
        let id = lib.id;
        let idx = match get_idx(&self.libraries, id) {
            Ok(i) => i,
            Err(e) => {
                return Err(e);
            },
        };
        let ghost before = self.libraries@;
        let old_lib = self.libraries.remove(idx);
        let changed = lib.path != old_lib.path;
        self.libraries.insert(idx, lib);
        assert(self.libraries@ =~= before.update(idx as int, lib));
        if self.selected_library == Some(id) && changed {
            Ok(LibraryChange::Load(idx))
        } else {
            Ok(LibraryChange::Unchanged)
        }
    }

    /// Removes the library with identifier `id`. When it was the selected one, the first
    /// remaining library is selected instead; when no library remains, the selection is
    /// cleared.
    pub fn delete_library(&mut self, id: usize) -> (r: Result<LibraryChange, String>)
        ensures
            final(self).next_library_id == old(self).next_library_id,
            match library_index(old(self).libraries@, id) {
                None => r is Err && *final(self) == *old(self),
                Some(i) => {
                    let rest = old(self).libraries@.remove(i);
                    &&& final(self).libraries@ == rest
                    &&& match (old(self).selected_library, other_library(rest, id)) {
                        (Some(sel), Some(k)) => if sel == id {
                            &&& final(self).selected_library == Some(rest[k].id)
                            &&& match library_index(rest, rest[k].id) {
                                Some(m) => r == Ok::<LibraryChange, String>(
                                    LibraryChange::Load(m as usize),
                                ),
                                None => r is Err,
                            }
                        } else {
                            &&& final(self).selected_library == old(self).selected_library
                            &&& r == Ok::<LibraryChange, String>(LibraryChange::Unchanged)
                        },
                        (Some(_), None) => {
                            &&& final(self).selected_library is None
                            &&& r == Ok::<LibraryChange, String>(LibraryChange::Unload)
                        },
                        (None, _) => {
                            &&& final(self).selected_library is None
                            &&& r == Ok::<LibraryChange, String>(LibraryChange::Unchanged)
                        },
                    }
                },
            },
    {
        let idx = match get_idx(&self.libraries, id) {
            Ok(i) => i,
            Err(e) => {
                return Err(e);
            },
        };
        self.libraries.remove(idx);
        let mut k: usize = 0;
        while k < self.libraries.len() && self.libraries[k].id == id
            invariant
                k <= self.libraries@.len(),
                forall|m: int| 0 <= m < k ==> (#[trigger] self.libraries@[m]).id == id,
            decreases self.libraries@.len() - k,
        {
            k = k + 1;
        }
        proof {
            lemma_other_library_at(self.libraries@, id, k as int);
        }
        match self.selected_library {
            Some(sel) => {
                if k < self.libraries.len() {
                    if sel == id {
                        let next = self.libraries[k].id;
                        assert(self.selected_library != Some(next));
                        self.select_library(next)
                    } else {
                        Ok(LibraryChange::Unchanged)
                    }
                } else {
                    self.selected_library = None;
                    Ok(LibraryChange::Unload)
                }
            },
            None => Ok(LibraryChange::Unchanged),
        }
    }
}

impl Default for Settings {
    fn default() -> (r: Settings)
        ensures
            r.libraries@.len() == 0,
            r.selected_library is None,
            r.next_library_id == 1,
    {
        Settings { libraries: Vec::new(), selected_library: None, next_library_id: 1 }
    }
}

/// Where the application keeps its configuration.
pub struct ComicProjDirs {
    config_dir: String,
}

impl ComicProjDirs {
    pub fn new(config_dir: String) -> (r: ComicProjDirs)
        ensures
            r.config_dir_view() == config_dir@,
    {
        ComicProjDirs { config_dir }
    }

    pub closed spec fn config_dir_view(&self) -> Seq<char> {
        self.config_dir@
    }

    pub fn config_dir(&self) -> (r: &String)
        ensures
            r@ == self.config_dir_view(),
    {
        &self.config_dir
    }

    /// The settings file: `config.json` in the configuration directory.
    pub fn config_file_path(&self) -> (r: String)
        ensures
            r@ == self.config_dir_view() + seq!['/'] + seq!['c', 'o', 'n', 'f', 'i', 'g', '.', 'j', 's', 'o', 'n'],
    {
        proof {
            reveal_strlit("/");
            reveal_strlit("config.json");
        }
        let mut p = self.config_dir.clone();
        p.append("/");
        p.append("config.json");
        p
    }
}

} // verus!
