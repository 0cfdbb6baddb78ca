//! The read-only file system of a loaded archive: opening files, reading
//! metadata and listing directories by path.
use crate::error::Error;
use crate::file::File;
use crate::format::{
    first_request, LoadAction, LoadStage, Loader, MagicNumber, MAGIC_NUMBER_END, MAGIC_NUMBER_START,
};
use crate::meta::{DirEntry, FileType, Metadata, ReadDir};
use crate::path::{
    is_plain, join_components, lemma_normalize_pushed, lemma_normalized_plain, normalize_and_strip,
    normalized_components, path_components, push_path, pushed_path,
};
use crate::tree::{
    entry_names, lemma_find_dir_push, lemma_find_dir_valid, lemma_find_file_push,
    lemma_unique_lookup, Dir, FileHeader,
};
use vstd::prelude::*;

verus! {

/// The header of an archive: the root directory, the size of the data of
/// all files, and where that data starts in the file holding the archive
/// (stored too, but set anew once the archive is located).
#[derive(Debug)]
pub struct FRFSHeader {
    pub root: Dir,
    pub data_size: u64,
    pub start_at: u64,
}

/// A read-only file system: the header of a loaded archive. Its tree is
/// always well formed (names are unique in each directory).
#[derive(Debug)]
pub struct FRFS {
    header: FRFSHeader,
}

impl FRFS {
    #[verifier::type_invariant]
    spec fn inv(self) -> bool {
        self.header.root.wf()
    }

    /// The root directory.
    pub closed spec fn root(self) -> Dir {
        self.header.root
    }

    /// Where the data of the files starts in the file holding the archive.
    pub closed spec fn start(self) -> u64 {
        self.header.start_at
    }

    /// The size of the data of all files.
    pub closed spec fn data_size(self) -> u64 {
        self.header.data_size
    }

    /// Where the data of the files starts in the file holding the archive.
    pub fn start_at(&self) -> (r: u64)
        ensures
            r == self.start(),
    {
        self.header.start_at
    }

    /// The file that `path` names, if any.
    pub open spec fn file_at(self, path: Seq<char>) -> Option<FileHeader> {
        self.root().find_file(normalized_components(path))
    }

    /// The directory that `path` names, if any.
    pub open spec fn dir_at(self, path: Seq<char>) -> Option<Dir> {
        self.root().find_dir(normalized_components(path))
    }

    /// Opening `path` computes the file's absolute start without overflow.
    pub open spec fn start_fits(self, path: Seq<char>) -> bool {
        match self.file_at(path) {
            Some(h) => self.start() + h.start_at <= u64::MAX,
            None => true,
        }
    }

    /// A file system over a parsed header whose file data starts at
    /// `data_start` within the window `base` of the file holding the
    /// archive.
    pub fn from_header(header: FRFSHeader, data_start: u64, base: &File) -> (r: FRFS)
        requires
            data_start + base@.header.start_at <= u64::MAX,
            header.root.wf(),
        ensures
            r.root() == header.root,
            r.data_size() == header.data_size,
            r.start() == data_start + base@.header.start_at,
            r.root().wf(),
    {
        let mut header = header;
        header.start_at = data_start + base.header().start_at;
        FRFS { header }
    }

    /// Starts loading an archive from `base` with the default magic numbers.
    pub fn loader(base: &File) -> (r: (Loader, LoadAction))
        ensures
            r.0.magic_number_start == MAGIC_NUMBER_START,
            r.0.magic_number_end == MAGIC_NUMBER_END,
            r.0.file_size == base@.header.file_size,
            r.0.stage == (if r.1@ is Fail {
                LoadStage::Done
            } else {
                LoadStage::EndMagic
            }),
            r.1@ == first_request(base@.header.file_size),
            r.1 matches LoadAction::Fail(e) ==> e is IllegalData,
    {
        Loader::new(MAGIC_NUMBER_START, MAGIC_NUMBER_END, base.header().file_size)
    }

    /// Starts loading an archive from `base` with the given magic numbers.
    pub fn loader_with_header(
        base: &File,
        magic_number_start: MagicNumber,
        magic_number_end: MagicNumber,
    ) -> (r: (Loader, LoadAction))
        ensures
            r.0.magic_number_start == magic_number_start,
            r.0.magic_number_end == magic_number_end,
            r.0.file_size == base@.header.file_size,
            r.0.stage == (if r.1@ is Fail {
                LoadStage::Done
            } else {
                LoadStage::EndMagic
            }),
            r.1@ == first_request(base@.header.file_size),
            r.1 matches LoadAction::Fail(e) ==> e is IllegalData,
    {
        Loader::new(magic_number_start, magic_number_end, base.header().file_size)
    }

    /// Whether opening `path` computes the file's absolute start without
    /// overflow; see [`FRFS::start_fits`].
    pub fn open_fits(&self, path: &str) -> (r: bool)
        ensures
            r == self.start_fits(path@),
    {
        let components = path_components(path);
        proof {
            assert(components@.map_values(|c: String| c@).skip(0) =~= components@.map_values(
                |c: String| c@,
            ));
        }
        match self.header.root.open_file(&components, 0) {
            Some(h) => h.start_at <= u64::MAX - self.header.start_at,
            None => true,
        }
    }

    /// The file found by walking `components`, as an opened file at its
    /// start.
    fn open_file(&self, components: &Vec<String>) -> (r: Result<File, Error>)
        requires
            match self.header.root.find_file(components@.map_values(|c: String| c@)) {
                Some(h) => self.header.start_at + h.start_at <= u64::MAX,
                None => true,
            },
        ensures
            match self.header.root.find_file(components@.map_values(|c: String| c@)) {
                Some(h) => r matches Ok(f) && f@.offset == 0 && f@.header == (FileHeader {
                    file_size: h.file_size,
                    start_at: (self.header.start_at + h.start_at) as u64,
                }),
                None => r matches Err(e) && e is NotFound,
            },
    {
        proof {
            assert(components@.map_values(|c: String| c@).skip(0) =~= components@.map_values(
                |c: String| c@,
            ));
        }
        match self.header.root.open_file(components, 0) {
            Some(file) => Ok(
                File::with_header(
                    FileHeader {
                        file_size: file.file_size,
                        start_at: self.header.start_at + file.start_at,
                    },
                ),
            ),
            None => Err(Error::NotFound),
        }
    }

    /// The directory found by walking `components`.
    fn open_dir<'a>(&'a self, components: &Vec<String>) -> (r: Result<&'a Dir, Error>)
        ensures
            match self.header.root.find_dir(components@.map_values(|c: String| c@)) {
                Some(d) => r matches Ok(x) && *x == d,
                None => r matches Err(e) && e is NotFound,
            },
    {
        proof {
            assert(components@.map_values(|c: String| c@).skip(0) =~= components@.map_values(
                |c: String| c@,
            ));
        }
        match self.header.root.open_dir(components, 0) {
            Some(d) => Ok(d),
            None => Err(Error::NotFound),
        }
    }

    /// The directory at `path`.
    pub fn dir_for(&self, path: &str) -> (r: Result<&Dir, Error>)
        ensures
            match self.dir_at(path@) {
                Some(d) => r matches Ok(x) && *x == d,
                None => r matches Err(e) && e is NotFound,
            },
    {
        let components = path_components(path);
        self.open_dir(&components)
    }

    /// Opens the file at `path`; a leading `/` or none both start from the
    /// root, and `.` and `..` are resolved lexically. The file's window
    /// starts at the archive data's start plus the file's offset.
    pub fn open(&self, path: &str) -> (r: Result<File, Error>)
        requires
            self.start_fits(path@),
        ensures
            match self.file_at(path@) {
                Some(h) => r matches Ok(f) && f@.offset == 0 && f@.header == (FileHeader {
                    file_size: h.file_size,
                    start_at: (self.start() + h.start_at) as u64,
                }),
                None => r matches Err(e) && e is NotFound,
            },
    {
        let components = path_components(path);
        self.open_file(&components)
    }

    /// The metadata of the file or directory at `path`: a file's size and
    /// type "file", or size 0 and type "directory"; a file wins over a
    /// directory of the same name.
    pub fn metadata(&self, path: &str) -> (r: Result<Metadata, Error>)
        requires
            self.start_fits(path@),
        ensures
            match self.file_at(path@) {
                Some(h) => r matches Ok(m) && m == Metadata(h.file_size, FileType(true)),
                None => match self.dir_at(path@) {
                    Some(_) => r matches Ok(m) && m == Metadata(0, FileType(false)),
                    None => r matches Err(e) && e is NotFound,
                },
            },
    {
        let components = path_components(path);
        match self.open_file(&components) {
            Ok(file) => file.metadata(),
            Err(e) => match e {
                Error::NotFound => {
                    match self.open_dir(&components) {
                        Ok(_) => {},
                        Err(e) => return Err(e),
                    }
                    Ok(Metadata(0, FileType(false)))
                },
                _ => Err(e),
            },
        }
    }

    /// Whether a file or directory exists at `path`.
    pub fn path_exists(&self, path: &str) -> (r: Result<bool, Error>)
        requires
            self.start_fits(path@),
        ensures
            r matches Ok(b) && b == (self.file_at(path@) is Some || self.dir_at(path@) is Some),
    {
        match self.metadata(path) {
            Ok(_) => Ok(true),
            Err(e) => match e {
                Error::NotFound => Ok(false),
                _ => Err(e),
            },
        }
    }

    /// Lists the directory at `path`: first its subdirectories (size 0),
    /// then its files, each with the path of the directory joined with its
    /// name.
    pub fn read_dir(&self, path: &str) -> (r: Result<ReadDir, Error>)
        ensures
            match self.dir_at(path@) {
                Some(d) => r matches Ok(rd) && ({
                    let base = join_components(normalized_components(path@));
                    &&& rd.data@.len() == d.dirs@.len() + d.files@.len()
                    &&& forall|i: int|
                        0 <= i < d.dirs@.len() ==> DirEntry::listed_ok(#[trigger] rd.data@[i], base, d.dirs@[i].0@, false, 0)
                    &&& forall|i: int|
                        0 <= i < d.files@.len() ==> DirEntry::listed_ok(#[trigger] rd.data@[d.dirs@.len() + i], base, d.files@[i].0@, true, d.files@[i].1.file_size)
                }),
                None => r matches Err(e) && e is NotFound,
            },
            self.root().wf(),
    {
        proof {
            use_type_invariant(self);
        }
        let components = path_components(path);
        let base = normalize_and_strip(path);
        let dir = match self.open_dir(&components) {
            Ok(d) => d,
            Err(e) => return Err(e),
        };
        let mut entries: Vec<Result<DirEntry, Error>> = Vec::new();
        let mut i: usize = 0;
        while i < dir.dirs.len()
            invariant
                i <= dir.dirs@.len(),
                entries@.len() == i,
                forall|j: int|
                    0 <= j < i ==> DirEntry::listed_ok(#[trigger] entries@[j], base@, dir.dirs@[j].0@, false, 0),
            decreases dir.dirs.len() - i,
        {
            let p = push_path(base.as_str(), dir.dirs[i].0.as_str());
            entries.push(Ok(DirEntry { path: p, is_file: false, file_size: 0 }));
            i = i + 1;
        }
        let mut k: usize = 0;
        while k < dir.files.len()
            invariant
                k <= dir.files@.len(),
                entries@.len() == dir.dirs@.len() + k,
                forall|j: int|
                    0 <= j < dir.dirs@.len() ==> DirEntry::listed_ok(#[trigger] entries@[j], base@, dir.dirs@[j].0@, false, 0),
                forall|j: int|
                    0 <= j < k ==> DirEntry::listed_ok(#[trigger] entries@[dir.dirs@.len() + j], base@, dir.files@[j].0@, true, dir.files@[j].1.file_size),
            decreases dir.files.len() - k,
        {
            let p = push_path(base.as_str(), dir.files[k].0.as_str());
            let size = dir.files[k].1.file_size;
            entries.push(Ok(DirEntry { path: p, is_file: true, file_size: size }));
            k = k + 1;
        }
        Ok(ReadDir { data: entries })
    }
}

impl FRFS {
    /// The names of the entries of the directory at `path`: its
    /// subdirectories, then its files.
    pub fn entry_names(&self, path: &str) -> (r: Result<Vec<String>, Error>)
        ensures
            match self.dir_at(path@) {
                Some(d) => r matches Ok(names) && names@.map_values(|n: String| n@) == entry_names(d.dirs@)
                    + entry_names(d.files@),
                None => r matches Err(e) && e is NotFound,
            },
    {
        let components = path_components(path);
        let dir = match self.open_dir(&components) {
            Ok(d) => d,
            Err(e) => return Err(e),
        };
        let ghost want = entry_names(dir.dirs@) + entry_names(dir.files@);
        let mut names: Vec<String> = Vec::new();
        let mut i: usize = 0;
        while i < dir.dirs.len()
            invariant
                i <= dir.dirs@.len(),
                names@.map_values(|n: String| n@) == entry_names(dir.dirs@).take(i as int),
            decreases dir.dirs.len() - i,
        {
            let ghost prev = names@;
            names.push(dir.dirs[i].0.clone());
            i = i + 1;
            proof {
                assert(names@ == prev.push(dir.dirs@[i - 1].0));
                assert(entry_names(dir.dirs@)[i - 1] == dir.dirs@[i - 1].0@);
                assert(names@.map_values(|n: String| n@) =~= prev.map_values(|n: String| n@).push(dir.dirs@[i - 1].0@));
                assert(entry_names(dir.dirs@).take(i as int) =~= entry_names(dir.dirs@).take(i - 1).push(entry_names(dir.dirs@)[i - 1]));
                assert(names@.map_values(|n: String| n@) =~= entry_names(dir.dirs@).take(i as int));
            }
        }
        proof {
            assert(entry_names(dir.dirs@).take(i as int) =~= entry_names(dir.dirs@));
        }
        let mut k: usize = 0;
        while k < dir.files.len()
            invariant
                k <= dir.files@.len(),
                names@.map_values(|n: String| n@) == entry_names(dir.dirs@) + entry_names(dir.files@).take(k as int),
            decreases dir.files.len() - k,
        {
            let ghost prev = names@;
            names.push(dir.files[k].0.clone());
            k = k + 1;
            proof {
                assert(names@ == prev.push(dir.files@[k - 1].0));
                assert(entry_names(dir.files@)[k - 1] == dir.files@[k - 1].0@);
                assert(names@.map_values(|n: String| n@) =~= prev.map_values(|n: String| n@).push(dir.files@[k - 1].0@));
                assert(entry_names(dir.files@).take(k as int) =~= entry_names(dir.files@).take(k - 1).push(entry_names(dir.files@)[k - 1]));
                assert(names@.map_values(|n: String| n@) =~= entry_names(dir.dirs@) + entry_names(dir.files@).take(k as int));
            }
        }
        proof {
            assert(entry_names(dir.files@).take(k as int) =~= entry_names(dir.files@));
        }
        Ok(names)
    }
}

impl File {
    /// Opens the file at `path` of `fs`.
    pub fn open(fs: &FRFS, path: &str) -> (r: Result<File, Error>)
        requires
            fs.start_fits(path@),
        ensures
            match fs.file_at(path@) {
                Some(h) => r matches Ok(f) && f@.offset == 0 && f@.header == (FileHeader {
                    file_size: h.file_size,
                    start_at: (fs.start() + h.start_at) as u64,
                }),
                None => r matches Err(e) && e is NotFound,
            },
    {
        fs.open(path)
    }
}

/// Every entry that listing a directory gives is found again at the path
/// the listing gives it (the directory's path joined with its name): a
/// listed file is the file there, a listed subdirectory the directory there
/// (and no file). This holds where names are unique, no directory has a
/// file and a subdirectory of the same name, and the name is a plain
/// component (not empty, `.` or `..`, and without `/`).
pub proof fn lemma_listed_entries_resolve(fs: FRFS, path: Seq<char>)
    requires
        fs.root().wf(),
        fs.root().names_disjoint(),
        fs.dir_at(path) is Some,
    ensures
        ({
            let d = fs.dir_at(path).unwrap();
            let base = join_components(normalized_components(path));
            &&& forall|i: int|
                0 <= i < d.files@.len() && is_plain(d.files@[i].0@) ==> fs.file_at(
                    #[trigger] pushed_path(base, d.files@[i].0@),
                ) == Some(d.files@[i].1)
            &&& forall|i: int|
                0 <= i < d.dirs@.len() && is_plain(d.dirs@[i].0@) ==> {
                    &&& fs.dir_at(#[trigger] pushed_path(base, d.dirs@[i].0@)) == Some(d.dirs@[i].1)
                    &&& fs.file_at(pushed_path(base, d.dirs@[i].0@)) is None
                }
        }),
{
    let root = fs.root();
    let cs = normalized_components(path);
    let d = fs.dir_at(path).unwrap();
    let base = join_components(cs);
    lemma_normalized_plain(path);
    lemma_find_dir_valid(root, cs);
    assert forall|i: int|
        0 <= i < d.files@.len() && is_plain(d.files@[i].0@) implies fs.file_at(
        #[trigger] pushed_path(base, d.files@[i].0@),
    ) == Some(d.files@[i].1) by {
        let n = d.files@[i].0@;
        lemma_normalize_pushed(cs, n);
        lemma_find_file_push(root, cs, n);
        lemma_unique_lookup(d.files@, i);
    }
    assert forall|i: int|
        0 <= i < d.dirs@.len() && is_plain(d.dirs@[i].0@) implies {
        &&& fs.dir_at(#[trigger] pushed_path(base, d.dirs@[i].0@)) == Some(d.dirs@[i].1)
        &&& fs.file_at(pushed_path(base, d.dirs@[i].0@)) is None
    } by {
        let m = d.dirs@[i].0@;
        lemma_normalize_pushed(cs, m);
        lemma_find_dir_push(root, cs, m);
        lemma_find_file_push(root, cs, m);
        lemma_unique_lookup(d.dirs@, i);
        assert(!(d.file_named(m) is Some && d.dir_named(m) is Some));
    }
}

/// A path names the same thing with or without a leading `/`: both start
/// from the root, so opening, metadata, listing and their overflow check
/// give the same for `/p` as for `p`.
pub proof fn lemma_leading_slash_same(fs: FRFS, p: Seq<char>)
    ensures
        fs.file_at(seq!['/'] + p) == fs.file_at(p),
        fs.dir_at(seq!['/'] + p) == fs.dir_at(p),
        fs.start_fits(seq!['/'] + p) == fs.start_fits(p),
{
    crate::path::lemma_leading_slash_components(p);
}

/// The path `path` resolved lexically and made relative to the root.
pub fn str_to_path(path: &str) -> (r: String)
    ensures
        r@ == join_components(normalized_components(path@)),
{
    normalize_and_strip(path)
}

} // verus!
