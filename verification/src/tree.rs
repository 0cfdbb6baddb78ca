//! The directory tree stored in an archive's header: named files (with their
//! size and place in the data section) and named subdirectories.
use vstd::prelude::*;

verus! {

/// Where a packed file's bytes lie: `file_size` bytes starting at offset
/// `start_at` of the data section (or, once opened, of the archive file).
#[derive(Clone, Copy, Debug, PartialEq, Eq, Structural)]
pub struct FileHeader {
    /// The size of the file.
    pub file_size: u64,
    /// The offset of its first byte.
    pub start_at: u64,
}

/// A directory: its files and its subdirectories, each list keyed by name.
/// Lookups take the first entry of a name; the inserting functions keep
/// every name unique within each list.
#[derive(Debug)]
pub struct Dir {
    pub files: Vec<(String, FileHeader)>,
    pub dirs: Vec<(String, Dir)>,
}

/// The value of the first entry named `name`, if any.
pub open spec fn entry_lookup<T>(entries: Seq<(String, T)>, name: Seq<char>) -> Option<T>
    decreases entries.len(),
{
    if entries.len() == 0 {
        None
    } else {
        match entry_lookup(entries.drop_last(), name) {
            Some(v) => Some(v),
            None => if entries.last().0@ == name {
                Some(entries.last().1)
            } else {
                None
            },
        }
    }
}

/// No two entries share a name.
pub open spec fn names_unique<T>(entries: Seq<(String, T)>) -> bool {
    forall|i: int, j: int|
        0 <= i < j < entries.len() ==> #[trigger] entries[i].0@ != #[trigger] entries[j].0@
}

/// The names of the entries, in order.
pub open spec fn entry_names<T>(entries: Seq<(String, T)>) -> Seq<Seq<char>> {
    entries.map_values(|e: (String, T)| e.0@)
}

pub proof fn lemma_lookup_none<T>(entries: Seq<(String, T)>, name: Seq<char>)
    ensures
        entry_lookup(entries, name) is None <==> (forall|j: int|
            0 <= j < entries.len() ==> #[trigger] entries[j].0@ != name),
    decreases entries.len(),
{
    if entries.len() > 0 {
        lemma_lookup_none(entries.drop_last(), name);
        assert forall|j: int| 0 <= j < entries.len() - 1 implies #[trigger] entries[j].0@
            == entries.drop_last()[j].0@ by {}
        if entry_lookup(entries, name) is None {
            assert forall|j: int| 0 <= j < entries.len() implies #[trigger] entries[j].0@
                != name by {
                if j < entries.len() - 1 {
                    assert(entries.drop_last()[j].0@ != name);
                }
            }
        }
    }
}

/// The first match in a prefix is the first match overall.
pub proof fn lemma_lookup_prefix<T>(entries: Seq<(String, T)>, k: int, name: Seq<char>)
    requires
        0 <= k <= entries.len(),
        entry_lookup(entries.take(k), name) is Some,
    ensures
        entry_lookup(entries, name) == entry_lookup(entries.take(k), name),
    decreases entries.len(),
{
    if k < entries.len() {
        assert(entries.drop_last().take(k) =~= entries.take(k));
        lemma_lookup_prefix(entries.drop_last(), k, name);
    } else {
        assert(entries.take(k) =~= entries);
    }
}

/// Replacing the value of the first entry of a name changes only that name.
pub proof fn lemma_lookup_update_value<T>(
    entries: Seq<(String, T)>,
    i: int,
    v: T,
    name: Seq<char>,
)
    requires
        0 <= i < entries.len(),
        forall|j: int| 0 <= j < i ==> #[trigger] entries[j].0@ != entries[i].0@,
    ensures
        entry_lookup(entries.update(i, (entries[i].0, v)), name) == (if name == entries[i].0@ {
            Some(v)
        } else {
            entry_lookup(entries, name)
        }),
    decreases entries.len(),
{
    let u = entries.update(i, (entries[i].0, v));
    if i < entries.len() - 1 {
        assert(u.drop_last() =~= entries.drop_last().update(i, (entries[i].0, v)));
        lemma_lookup_update_value(entries.drop_last(), i, v, name);
    } else {
        assert(u.drop_last() =~= entries.drop_last());
        if name == entries[i].0@ {
            lemma_lookup_none(entries.drop_last(), name);
        }
    }
}

/// Finds the index of the first entry named `name`.
pub fn find_entry<T>(entries: &Vec<(String, T)>, name: &String) -> (r: Option<usize>)
    ensures
        match r {
            Some(i) => {
                &&& i < entries@.len()
                &&& entries@[i as int].0@ == name@
                &&& entry_lookup(entries@, name@) == Some(entries@[i as int].1)
                &&& forall|j: int| 0 <= j < i ==> #[trigger] entries@[j].0@ != name@
            },
            None => entry_lookup(entries@, name@) is None,
        },
{
    let mut i: usize = 0;
    while i < entries.len()
        invariant
            i <= entries@.len(),
            forall|j: int| 0 <= j < i ==> #[trigger] entries@[j].0@ != name@,
        decreases entries.len() - i,
    {
        if entries[i].0 == *name {
            proof {
                let s = entries@;
                assert(s.take(i + 1).drop_last() =~= s.take(i as int));
                lemma_lookup_none(s.take(i as int), name@);
                lemma_lookup_prefix(s, i + 1, name@);
            }
            return Some(i);
        }
        i = i + 1;
    }
    proof {
        lemma_lookup_none(entries@, name@);
    }
    None
}

impl Dir {
    /// The file named `name` directly in this directory.
    pub open spec fn file_named(self, name: Seq<char>) -> Option<FileHeader> {
        entry_lookup(self.files@, name)
    }

    /// The subdirectory named `name` directly in this directory.
    pub open spec fn dir_named(self, name: Seq<char>) -> Option<Dir> {
        entry_lookup(self.dirs@, name)
    }

    /// The file that `path` names: the last component names a file in the
    /// directory that the components before it reach, walking down the
    /// subdirectories (a file cannot be walked into).
    pub open spec fn find_file(self, path: Seq<Seq<char>>) -> Option<FileHeader>
        decreases path.len(),
    {
        if path.len() == 0 {
            None
        } else if path.len() == 1 {
            self.file_named(path[0])
        } else {
            match self.dir_named(path[0]) {
                Some(d) => d.find_file(path.drop_first()),
                None => None,
            }
        }
    }

    /// The directory reached by walking down the subdirectories along `path`.
    pub open spec fn find_dir(self, path: Seq<Seq<char>>) -> Option<Dir>
        decreases path.len(),
    {
        if path.len() == 0 {
            Some(self)
        } else {
            match self.dir_named(path[0]) {
                Some(d) => d.find_dir(path.drop_first()),
                None => None,
            }
        }
    }

    /// Names are unique within the files and within the subdirectories of
    /// this directory and of every directory below it.
    pub open spec fn wf(self) -> bool
        decreases self,
    {
        &&& names_unique(self.files@)
        &&& names_unique(self.dirs@)
        &&& Self::all_wf(self.dirs@)
    }

    pub open spec fn all_wf(ds: Seq<(String, Dir)>) -> bool
        decreases ds,
    {
        if ds.len() == 0 {
            true
        } else {
            Self::all_wf(ds.drop_last()) && ds.last().1.wf()
        }
    }

    /// An empty directory.
    pub fn new() -> (r: Dir)
        ensures
            r.files@.len() == 0,
            r.dirs@.len() == 0,
            r.wf(),
    {
        Dir { files: Vec::new(), dirs: Vec::new() }
    }

    /// Records a file under `name`, replacing the header of a file already
    /// recorded under that name.
    pub fn insert_file(&mut self, name: String, header: FileHeader)
        ensures
            forall|n: Seq<char>| #[trigger]
                final(self).file_named(n) == (if n == name@ {
                    Some(header)
                } else {
                    old(self).file_named(n)
                }),
            final(self).dirs == old(self).dirs,
            old(self).wf() ==> final(self).wf(),
            entry_names(final(self).files@) == (if old(self).file_named(name@) is Some {
                entry_names(old(self).files@)
            } else {
                entry_names(old(self).files@).push(name@)
            }),
    {
        match find_entry(&self.files, &name) {
            Some(i) => {
                let ghost before = self.files@;
                self.files[i].1 = header;
                proof {
                    assert(self.files@ =~= before.update(i as int, (before[i as int].0, header)));
                    assert forall|n: Seq<char>| #[trigger]
                        self.file_named(n) == (if n == name@ {
                            Some(header)
                        } else {
                            old(self).file_named(n)
                        }) by {
                        lemma_lookup_update_value(before, i as int, header, n);
                    }
                    assert(entry_names(self.files@) =~= entry_names(before));
                    if old(self).wf() {
                        assert forall|a: int, b: int|
                            0 <= a < b < self.files@.len() implies #[trigger] self.files@[a].0@
                            != #[trigger] self.files@[b].0@ by {
                            assert(before[a].0@ != before[b].0@);
                        }
                    }
                }
            },
            None => {
                let ghost before = self.files@;
                self.files.push((name, header));
                proof {
                    assert(self.files@.drop_last() =~= before);
                    lemma_lookup_none(before, name@);
                    assert(entry_names(self.files@) =~= entry_names(before).push(name@));
                }
            },
        }
    }

    /// Records a subdirectory under `name`, replacing a subdirectory already
    /// recorded under that name.
    pub fn insert_dir(&mut self, name: String, dir: Dir)
        ensures
            forall|n: Seq<char>| #[trigger]
                final(self).dir_named(n) == (if n == name@ {
                    Some(dir)
                } else {
                    old(self).dir_named(n)
                }),
            final(self).files == old(self).files,
            old(self).wf() && dir.wf() ==> final(self).wf(),
            old(self).dirs@.len() <= final(self).dirs@.len() <= old(self).dirs@.len() + 1,
            forall|k: int|
                0 <= k < final(self).dirs@.len() ==> #[trigger] final(self).dirs@[k] == (if k
                    < old(self).dirs@.len() {
                    old(self).dirs@[k]
                } else {
                    (name, dir)
                }) || (k < old(self).dirs@.len() && old(self).dirs@[k].0@ == name@
                    && final(self).dirs@[k].0 == old(self).dirs@[k].0 && final(self).dirs@[k].1
                    == dir),
            entry_names(final(self).dirs@) == (if old(self).dir_named(name@) is Some {
                entry_names(old(self).dirs@)
            } else {
                entry_names(old(self).dirs@).push(name@)
            }),
    {
        let ghost d = dir;
        match find_entry(&self.dirs, &name) {
            Some(i) => {
                let ghost before = self.dirs@;
                self.dirs[i].1 = dir;
                proof {
                    assert(self.dirs@ =~= before.update(i as int, (before[i as int].0, d)));
                    assert forall|n: Seq<char>| #[trigger]
                        self.dir_named(n) == (if n == name@ {
                            Some(d)
                        } else {
                            old(self).dir_named(n)
                        }) by {
                        lemma_lookup_update_value(before, i as int, d, n);
                    }
                    assert(entry_names(self.dirs@) =~= entry_names(before));
                    if old(self).wf() && d.wf() {
                        assert forall|a: int, b: int|
                            0 <= a < b < self.dirs@.len() implies #[trigger] self.dirs@[a].0@
                            != #[trigger] self.dirs@[b].0@ by {
                            assert(before[a].0@ != before[b].0@);
                        }
                        lemma_all_wf_update(before, i as int, (before[i as int].0, d));
                    }
                }
            },
            None => {
                let ghost before = self.dirs@;
                self.dirs.push((name, dir));
                proof {
                    assert(self.dirs@.drop_last() =~= before);
                    lemma_lookup_none(before, name@);
                    assert(entry_names(self.dirs@) =~= entry_names(before).push(name@));
                }
            },
        }
    }

    /// The file reached by walking `path[k..]` from this directory.
    pub fn open_file(&self, path: &Vec<String>, k: usize) -> (r: Option<FileHeader>)
        requires
            k <= path@.len(),
        ensures
            r == self.find_file(path@.map_values(|c: String| c@).skip(k as int)),
        decreases path@.len() - k,
    {
        let ghost rest = path@.map_values(|c: String| c@).skip(k as int);
        if k == path.len() {
            return None;
        }
        let name = &path[k];
        proof {
            assert(rest[0] == name@);
            assert(rest.drop_first() =~= path@.map_values(|c: String| c@).skip(k + 1));
        }
        if k + 1 == path.len() {
            match find_entry(&self.files, name) {
                Some(i) => Some(self.files[i].1),
                None => None,
            }
        } else {
            match find_entry(&self.dirs, name) {
                Some(j) => self.dirs[j].1.open_file(path, k + 1),
                None => None,
            }
        }
    }

    /// The directory reached by walking `path[k..]` from this directory.
    pub fn open_dir(&self, path: &Vec<String>, k: usize) -> (r: Option<&Dir>)
        requires
            k <= path@.len(),
        ensures
            match r {
                Some(d) => self.find_dir(path@.map_values(|c: String| c@).skip(k as int)) == Some(
                    *d,
                ),
                None => self.find_dir(path@.map_values(|c: String| c@).skip(k as int)) is None,
            },
        decreases path@.len() - k,
    {
        let ghost rest = path@.map_values(|c: String| c@).skip(k as int);
        if k == path.len() {
            return Some(self);
        }
        let name = &path[k];
        proof {
            assert(rest[0] == name@);
            assert(rest.drop_first() =~= path@.map_values(|c: String| c@).skip(k + 1));
        }
        match find_entry(&self.dirs, name) {
            Some(j) => self.dirs[j].1.open_dir(path, k + 1),
            None => None,
        }
    }
}

/// Under unique names, the entry of a name is the one that lookup finds.
pub proof fn lemma_unique_lookup<T>(s: Seq<(String, T)>, k: int)
    requires
        names_unique(s),
        0 <= k < s.len(),
    ensures
        entry_lookup(s, s[k].0@) == Some(s[k].1),
    decreases s.len(),
{
    if k < s.len() - 1 {
        assert(s.drop_last()[k] == s[k]);
        assert(names_unique(s.drop_last())) by {
            assert forall|i: int, j: int|
                0 <= i < j < s.drop_last().len() implies #[trigger] s.drop_last()[i].0@
                != #[trigger] s.drop_last()[j].0@ by {
                assert(s[i] == s.drop_last()[i]);
                assert(s[j] == s.drop_last()[j]);
            }
        }
        lemma_unique_lookup(s.drop_last(), k);
    } else {
        lemma_lookup_none(s.drop_last(), s[k].0@);
        assert forall|j: int| 0 <= j < s.drop_last().len() implies #[trigger] s.drop_last()[j].0@
            != s[k].0@ by {
            assert(s.drop_last()[j] == s[j]);
        }
    }
}

pub proof fn lemma_all_wf_update(ds: Seq<(String, Dir)>, i: int, e: (String, Dir))
    requires
        0 <= i < ds.len(),
        Dir::all_wf(ds),
        e.1.wf(),
    ensures
        Dir::all_wf(ds.update(i, e)),
    decreases ds.len(),
{
    let u = ds.update(i, e);
    if i < ds.len() - 1 {
        assert(u.drop_last() =~= ds.drop_last().update(i, e));
        lemma_all_wf_update(ds.drop_last(), i, e);
    } else {
        assert(u.drop_last() =~= ds.drop_last());
    }
}

} // verus!

verus! {

impl Dir {
    /// No directory, at any level, has a file and a subdirectory of the same
    /// name (as no directory on disk has).
    pub open spec fn names_disjoint(self) -> bool
        decreases self,
    {
        &&& forall|n: Seq<char>| !(#[trigger] self.file_named(n) is Some && self.dir_named(n) is Some)
        &&& Self::all_disjoint(self.dirs@)
    }

    pub open spec fn all_disjoint(ds: Seq<(String, Dir)>) -> bool
        decreases ds,
    {
        if ds.len() == 0 {
            true
        } else {
            Self::all_disjoint(ds.drop_last()) && ds.last().1.names_disjoint()
        }
    }
}

/// The entry that a lookup finds, by index.
pub proof fn lemma_lookup_index<T>(s: Seq<(String, T)>, n: Seq<char>) -> (k: int)
    requires
        entry_lookup(s, n) is Some,
    ensures
        0 <= k < s.len(),
        s[k].0@ == n,
        entry_lookup(s, n) == Some(s[k].1),
    decreases s.len(),
{
    if entry_lookup(s.drop_last(), n) is Some {
        let k = lemma_lookup_index(s.drop_last(), n);
        assert(s.drop_last()[k] == s[k]);
        k
    } else {
        s.len() - 1
    }
}

pub proof fn lemma_all_wf_index(ds: Seq<(String, Dir)>, k: int)
    requires
        Dir::all_wf(ds),
        0 <= k < ds.len(),
    ensures
        ds[k].1.wf(),
    decreases ds.len(),
{
    if k < ds.len() - 1 {
        assert(ds.drop_last()[k] == ds[k]);
        lemma_all_wf_index(ds.drop_last(), k);
    }
}

pub proof fn lemma_all_disjoint_index(ds: Seq<(String, Dir)>, k: int)
    requires
        Dir::all_disjoint(ds),
        0 <= k < ds.len(),
    ensures
        ds[k].1.names_disjoint(),
    decreases ds.len(),
{
    if k < ds.len() - 1 {
        assert(ds.drop_last()[k] == ds[k]);
        lemma_all_disjoint_index(ds.drop_last(), k);
    }
}

/// The directories below a well-formed directory are well formed, and keep
/// file and directory names apart where it does.
pub proof fn lemma_find_dir_valid(root: Dir, cs: Seq<Seq<char>>)
    requires
        root.find_dir(cs) is Some,
    ensures
        root.wf() ==> root.find_dir(cs).unwrap().wf(),
        root.names_disjoint() ==> root.find_dir(cs).unwrap().names_disjoint(),
    decreases cs.len(),
{
    if cs.len() > 0 {
        let k = lemma_lookup_index(root.dirs@, cs[0]);
        let d0 = root.dirs@[k].1;
        if root.wf() {
            lemma_all_wf_index(root.dirs@, k);
        }
        if root.names_disjoint() {
            lemma_all_disjoint_index(root.dirs@, k);
        }
        lemma_find_dir_valid(d0, cs.drop_first());
    }
}

/// One more step down from a directory reached along `cs`.
pub proof fn lemma_find_dir_push(root: Dir, cs: Seq<Seq<char>>, m: Seq<char>)
    requires
        root.find_dir(cs) is Some,
    ensures
        root.find_dir(cs.push(m)) == root.find_dir(cs).unwrap().dir_named(m),
    decreases cs.len(),
{
    if cs.len() == 0 {
        assert(cs.push(m) =~= seq![m]);
        assert(seq![m].drop_first() =~= Seq::<Seq<char>>::empty());
        match root.dir_named(m) {
            Some(d) => {
                assert(d.find_dir(Seq::<Seq<char>>::empty()) == Some(d));
            },
            None => {},
        }
    } else {
        let d0 = root.dir_named(cs[0]).unwrap();
        assert(cs.push(m).drop_first() =~= cs.drop_first().push(m));
        lemma_find_dir_push(d0, cs.drop_first(), m);
    }
}

/// The file of a name in a directory reached along `cs` is the file found
/// along `cs` and that name.
pub proof fn lemma_find_file_push(root: Dir, cs: Seq<Seq<char>>, n: Seq<char>)
    requires
        root.find_dir(cs) is Some,
    ensures
        root.find_file(cs.push(n)) == root.find_dir(cs).unwrap().file_named(n),
    decreases cs.len(),
{
    if cs.len() == 0 {
        assert(cs.push(n) =~= seq![n]);
    } else {
        let d0 = root.dir_named(cs[0]).unwrap();
        assert(cs.push(n)[0] == cs[0]);
        assert(cs.push(n).drop_first() =~= cs.drop_first().push(n));
        lemma_find_file_push(d0, cs.drop_first(), n);
    }
}

} // verus!

verus! {

/// Whether no two entries share a name.
pub fn check_names_unique<T>(entries: &Vec<(String, T)>) -> (r: bool)
    ensures
        r == names_unique(entries@),
{
    let n = entries.len();
    let mut i: usize = 0;
    while i < n
        invariant
            n == entries@.len(),
            i <= n,
            forall|a: int, b: int|
                0 <= a < i && a < b < n ==> #[trigger] entries@[a].0@ != #[trigger] entries@[b].0@,
        decreases n - i,
    {
        let mut j: usize = i + 1;
        while j < n
            invariant
                n == entries@.len(),
                i < n,
                i + 1 <= j <= n,
                forall|a: int, b: int|
                    0 <= a < i && a < b < n ==> #[trigger] entries@[a].0@ != #[trigger] entries@[b].0@,
                forall|b: int| i < b < j ==> entries@[i as int].0@ != #[trigger] entries@[b].0@,
            decreases n - j,
        {
            if entries[i].0 == entries[j].0 {
                return false;
            }
            j = j + 1;
        }
        i = i + 1;
    }
    true
}

impl Dir {
    /// Whether this tree is well formed; see [`Dir::wf`].
    pub fn check_wf(&self) -> (r: bool)
        ensures
            r == self.wf(),
        decreases self,
    {
        if !check_names_unique(&self.files) || !check_names_unique(&self.dirs) {
            return false;
        }
        let mut j: usize = 0;
        proof {
            assert(self.dirs@.take(0) =~= Seq::<(String, Dir)>::empty());
        }
        while j < self.dirs.len()
            invariant
                j <= self.dirs@.len(),
                Dir::all_wf(self.dirs@.take(j as int)),
            decreases self.dirs.len() - j,
        {
            proof {
                assert(self.dirs@.take(j + 1).drop_last() =~= self.dirs@.take(j as int));
                assert(self.dirs@.take(j + 1).last() == self.dirs@[j as int]);
            }
            if !self.dirs[j].1.check_wf() {
                proof {
                    if Dir::all_wf(self.dirs@) {
                        lemma_all_wf_index(self.dirs@, j as int);
                    }
                }
                return false;
            }
            j = j + 1;
        }
        proof {
            assert(self.dirs@.take(j as int) =~= self.dirs@);
        }
        true
    }
}

} // verus!
