//! Building a directory tree from a walk of a directory on disk.
//!
//! The walk itself is I/O; it hands over, in the order the directory listed
//! them, one [`ScanEntry`] per entry. Recording stops at the first entry
//! without a usable (UTF-8) name.
use crate::pack::lemma_dirs_sound_from_each;
use crate::path::is_plain;
use crate::tree::{lemma_lookup_none, lemma_unique_lookup, Dir, FileHeader};
use vstd::prelude::*;

verus! {

/// One entry of a directory walk.
#[derive(Debug)]
pub enum ScanEntry {
    /// A regular file of `size` bytes.
    File { name: Option<String>, size: u64 },
    /// A directory and the walk of its own entries.
    Dir { name: Option<String>, entries: Vec<ScanEntry> },
    /// Anything else; it is skipped.
    Other { name: Option<String> },
}

impl ScanEntry {
    pub open spec fn name_of(self) -> Option<String> {
        match self {
            ScanEntry::File { name, .. } => name,
            ScanEntry::Dir { name, .. } => name,
            ScanEntry::Other { name } => name,
        }
    }
}

/// Recording stops at `i`: every entry before it has a name, and the entry
/// at `i` (if any) has none.
pub open spec fn scan_stop(es: Seq<ScanEntry>, i: int) -> bool {
    &&& 0 <= i <= es.len()
    &&& forall|j: int| 0 <= j < i ==> (#[trigger] es[j]).name_of() is Some
    &&& i < es.len() ==> es[i].name_of() is None
}

/// The number of entries recorded from a walk.
pub open spec fn scanned_len(es: Seq<ScanEntry>) -> int {
    choose|i: int| scan_stop(es, i)
}

/// The bytes that an entry adds to the archive's data: a file's size, or
/// what the recorded entries of a directory add.
pub open spec fn entry_total(e: ScanEntry) -> int
    decreases e, 0int,
{
    match e {
        ScanEntry::File { size, .. } => size as int,
        ScanEntry::Dir { entries, .. } => total_upto(entries@, scanned_len(entries@)),
        ScanEntry::Other { .. } => 0,
    }
}

/// What the first `k` entries add.
pub open spec fn total_upto(es: Seq<ScanEntry>, k: int) -> int
    decreases es, k,
{
    if k <= 0 || k > es.len() {
        0
    } else {
        total_upto(es, k - 1) + entry_total(es[k - 1])
    }
}

/// What the recorded entries of a walk add to the archive's data.
pub open spec fn scan_total(es: Seq<ScanEntry>) -> int {
    total_upto(es, scanned_len(es))
}

/// The size of the last file named `n` among `s`.
pub open spec fn last_file(s: Seq<ScanEntry>, n: Seq<char>) -> Option<u64>
    decreases s.len(),
{
    if s.len() == 0 {
        None
    } else {
        match s.last() {
            ScanEntry::File { name: Some(m), size } => if m@ == n {
                Some(size)
            } else {
                last_file(s.drop_last(), n)
            },
            _ => last_file(s.drop_last(), n),
        }
    }
}

/// The walk of the last directory named `n` among `s`.
pub open spec fn last_dir(s: Seq<ScanEntry>, n: Seq<char>) -> Option<Seq<ScanEntry>>
    decreases s.len(),
{
    if s.len() == 0 {
        None
    } else {
        match s.last() {
            ScanEntry::Dir { name: Some(m), entries } => if m@ == n {
                Some(entries@)
            } else {
                last_dir(s.drop_last(), n)
            },
            _ => last_dir(s.drop_last(), n),
        }
    }
}

pub open spec fn recorded_header(size: Option<u64>) -> Option<FileHeader> {
    match size {
        Some(z) => Some(FileHeader { file_size: z, start_at: 0 }),
        None => None,
    }
}

impl Dir {
    /// This directory records exactly the entries `s`: a file for the last
    /// file entry of each name (its size, offset 0), a subdirectory for the
    /// last directory entry of each name, recording that entry's walk.
    pub open spec fn holds(self, s: Seq<ScanEntry>) -> bool
        decreases self,
    {
        &&& forall|n: Seq<char>| #[trigger] self.file_named(n) == recorded_header(last_file(s, n))
        &&& forall|n: Seq<char>| (#[trigger] self.dir_named(n) is Some) == (last_dir(s, n) is Some)
        &&& Self::dirs_hold(self.dirs@, s)
    }

    pub open spec fn dirs_hold(ds: Seq<(String, Dir)>, s: Seq<ScanEntry>) -> bool
        decreases ds,
    {
        if ds.len() == 0 {
            true
        } else {
            &&& Self::dirs_hold(ds.drop_last(), s)
            &&& match last_dir(s, ds.last().0@) {
                Some(sub) => ds.last().1.holds(sub.take(scanned_len(sub))),
                None => true,
            }
        }
    }

    /// This directory records the walk `es` (up to where recording stops).
    pub open spec fn holds_scan(self, es: Seq<ScanEntry>) -> bool {
        self.holds(es.take(scanned_len(es)))
    }
}

pub open spec fn dir_holds_at(ds: Seq<(String, Dir)>, k: int, s: Seq<ScanEntry>) -> bool {
    match last_dir(s, ds[k].0@) {
        Some(sub) => ds[k].1.holds(sub.take(scanned_len(sub))),
        None => true,
    }
}

pub proof fn lemma_dirs_hold_forall(ds: Seq<(String, Dir)>, s: Seq<ScanEntry>)
    ensures
        Dir::dirs_hold(ds, s) <==> forall|k: int| 0 <= k < ds.len() ==> #[trigger] dir_holds_at(ds, k, s),
    decreases ds.len(),
{
    if ds.len() > 0 {
        lemma_dirs_hold_forall(ds.drop_last(), s);
        assert forall|k: int| 0 <= k < ds.len() - 1 implies #[trigger] dir_holds_at(ds, k, s)
            == dir_holds_at(ds.drop_last(), k, s) by {
            assert(ds[k] == ds.drop_last()[k]);
        }
        if Dir::dirs_hold(ds, s) {
            assert forall|k: int| 0 <= k < ds.len() implies #[trigger] dir_holds_at(ds, k, s) by {
                if k < ds.len() - 1 {
                    assert(dir_holds_at(ds.drop_last(), k, s));
                }
            }
        }
        if forall|k: int| 0 <= k < ds.len() ==> #[trigger] dir_holds_at(ds, k, s) {
            assert forall|k: int| 0 <= k < ds.len() - 1 implies #[trigger] dir_holds_at(
                ds.drop_last(),
                k,
                s,
            ) by {
                assert(dir_holds_at(ds, k, s));
            }
            assert(dir_holds_at(ds, ds.len() - 1, s));
        }
    }
}

pub proof fn lemma_scan_stop_unique(es: Seq<ScanEntry>, i: int, j: int)
    requires
        scan_stop(es, i),
        scan_stop(es, j),
    ensures
        i == j,
{
    if i < j {
        assert(es[i].name_of() is Some);
    } else if j < i {
        assert(es[j].name_of() is Some);
    }
}

pub proof fn lemma_scan_stop_exists(es: Seq<ScanEntry>)
    ensures
        scan_stop(es, scanned_len(es)),
    decreases es.len(),
{
    if es.len() == 0 {
        assert(scan_stop(es, 0));
    } else {
        let d = es.drop_last();
        lemma_scan_stop_exists(d);
        let i = scanned_len(d);
        assert forall|j: int| 0 <= j < i implies (#[trigger] es[j]).name_of() is Some by {
            assert(d[j] == es[j]);
        }
        if i < d.len() {
            assert(d[i] == es[i]);
            assert(scan_stop(es, i));
        } else if es.last().name_of() is Some {
            assert(scan_stop(es, es.len() as int));
        } else {
            assert(scan_stop(es, i));
        }
    }
}

pub proof fn lemma_total_upto_monotone(es: Seq<ScanEntry>, j: int, k: int)
    requires
        0 <= j <= k <= es.len(),
    ensures
        0 <= total_upto(es, j) <= total_upto(es, k),
    decreases k,
{
    lemma_entry_total_nonneg_all(es);
    if j < k {
        lemma_total_upto_monotone(es, j, k - 1);
        assert(entry_total(es[k - 1]) >= 0);
    } else {
        lemma_total_upto_nonneg(es, k);
    }
}

pub proof fn lemma_total_upto_nonneg(es: Seq<ScanEntry>, k: int)
    ensures
        total_upto(es, k) >= 0,
    decreases es, k,
{
    if k > 0 && k <= es.len() {
        lemma_total_upto_nonneg(es, k - 1);
        lemma_entry_total_nonneg(es[k - 1]);
    }
}

pub proof fn lemma_entry_total_nonneg(e: ScanEntry)
    ensures
        entry_total(e) >= 0,
    decreases e, 0int,
{
    match e {
        ScanEntry::Dir { entries, .. } => {
            lemma_total_upto_nonneg(entries@, scanned_len(entries@));
        },
        _ => {},
    }
}

pub proof fn lemma_entry_total_nonneg_all(es: Seq<ScanEntry>)
    ensures
        forall|i: int| 0 <= i < es.len() ==> entry_total(#[trigger] es[i]) >= 0,
{
    assert forall|i: int| 0 <= i < es.len() implies entry_total(#[trigger] es[i]) >= 0 by {
        lemma_entry_total_nonneg(es[i]);
    }
}

fn has_name(e: &ScanEntry) -> (r: bool)
    ensures
        r == (e.name_of() is Some),
{
    match e {
        ScanEntry::File { name, .. } => name.is_some(),
        ScanEntry::Dir { name, .. } => name.is_some(),
        ScanEntry::Other { name } => name.is_some(),
    }
}

/// What the recorded entries of the walk `entries` add to the archive's
/// data, or `None` where that does not fit in a `u64`.
pub fn scan_total_of(entries: &Vec<ScanEntry>) -> (r: Option<u64>)
    ensures
        match r {
            Some(t) => t == scan_total(entries@),
            None => scan_total(entries@) > u64::MAX,
        },
    decreases entries@,
{
    let ghost es = entries@;
    proof {
        lemma_scan_stop_exists(es);
    }
    let mut total: u64 = 0;
    let mut i: usize = 0;
    while i < entries.len() && has_name(&entries[i])
        invariant
            es == entries@,
            0 <= i <= es.len(),
            forall|j: int| 0 <= j < i ==> (#[trigger] es[j]).name_of() is Some,
            scan_stop(es, scanned_len(es)),
            i <= scanned_len(es),
            total == total_upto(es, i as int),
        decreases es.len() - i,
    {
        proof {
            assert(es[i as int].name_of() is Some);
            if scanned_len(es) <= i {
                assert(es[scanned_len(es)].name_of() is Some);
            }
            assert(total_upto(es, i + 1) == total_upto(es, i as int) + entry_total(es[i as int]));
        }
        let add: u64 = match &entries[i] {
            ScanEntry::File { size, .. } => *size,
            ScanEntry::Dir { entries: sub, .. } => {
                proof {
                    assert(decreases_to!(es => es[i as int]));
                    assert(entry_total(es[i as int]) == scan_total(sub@));
                }
                match scan_total_of(sub) {
                    Some(t) => t,
                    None => {
                        proof {
                            lemma_total_upto_monotone(es, i + 1, scanned_len(es));
                            lemma_total_upto_nonneg(es, i as int);
                        }
                        return None;
                    },
                }
            },
            ScanEntry::Other { .. } => 0,
        };
        if add > u64::MAX - total {
            proof {
                lemma_total_upto_monotone(es, i + 1, scanned_len(es));
            }
            return None;
        }
        total = total + add;
        i = i + 1;
    }
    proof {
        if i < es.len() {
            assert(es[i as int].name_of() is None);
        }
        assert(scan_stop(es, i as int));
        lemma_scan_stop_unique(es, i as int, scanned_len(es));
    }
    Some(total)
}

impl Dir {
    /// Builds a directory from the walk `entries`, recording entries up to
    /// the first one without a name: files with their size (at offset 0),
    /// directories built from their own walk, and nothing for other
    /// entries; a later entry replaces an earlier one of the same kind and
    /// name. Also returns the total size of the recorded files, counting
    /// replaced ones too.
    pub fn from_scan(entries: &Vec<ScanEntry>) -> (r: (Dir, u64))
        requires
            scan_total(entries@) <= u64::MAX,
        ensures
            r.0.holds_scan(entries@),
            r.1 == scan_total(entries@),
            r.0.wf(),
            walk_sound(entries@) ==> r.0.names_disjoint() && r.0.names_plain(),
        decreases entries@,
    {
        let ghost es = entries@;
        proof {
            lemma_scan_stop_exists(es);
            lemma_entry_total_nonneg_all(es);
            assert(es.take(0) =~= Seq::<ScanEntry>::empty());
            lemma_dirs_hold_forall(Seq::<(String, Dir)>::empty(), es.take(0));
        }
        let mut dir = Dir::new();
        let mut length: u64 = 0;
        let mut i: usize = 0;
        while i < entries.len() && has_name(&entries[i])
            invariant
                es == entries@,
                0 <= i <= es.len(),
                forall|j: int| 0 <= j < i ==> (#[trigger] es[j]).name_of() is Some,
                scan_stop(es, scanned_len(es)),
                i <= scanned_len(es),
                total_upto(es, scanned_len(es)) <= u64::MAX,
                length == total_upto(es, i as int),
                dir.holds(es.take(i as int)),
                dir.wf(),
            decreases es.len() - i,
        {
            proof {
                assert(es[i as int].name_of() is Some);
                if scanned_len(es) <= i {
                    assert(es[scanned_len(es)].name_of() is Some);
                }
                lemma_total_upto_monotone(es, i + 1, scanned_len(es));
                assert(total_upto(es, i + 1) == total_upto(es, i as int) + entry_total(es[i as int]));
                assert(es.take(i + 1).drop_last() =~= es.take(i as int));
                assert(es.take(i + 1).last() == es[i as int]);
            }
            let ghost s0 = es.take(i as int);
            let ghost s1 = es.take(i + 1);
            let ghost old_dir = dir;
            match &entries[i] {
                ScanEntry::File { name: Some(n), size } => {
                    assert(entry_total(es[i as int]) == *size);
                    dir.insert_file(n.clone(), FileHeader { file_size: *size, start_at: 0 });
                    length = length + *size;
                    proof {
                        assert forall|m: Seq<char>| last_dir(s1, m) == last_dir(s0, m) by {}
                        lemma_dirs_hold_forall(dir.dirs@, s0);
                        lemma_dirs_hold_forall(dir.dirs@, s1);
                        assert forall|k: int| 0 <= k < dir.dirs@.len() implies #[trigger] dir_holds_at(
                            dir.dirs@,
                            k,
                            s1,
                        ) by {
                            assert(dir_holds_at(dir.dirs@, k, s0));
                        }
                        assert forall|m: Seq<char>| #[trigger]
                            dir.file_named(m) == recorded_header(last_file(s1, m)) by {}
                        assert forall|m: Seq<char>| (#[trigger] dir.dir_named(m) is Some) == (
                        last_dir(s1, m) is Some) by {
                            assert(old_dir.dir_named(m) == dir.dir_named(m));
                        }
                    }
                },
                ScanEntry::Dir { name: Some(n), entries: sub } => {
                    proof {
                        assert(decreases_to!(es => es[i as int]));
                        lemma_total_upto_nonneg(es, i as int);
                        assert(entry_total(es[i as int]) == scan_total(sub@));
                    }
                    let (d, l) = Dir::from_scan(sub);
                    length = length + l;
                    let ghost dn = d;
                    dir.insert_dir(n.clone(), d);
                    proof {
                        let ghost nn = n@;
                        assert forall|m: Seq<char>| last_dir(s1, m) == (if m == nn {
                            Some(sub@)
                        } else {
                            last_dir(s0, m)
                        }) by {}
                        assert forall|m: Seq<char>| last_file(s1, m) == last_file(s0, m) by {}
                        lemma_dirs_hold_forall(old_dir.dirs@, s0);
                        lemma_dirs_hold_forall(dir.dirs@, s1);
                        assert forall|k: int| 0 <= k < dir.dirs@.len() implies #[trigger] dir_holds_at(
                            dir.dirs@,
                            k,
                            s1,
                        ) by {
                            let e = dir.dirs@[k];
                            if e.0@ == nn {
                                lemma_unique_lookup(dir.dirs@, k);
                                assert(dir.dir_named(nn) == Some(dn));
                                assert(e.1 == dn);
                            } else {
                                assert(e == old_dir.dirs@[k]);
                                assert(dir_holds_at(old_dir.dirs@, k, s0));
                            }
                        }
                        assert forall|m: Seq<char>| #[trigger]
                            dir.file_named(m) == recorded_header(last_file(s1, m)) by {
                            assert(old_dir.file_named(m) == dir.file_named(m));
                        }
                        assert forall|m: Seq<char>| (#[trigger] dir.dir_named(m) is Some) == (
                        last_dir(s1, m) is Some) by {}
                    }
                },
                _ => {
                    proof {
                        assert forall|m: Seq<char>| last_dir(s1, m) == last_dir(s0, m) by {}
                        assert forall|m: Seq<char>| last_file(s1, m) == last_file(s0, m) by {}
                        lemma_dirs_hold_forall(dir.dirs@, s0);
                        lemma_dirs_hold_forall(dir.dirs@, s1);
                        assert forall|k: int| 0 <= k < dir.dirs@.len() implies #[trigger] dir_holds_at(
                            dir.dirs@,
                            k,
                            s1,
                        ) by {
                            assert(dir_holds_at(dir.dirs@, k, s0));
                        }
                    }
                },
            }
            i = i + 1;
        }
        proof {
            if i < es.len() {
                assert(es[i as int].name_of() is None);
            }
            assert(scan_stop(es, i as int));
            lemma_scan_stop_unique(es, i as int, scanned_len(es));
            if walk_sound(es) {
                lemma_holds_sound(dir, es);
            }
        }
        (dir, length)
    }
}

} // verus!

verus! {

/// A recorded entry has a plain name, and a recorded directory's own walk
/// is sound too (see [`walk_sound`]).
pub open spec fn entry_sound(e: ScanEntry) -> bool
    decreases e, 0int,
{
    match e {
        ScanEntry::File { name: Some(m), .. } => is_plain(m@),
        ScanEntry::Dir { name: Some(m), entries } => {
            &&& is_plain(m@)
            &&& names_apart(entries@)
            &&& entries_sound(entries@, scanned_len(entries@))
        },
        _ => true,
    }
}

/// The first `k` entries are sound.
pub open spec fn entries_sound(es: Seq<ScanEntry>, k: int) -> bool
    decreases es, k,
{
    if k <= 0 || k > es.len() {
        true
    } else {
        entries_sound(es, k - 1) && entry_sound(es[k - 1])
    }
}

/// No name is recorded both as a file and as a directory.
pub open spec fn names_apart(es: Seq<ScanEntry>) -> bool {
    forall|n: Seq<char>|
        !(#[trigger] last_file(es.take(scanned_len(es)), n) is Some && last_dir(
            es.take(scanned_len(es)),
            n,
        ) is Some)
}

/// A walk as a directory on disk gives: every recorded name is a plain path
/// component, and no name is recorded both as a file and as a directory, at
/// any level.
pub open spec fn walk_sound(es: Seq<ScanEntry>) -> bool {
    names_apart(es) && entries_sound(es, scanned_len(es))
}

proof fn lemma_entries_sound_index(es: Seq<ScanEntry>, k: int, j: int)
    requires
        entries_sound(es, k),
        0 <= j < k <= es.len(),
    ensures
        entry_sound(es[j]),
    decreases k,
{
    if j < k - 1 {
        lemma_entries_sound_index(es, k - 1, j);
    }
}

proof fn lemma_last_file_index(s: Seq<ScanEntry>, n: Seq<char>) -> (j: int)
    requires
        last_file(s, n) is Some,
    ensures
        0 <= j < s.len(),
        s[j] matches ScanEntry::File { name: Some(m), .. } && m@ == n,
    decreases s.len(),
{
    match s.last() {
        ScanEntry::File { name: Some(m), .. } => if m@ == n {
            s.len() - 1
        } else {
            let j = lemma_last_file_index(s.drop_last(), n);
            assert(s.drop_last()[j] == s[j]);
            j
        },
        _ => {
            let j = lemma_last_file_index(s.drop_last(), n);
            assert(s.drop_last()[j] == s[j]);
            j
        },
    }
}

proof fn lemma_last_dir_index(s: Seq<ScanEntry>, n: Seq<char>) -> (j: int)
    requires
        last_dir(s, n) is Some,
    ensures
        0 <= j < s.len(),
        s[j] matches ScanEntry::Dir { name: Some(m), entries } && m@ == n && entries@ == last_dir(
            s,
            n,
        ).unwrap(),
    decreases s.len(),
{
    match s.last() {
        ScanEntry::Dir { name: Some(m), .. } => if m@ == n {
            s.len() - 1
        } else {
            let j = lemma_last_dir_index(s.drop_last(), n);
            assert(s.drop_last()[j] == s[j]);
            j
        },
        _ => {
            let j = lemma_last_dir_index(s.drop_last(), n);
            assert(s.drop_last()[j] == s[j]);
            j
        },
    }
}

/// A directory that records a sound walk keeps file and directory names
/// apart and has plain names throughout.
pub proof fn lemma_holds_sound(d: Dir, es: Seq<ScanEntry>)
    requires
        d.holds(es.take(scanned_len(es))),
        walk_sound(es),
    ensures
        d.names_disjoint(),
        d.names_plain(),
    decreases d,
{
    let len = scanned_len(es);
    let s = es.take(len);
    lemma_scan_stop_exists(es);
    assert forall|n: Seq<char>| !(#[trigger] d.file_named(n) is Some && d.dir_named(n) is Some) by {
        assert(d.file_named(n) == recorded_header(last_file(s, n)));
        assert((d.dir_named(n) is Some) == (last_dir(s, n) is Some));
    }
    assert forall|i: int| 0 <= i < d.files@.len() implies is_plain(#[trigger] d.files@[i].0@) by {
        let n = d.files@[i].0@;
        lemma_lookup_none(d.files@, n);
        assert(d.file_named(n) == recorded_header(last_file(s, n)));
        let j = lemma_last_file_index(s, n);
        assert(s[j] == es[j]);
        lemma_entries_sound_index(es, len, j);
    }
    let ds = d.dirs@;
    lemma_dirs_hold_forall(ds, s);
    assert forall|k: int| 0 <= k < ds.len() implies {
        &&& is_plain(#[trigger] ds[k].0@)
        &&& ds[k].1.names_disjoint()
        &&& ds[k].1.names_plain()
    } by {
        let n = ds[k].0@;
        lemma_lookup_none(ds, n);
        assert((d.dir_named(n) is Some) == (last_dir(s, n) is Some));
        let sub = last_dir(s, n).unwrap();
        let j = lemma_last_dir_index(s, n);
        assert(s[j] == es[j]);
        lemma_entries_sound_index(es, len, j);
        assert(dir_holds_at(ds, k, s));
        lemma_holds_sound(ds[k].1, sub);
    }
    lemma_dirs_sound_from_each(ds);
}

} // verus!
