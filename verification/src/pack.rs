//! Laying out the files of a tree one after the other in the archive's data
//! section: the files of a directory first, in order, then the files below
//! each of its subdirectories, in order.
use crate::fs::FRFS;
use crate::path::{
    all_plain, is_plain, join_components, lemma_last_char_of_join, lemma_normalize_pushed,
    normalized_components, push_path, pushed_path,
};
use crate::tree::{
    lemma_find_dir_push, lemma_find_dir_valid, lemma_find_file_push, lemma_lookup_none,
    lemma_unique_lookup, Dir, FileHeader,
};
use vstd::prelude::*;

verus! {

/// The sum of `s`.
pub open spec fn sum(s: Seq<u64>) -> int
    decreases s.len(),
{
    if s.len() == 0 {
        0
    } else {
        sum(s.drop_last()) + s.last()
    }
}

/// Headers for files of sizes `lens` laid out back to back from `base`.
pub open spec fn laid_out(lens: Seq<u64>, base: int) -> Seq<FileHeader> {
    Seq::new(
        lens.len(),
        |i: int| FileHeader { file_size: lens[i], start_at: (base + sum(lens.take(i))) as u64 },
    )
}

/// The bytes of `parts`, one after the other.
pub open spec fn concat(parts: Seq<Seq<u8>>) -> Seq<u8>
    decreases parts.len(),
{
    if parts.len() == 0 {
        Seq::empty()
    } else {
        concat(parts.drop_last()) + parts.last()
    }
}

impl Dir {
    /// The paths of the files below this directory, in packing order, this
    /// directory being at `base`.
    pub open spec fn pack_paths(self, base: Seq<char>) -> Seq<Seq<char>>
        decreases self,
    {
        self.files@.map_values(|e: (String, FileHeader)| pushed_path(base, e.0@))
            + Self::pack_paths_dirs(self.dirs@, base)
    }

    pub open spec fn pack_paths_dirs(ds: Seq<(String, Dir)>, base: Seq<char>) -> Seq<Seq<char>>
        decreases ds,
    {
        if ds.len() == 0 {
            Seq::empty()
        } else {
            Self::pack_paths_dirs(ds.drop_last(), base) + ds.last().1.pack_paths(
                pushed_path(base, ds.last().0@),
            )
        }
    }

    /// The headers of the files below this directory, in packing order.
    pub open spec fn pack_headers(self) -> Seq<FileHeader>
        decreases self,
    {
        self.files@.map_values(|e: (String, FileHeader)| e.1) + Self::pack_headers_dirs(self.dirs@)
    }

    pub open spec fn pack_headers_dirs(ds: Seq<(String, Dir)>) -> Seq<FileHeader>
        decreases ds,
    {
        if ds.len() == 0 {
            Seq::empty()
        } else {
            Self::pack_headers_dirs(ds.drop_last()) + ds.last().1.pack_headers()
        }
    }

    /// The number of directories in this tree.
    pub open spec fn dir_count(self) -> nat
        decreases self,
    {
        1 + Self::dir_count_dirs(self.dirs@)
    }

    pub open spec fn dir_count_dirs(ds: Seq<(String, Dir)>) -> nat
        decreases ds,
    {
        if ds.len() == 0 {
            0
        } else {
            Self::dir_count_dirs(ds.drop_last()) + ds.last().1.dir_count()
        }
    }

    /// The names of the files and subdirectories, at every level.
    pub open spec fn same_shape(self, other: Dir) -> bool
        decreases self,
    {
        &&& self.files@.len() == other.files@.len()
        &&& forall|i: int| 0 <= i < self.files@.len() ==> #[trigger] self.files@[i].0 == other.files@[i].0
        &&& Self::same_shape_dirs(self.dirs@, other.dirs@)
    }

    pub open spec fn same_shape_dirs(ds: Seq<(String, Dir)>, es: Seq<(String, Dir)>) -> bool
        decreases ds,
    {
        if ds.len() == 0 {
            es.len() == 0
        } else {
            &&& es.len() == ds.len()
            &&& Self::same_shape_dirs(ds.drop_last(), es.drop_last())
            &&& ds.last().0 == es.last().0
            &&& ds.last().1.same_shape(es.last().1)
        }
    }
}

/// There are as many paths to pack as files to lay out.
pub proof fn lemma_pack_len(d: Dir, base: Seq<char>)
    ensures
        d.pack_paths(base).len() == d.pack_headers().len(),
    decreases d,
{
    lemma_pack_len_dirs(d.dirs@, base);
}

pub proof fn lemma_pack_len_dirs(ds: Seq<(String, Dir)>, base: Seq<char>)
    ensures
        Dir::pack_paths_dirs(ds, base).len() == Dir::pack_headers_dirs(ds).len(),
    decreases ds,
{
    if ds.len() > 0 {
        lemma_pack_len_dirs(ds.drop_last(), base);
        lemma_pack_len(ds.last().1, pushed_path(base, ds.last().0@));
    }
}

pub proof fn lemma_same_shape_paths(a: Dir, b: Dir, base: Seq<char>)
    requires
        a.same_shape(b),
    ensures
        a.pack_paths(base) == b.pack_paths(base),
    decreases a,
{
    lemma_same_shape_paths_dirs(a.dirs@, b.dirs@, base);
    assert(a.files@.map_values(|e: (String, FileHeader)| pushed_path(base, e.0@))
        =~= b.files@.map_values(|e: (String, FileHeader)| pushed_path(base, e.0@)));
}

pub proof fn lemma_same_shape_paths_dirs(ds: Seq<(String, Dir)>, es: Seq<(String, Dir)>, base: Seq<char>)
    requires
        Dir::same_shape_dirs(ds, es),
    ensures
        Dir::pack_paths_dirs(ds, base) == Dir::pack_paths_dirs(es, base),
    decreases ds,
{
    if ds.len() > 0 {
        lemma_same_shape_paths_dirs(ds.drop_last(), es.drop_last(), base);
        lemma_same_shape_paths(ds.last().1, es.last().1, pushed_path(base, ds.last().0@));
    }
}

pub proof fn lemma_sum_concat(a: Seq<u64>, b: Seq<u64>)
    ensures
        sum(a + b) == sum(a) + sum(b),
    decreases b.len(),
{
    if b.len() == 0 {
        assert(a + b =~= a);
    } else {
        assert((a + b).drop_last() =~= a + b.drop_last());
        lemma_sum_concat(a, b.drop_last());
    }
}

pub proof fn lemma_sum_nonneg(a: Seq<u64>)
    ensures
        sum(a) >= 0,
    decreases a.len(),
{
    if a.len() > 0 {
        lemma_sum_nonneg(a.drop_last());
    }
}

pub proof fn lemma_sum_take_le(a: Seq<u64>, k: int)
    requires
        0 <= k <= a.len(),
    ensures
        sum(a.take(k)) <= sum(a),
        0 <= sum(a.take(k)),
{
    assert(a =~= a.take(k) + a.skip(k));
    lemma_sum_concat(a.take(k), a.skip(k));
    lemma_sum_nonneg(a.skip(k));
    lemma_sum_nonneg(a.take(k));
}

/// Laying out two runs back to back is laying out their concatenation.
pub proof fn lemma_laid_out_concat(l1: Seq<u64>, l2: Seq<u64>, base: int)
    ensures
        laid_out(l1, base) + laid_out(l2, base + sum(l1)) == laid_out(l1 + l2, base),
{
    let l = l1 + l2;
    assert forall|i: int| 0 <= i < l.len() implies #[trigger] (laid_out(l1, base) + laid_out(
        l2,
        base + sum(l1),
    ))[i] == laid_out(l, base)[i] by {
        if i < l1.len() {
            assert(l.take(i) =~= l1.take(i));
        } else {
            assert(l.take(i) =~= l1 + l2.take(i - l1.len()));
            lemma_sum_concat(l1, l2.take(i - l1.len()));
        }
    }
    assert(laid_out(l1, base) + laid_out(l2, base + sum(l1)) =~= laid_out(l, base));
}

/// The packed files do not overlap and lie within the data: file `i` of a
/// layout from 0 starts where file `i - 1` ends and ends by the total size.
/// With a file's size equal to the length of its contents, its bytes in the
/// data (all contents, one after the other) are exactly its contents.
pub proof fn lemma_packed_contents(contents: Seq<Seq<u8>>, lens: Seq<u64>, i: int)
    requires
        contents.len() == lens.len(),
        forall|j: int| 0 <= j < lens.len() ==> #[trigger] lens[j] == contents[j].len(),
        sum(lens) <= u64::MAX,
        0 <= i < lens.len(),
    ensures
        laid_out(lens, 0)[i].start_at + laid_out(lens, 0)[i].file_size <= sum(lens),
        i + 1 < lens.len() ==> laid_out(lens, 0)[i].start_at + laid_out(lens, 0)[i].file_size
            == laid_out(lens, 0)[i + 1].start_at,
        concat(contents).subrange(
            laid_out(lens, 0)[i].start_at as int,
            laid_out(lens, 0)[i].start_at + laid_out(lens, 0)[i].file_size,
        ) == contents[i],
    decreases lens.len(),
{
    lemma_sum_take_le(lens, i);
    lemma_sum_take_le(lens, i + 1);
    assert(lens.take(i + 1).drop_last() =~= lens.take(i));
    if i + 1 < lens.len() {
        assert(laid_out(lens, 0)[i + 1].start_at == sum(lens.take(i + 1)));
    }
    lemma_concat_len_sum(contents, lens);
    let n = lens.len() - 1;
    if i < n {
        let c2 = contents.drop_last();
        let l2 = lens.drop_last();
        assert(lens =~= l2.push(lens.last()));
        assert(sum(lens) == sum(l2) + lens.last());
        assert(forall|j: int| 0 <= j < l2.len() ==> #[trigger] l2[j] == c2[j].len()) by {
            assert forall|j: int| 0 <= j < l2.len() implies #[trigger] l2[j] == c2[j].len() by {
                assert(lens[j] == contents[j].len());
            }
        }
        lemma_packed_contents(c2, l2, i);
        assert(l2.take(i) =~= lens.take(i));
        assert(laid_out(l2, 0)[i] == laid_out(lens, 0)[i]);
        lemma_concat_len_sum(c2, l2);
        assert(concat(contents) == concat(c2) + contents.last());
        assert(concat(contents).subrange(
            laid_out(lens, 0)[i].start_at as int,
            laid_out(lens, 0)[i].start_at + laid_out(lens, 0)[i].file_size,
        ) =~= concat(c2).subrange(
            laid_out(lens, 0)[i].start_at as int,
            laid_out(lens, 0)[i].start_at + laid_out(lens, 0)[i].file_size,
        ));
    } else {
        let c2 = contents.drop_last();
        let l2 = lens.drop_last();
        assert(lens.take(i) =~= l2);
        assert(forall|j: int| 0 <= j < l2.len() ==> #[trigger] l2[j] == c2[j].len()) by {
            assert forall|j: int| 0 <= j < l2.len() implies #[trigger] l2[j] == c2[j].len() by {
                assert(lens[j] == contents[j].len());
            }
        }
        lemma_concat_len_sum(c2, l2);
        assert(concat(contents) == concat(c2) + contents.last());
        assert(concat(contents).subrange(sum(l2), sum(l2) + lens[i]) =~= contents[i]);
    }
}

pub proof fn lemma_concat_len_sum(contents: Seq<Seq<u8>>, lens: Seq<u64>)
    requires
        contents.len() == lens.len(),
        forall|j: int| 0 <= j < lens.len() ==> #[trigger] lens[j] == contents[j].len(),
    ensures
        concat(contents).len() == sum(lens),
    decreases lens.len(),
{
    if lens.len() > 0 {
        let c2 = contents.drop_last();
        let l2 = lens.drop_last();
        assert forall|j: int| 0 <= j < l2.len() implies #[trigger] l2[j] == c2[j].len() by {
            assert(lens[j] == contents[j].len());
        }
        lemma_concat_len_sum(c2, l2);
        assert(lens[lens.len() - 1] == contents[lens.len() - 1].len());
    }
}

/// The sum of `lens`, or `None` where it does not fit in a `u64`.
pub fn checked_sum(lens: &Vec<u64>) -> (r: Option<u64>)
    ensures
        match r {
            Some(t) => t == sum(lens@),
            None => sum(lens@) > u64::MAX,
        },
{
    let mut total: u64 = 0;
    let mut i: usize = 0;
    while i < lens.len()
        invariant
            i <= lens@.len(),
            total == sum(lens@.take(i as int)),
        decreases lens.len() - i,
    {
        proof {
            assert(lens@.take(i + 1).drop_last() =~= lens@.take(i as int));
        }
        if lens[i] > u64::MAX - total {
            proof {
                lemma_sum_take_le(lens@, i + 1);
            }
            return None;
        }
        total = total + lens[i];
        i = i + 1;
    }
    proof {
        assert(lens@.take(i as int) =~= lens@);
    }
    Some(total)
}

impl Dir {
    /// Appends the paths of the files below this directory, in packing
    /// order, this directory being at `base`.
    pub fn collect_paths(&self, base: &str, out: &mut Vec<String>)
        ensures
            final(out)@.map_values(|p: String| p@) == old(out)@.map_values(|p: String| p@)
                + self.pack_paths(base@),
        decreases self,
    {
        let ghost start = old(out)@.map_values(|p: String| p@);
        let ghost fp = self.files@.map_values(|e: (String, FileHeader)| pushed_path(base@, e.0@));
        let mut i: usize = 0;
        while i < self.files.len()
            invariant
                i <= self.files@.len(),
                fp == self.files@.map_values(|e: (String, FileHeader)| pushed_path(base@, e.0@)),
                out@.map_values(|p: String| p@) == start + fp.take(i as int),
            decreases self.files.len() - i,
        {
            let p = push_path(base, self.files[i].0.as_str());
            let ghost pv = p@;
            let ghost prev = out@;
            out.push(p);
            i = i + 1;
            proof {
                assert(fp[i - 1] == pushed_path(base@, self.files@[i - 1].0@));
                assert(fp.take(i as int) =~= fp.take(i - 1).push(fp[i - 1]));
                assert(out@.map_values(|p: String| p@) =~= prev.map_values(|p: String| p@).push(pv));
                assert(out@.map_values(|p: String| p@) =~= start + fp.take(i as int));
            }
        }
        proof {
            assert(fp.take(i as int) =~= fp);
        }
        let ghost mid = out@.map_values(|p: String| p@);
        let mut j: usize = 0;
        while j < self.dirs.len()
            invariant
                j <= self.dirs@.len(),
                mid == start + fp,
                out@.map_values(|p: String| p@) == mid + Self::pack_paths_dirs(
                    self.dirs@.take(j as int),
                    base@,
                ),
            decreases self.dirs.len() - j,
        {
            proof {
                assert(self.dirs@.take(j + 1).drop_last() =~= self.dirs@.take(j as int));
                assert(self.dirs@.take(j + 1).last() == self.dirs@[j as int]);
            }
            let sub_base = push_path(base, self.dirs[j].0.as_str());
            self.dirs[j].1.collect_paths(sub_base.as_str(), out);
            j = j + 1;
            proof {
                assert(out@.map_values(|p: String| p@) =~= mid + Self::pack_paths_dirs(
                    self.dirs@.take(j as int),
                    base@,
                ));
            }
        }
        proof {
            assert(self.dirs@.take(j as int) =~= self.dirs@);
        }
    }

    /// Lays out the files below this directory in packing order, the first
    /// at `data_size`, with the sizes `lens[k..]`: each file gets the next
    /// size and starts where the one before it ended. Returns the index of
    /// the next size and where the next file would start.
    pub fn assign_offsets(&mut self, lens: &Vec<u64>, k: usize, data_size: u64) -> (r: (usize, u64))
        requires
            k + old(self).pack_headers().len() <= lens@.len(),
            data_size + sum(lens@.subrange(k as int, k + old(self).pack_headers().len()))
                <= u64::MAX,
        ensures
            r.0 == k + old(self).pack_headers().len(),
            r.1 == data_size + sum(lens@.subrange(k as int, r.0 as int)),
            final(self).pack_headers() == laid_out(lens@.subrange(k as int, r.0 as int), data_size as int),
            final(self).same_shape(*old(self)),
            old(self).same_shape(*final(self)),
        decreases old(self).dir_count(),
    {
        let ghost old_self = *self;
        let ghost nf = self.files@.len();
        let ghost total = old_self.pack_headers().len();
        let ghost fh = old_self.files@.map_values(|e: (String, FileHeader)| e.1);
        proof {
            lemma_sum_take_le(lens@.subrange(k as int, k + total), nf as int);
            assert(lens@.subrange(k as int, k + total).take(nf as int) =~= lens@.subrange(k as int, k + nf));
        }
        let mut i: usize = 0;
        let mut at: u64 = data_size;
        let mut next: usize = k;
        while i < self.files.len()
            invariant
                i <= nf,
                nf == self.files@.len(),
                nf == old_self.files@.len(),
                next == k + i,
                k + nf <= lens.len(),
                k + total <= lens@.len(),
                nf <= total,
                total == old_self.pack_headers().len(),
                data_size + sum(lens@.subrange(k as int, k + nf)) <= u64::MAX,
                at == data_size + sum(lens@.subrange(k as int, next as int)),
                self.dirs == old_self.dirs,
                forall|j: int| 0 <= j < nf ==> #[trigger] self.files@[j].0 == old_self.files@[j].0,
                forall|j: int|
                    0 <= j < i ==> #[trigger] self.files@[j].1 == laid_out(
                        lens@.subrange(k as int, k + nf),
                        data_size as int,
                    )[j],
            decreases nf - i,
        {
            proof {
                assert(lens@.subrange(k as int, next + 1).drop_last() =~= lens@.subrange(
                    k as int,
                    next as int,
                ));
                assert(lens@.subrange(k as int, k + nf).take(i as int) =~= lens@.subrange(
                    k as int,
                    next as int,
                ));
                assert(lens@.subrange(k as int, k + nf).take(i + 1) =~= lens@.subrange(
                    k as int,
                    next + 1,
                ));
                lemma_sum_take_le(lens@.subrange(k as int, k + nf), i + 1);
            }
            let len = lens[next];
            self.files[i].1 = FileHeader { file_size: len, start_at: at };
            at = at + len;
            next = next + 1;
            i = i + 1;
        }
        proof {
            assert(self.files@.map_values(|e: (String, FileHeader)| e.1) =~= laid_out(
                lens@.subrange(k as int, k + nf),
                data_size as int,
            ));
            assert(lens@.subrange(k as int, k + total) =~= lens@.subrange(k as int, k + nf)
                + lens@.subrange(k + nf, k + total));
            lemma_sum_concat(lens@.subrange(k as int, k + nf), lens@.subrange(k + nf, k + total));
            lemma_sum_nonneg(lens@.subrange(k + nf, k + total));
        }
        let ghost after_files = *self;
        let ghost ds0 = old_self.dirs@;
        let ghost start_dirs = next;
        let ghost at_dirs = at;
        let mut j: usize = 0;
        while j < self.dirs.len()
            invariant
                j <= ds0.len(),
                self.dirs@.len() == ds0.len(),
                ds0 == old_self.dirs@,
                old_self == *old(self),
                self.files == after_files.files,
                start_dirs == k + nf,
                k + total <= lens@.len(),
                total == nf + Self::pack_headers_dirs(ds0).len(),
                at_dirs == data_size + sum(lens@.subrange(k as int, start_dirs as int)),
                at_dirs + sum(lens@.subrange(start_dirs as int, k + total)) <= u64::MAX,
                next == start_dirs + Self::pack_headers_dirs(ds0.take(j as int)).len(),
                next <= k + total,
                at == at_dirs + sum(lens@.subrange(start_dirs as int, next as int)),
                Self::pack_headers_dirs(self.dirs@.take(j as int)) == laid_out(
                    lens@.subrange(start_dirs as int, next as int),
                    at_dirs as int,
                ),
                Self::same_shape_dirs(self.dirs@.take(j as int), ds0.take(j as int)),
                Self::same_shape_dirs(ds0.take(j as int), self.dirs@.take(j as int)),
                forall|m: int| j <= m < ds0.len() ==> #[trigger] self.dirs@[m] == ds0[m],
            decreases ds0.len() - j,
        {
            proof {
                assert(ds0.take(j + 1).drop_last() =~= ds0.take(j as int));
                assert(ds0.take(j + 1).last() == ds0[j as int]);
                lemma_pack_headers_dirs_prefix(ds0, j + 1);
                lemma_dir_count_element(ds0, j as int);
                assert(self.dirs@[j as int] == ds0[j as int]);
                assert(lens@.subrange(start_dirs as int, k + total) =~= lens@.subrange(
                    start_dirs as int,
                    next as int,
                ) + lens@.subrange(next as int, k + total));
                lemma_sum_concat(
                    lens@.subrange(start_dirs as int, next as int),
                    lens@.subrange(next as int, k + total),
                );
                let c = ds0[j as int].1.pack_headers().len();
                assert(lens@.subrange(next as int, k + total) =~= lens@.subrange(next as int, next + c)
                    + lens@.subrange(next + c, k + total));
                lemma_sum_concat(lens@.subrange(next as int, next + c), lens@.subrange(next + c, k + total));
                lemma_sum_nonneg(lens@.subrange(next + c, k + total));
                lemma_sum_nonneg(lens@.subrange(start_dirs as int, next as int));
            }
            let ghost before = self.dirs@;
            let ghost prev_next = next;
            let ghost prev_at = at;
            assert(self.dirs@[j as int].1.dir_count() < old_self.dir_count());
            let (n2, a2) = self.dirs[j].1.assign_offsets(lens, next, at);
            next = n2;
            at = a2;
            j = j + 1;
            proof {
                let t = self.dirs@.take(j as int);
                assert(t.drop_last() =~= before.take(j - 1));
                assert(ds0.take(j as int).drop_last() =~= ds0.take(j - 1));
                assert(forall|m: int| j <= m < ds0.len() ==> #[trigger] self.dirs@[m] == before[m]);
                assert(self.dirs@[j - 1].0 == before[j - 1].0);
                lemma_laid_out_concat(
                    lens@.subrange(start_dirs as int, prev_next as int),
                    lens@.subrange(prev_next as int, next as int),
                    at_dirs as int,
                );
                assert(lens@.subrange(start_dirs as int, prev_next as int) + lens@.subrange(
                    prev_next as int,
                    next as int,
                ) =~= lens@.subrange(start_dirs as int, next as int));
                lemma_sum_concat(
                    lens@.subrange(start_dirs as int, prev_next as int),
                    lens@.subrange(prev_next as int, next as int),
                );
            }
        }
        proof {
            assert(self.dirs@.take(j as int) =~= self.dirs@);
            assert(ds0.take(j as int) =~= ds0);
            assert(self.files@.map_values(|e: (String, FileHeader)| e.1) =~= laid_out(
                lens@.subrange(k as int, k + nf),
                data_size as int,
            ));
            lemma_laid_out_concat(
                lens@.subrange(k as int, k + nf),
                lens@.subrange(start_dirs as int, next as int),
                data_size as int,
            );
            assert(lens@.subrange(k as int, k + nf) + lens@.subrange(start_dirs as int, next as int)
                =~= lens@.subrange(k as int, next as int));
            lemma_sum_concat(lens@.subrange(k as int, k + nf), lens@.subrange(start_dirs as int, next as int));
        }
        (next, at)
    }
}

pub proof fn lemma_dir_count_element(ds: Seq<(String, Dir)>, j: int)
    requires
        0 <= j < ds.len(),
    ensures
        ds[j].1.dir_count() <= Dir::dir_count_dirs(ds),
    decreases ds.len(),
{
    if j < ds.len() - 1 {
        assert(ds.drop_last()[j] == ds[j]);
        lemma_dir_count_element(ds.drop_last(), j);
    }
}

pub proof fn lemma_pack_headers_dirs_prefix(ds: Seq<(String, Dir)>, j: int)
    requires
        0 <= j <= ds.len(),
    ensures
        Dir::pack_headers_dirs(ds.take(j)).len() <= Dir::pack_headers_dirs(ds).len(),
    decreases ds.len(),
{
    if j < ds.len() {
        assert(ds.drop_last().take(j) =~= ds.take(j));
        lemma_pack_headers_dirs_prefix(ds.drop_last(), j);
    } else {
        assert(ds.take(j) =~= ds);
    }
}

} // verus!

verus! {

pub proof fn lemma_same_shape_wf(a: Dir, b: Dir)
    requires
        a.same_shape(b),
        a.wf(),
    ensures
        b.wf(),
    decreases a,
{
    assert forall|i: int, j: int| 0 <= i < j < b.files@.len() implies #[trigger] b.files@[i].0@
        != #[trigger] b.files@[j].0@ by {
        assert(a.files@[i].0 == b.files@[i].0);
        assert(a.files@[j].0 == b.files@[j].0);
    }
    lemma_same_shape_wf_dirs(a.dirs@, b.dirs@);
}

pub proof fn lemma_same_shape_wf_dirs(ds: Seq<(String, Dir)>, es: Seq<(String, Dir)>)
    requires
        Dir::same_shape_dirs(ds, es),
        Dir::all_wf(ds),
        crate::tree::names_unique(ds),
    ensures
        Dir::all_wf(es),
        crate::tree::names_unique(es),
    decreases ds,
{
    if ds.len() > 0 {
        assert(crate::tree::names_unique(ds.drop_last())) by {
            assert forall|i: int, j: int|
                0 <= i < j < ds.drop_last().len() implies #[trigger] ds.drop_last()[i].0@
                != #[trigger] ds.drop_last()[j].0@ by {
                assert(ds[i] == ds.drop_last()[i]);
                assert(ds[j] == ds.drop_last()[j]);
            }
        }
        lemma_same_shape_wf_dirs(ds.drop_last(), es.drop_last());
        lemma_same_shape_wf(ds.last().1, es.last().1);
        lemma_same_shape_names(ds, es);
        assert forall|i: int, j: int| 0 <= i < j < es.len() implies #[trigger] es[i].0@
            != #[trigger] es[j].0@ by {
            assert(ds[i].0 == es[i].0);
            assert(ds[j].0 == es[j].0);
        }
    } else {
        lemma_same_shape_names(ds, es);
    }
}

pub proof fn lemma_same_shape_names(ds: Seq<(String, Dir)>, es: Seq<(String, Dir)>)
    requires
        Dir::same_shape_dirs(ds, es),
    ensures
        ds.len() == es.len(),
        forall|k: int| 0 <= k < ds.len() ==> #[trigger] ds[k].0 == es[k].0,
    decreases ds.len(),
{
    if ds.len() > 0 {
        lemma_same_shape_names(ds.drop_last(), es.drop_last());
        assert forall|k: int| 0 <= k < ds.len() implies #[trigger] ds[k].0 == es[k].0 by {
            if k < ds.len() - 1 {
                assert(ds.drop_last()[k] == ds[k]);
                assert(es.drop_last()[k] == es[k]);
            }
        }
    }
}

} // verus!

verus! {

impl Dir {
    /// Every name, at every level, is a plain path component (as the names
    /// read from a directory on disk are).
    pub open spec fn names_plain(self) -> bool
        decreases self,
    {
        &&& forall|i: int| 0 <= i < self.files@.len() ==> is_plain(#[trigger] self.files@[i].0@)
        &&& Self::all_names_plain(self.dirs@)
    }

    pub open spec fn all_names_plain(ds: Seq<(String, Dir)>) -> bool
        decreases ds,
    {
        if ds.len() == 0 {
            true
        } else {
            &&& Self::all_names_plain(ds.drop_last())
            &&& is_plain(ds.last().0@)
            &&& ds.last().1.names_plain()
        }
    }
}

/// Plain components extended by a plain name join to the joined components
/// extended by that name.
pub proof fn lemma_pushed_join(cs: Seq<Seq<char>>, name: Seq<char>)
    requires
        all_plain(cs),
        is_plain(name),
    ensures
        pushed_path(join_components(cs), name) == join_components(cs.push(name)),
        all_plain(cs.push(name)),
{
    let ext = cs.push(name);
    assert(all_plain(ext)) by {
        assert forall|i: int| 0 <= i < ext.len() implies is_plain(#[trigger] ext[i]) by {
            if i < cs.len() {
                assert(ext[i] == cs[i]);
            }
        }
    }
    assert(!(name.len() > 0 && name[0] == '/')) by {
        if name.len() > 0 && name[0] == '/' {
            assert(name.contains('/'));
        }
    }
    assert(ext.drop_last() =~= cs);
    if cs.len() == 0 {
        assert(ext =~= seq![name]);
    } else {
        lemma_last_char_of_join(cs);
    }
}

proof fn lemma_pack_found(root: Dir, cs: Seq<Seq<char>>, d: Dir)
    requires
        root.wf(),
        root.names_disjoint(),
        all_plain(cs),
        root.find_dir(cs) == Some(d),
        d.names_plain(),
    ensures
        forall|i: int|
            0 <= i < d.pack_headers().len() ==> root.find_file(
                normalized_components(#[trigger] d.pack_paths(join_components(cs))[i]),
            ) == Some(d.pack_headers()[i]),
    decreases d,
{
    let base = join_components(cs);
    lemma_find_dir_valid(root, cs);
    lemma_pack_len(d, base);
    lemma_pack_len_dirs(d.dirs@, base);
    let fp = d.files@.map_values(|e: (String, FileHeader)| pushed_path(base, e.0@));
    let fh = d.files@.map_values(|e: (String, FileHeader)| e.1);
    assert forall|j: int| 0 <= j < d.dirs@.len() implies root.find_dir(
        cs.push(#[trigger] d.dirs@[j].0@),
    ) == Some(d.dirs@[j].1) by {
        lemma_find_dir_push(root, cs, d.dirs@[j].0@);
        lemma_unique_lookup(d.dirs@, j);
    }
    lemma_pack_found_dirs(root, cs, d.dirs@);
    assert forall|i: int| 0 <= i < d.pack_headers().len() implies root.find_file(
        normalized_components(#[trigger] d.pack_paths(base)[i]),
    ) == Some(d.pack_headers()[i]) by {
        if i < d.files@.len() {
            let n = d.files@[i].0@;
            assert(d.pack_paths(base)[i] == fp[i]);
            assert(d.pack_headers()[i] == fh[i]);
            lemma_normalize_pushed(cs, n);
            lemma_find_file_push(root, cs, n);
            lemma_unique_lookup(d.files@, i);
        } else {
            let k = i - d.files@.len();
            assert(d.pack_paths(base)[i] == Dir::pack_paths_dirs(d.dirs@, base)[k]);
            assert(d.pack_headers()[i] == Dir::pack_headers_dirs(d.dirs@)[k]);
        }
    }
}

proof fn lemma_pack_found_dirs(root: Dir, cs: Seq<Seq<char>>, ds: Seq<(String, Dir)>)
    requires
        root.wf(),
        root.names_disjoint(),
        all_plain(cs),
        forall|j: int|
            0 <= j < ds.len() ==> root.find_dir(cs.push(#[trigger] ds[j].0@)) == Some(ds[j].1),
        Dir::all_names_plain(ds),
    ensures
        forall|i: int|
            0 <= i < Dir::pack_headers_dirs(ds).len() ==> root.find_file(
                normalized_components(
                    #[trigger] Dir::pack_paths_dirs(ds, join_components(cs))[i],
                ),
            ) == Some(Dir::pack_headers_dirs(ds)[i]),
    decreases ds,
{
    if ds.len() > 0 {
        let base = join_components(cs);
        let front = ds.drop_last();
        assert forall|j: int| 0 <= j < front.len() implies root.find_dir(
            cs.push(#[trigger] front[j].0@),
        ) == Some(front[j].1) by {
            assert(front[j] == ds[j]);
        }
        lemma_pack_found_dirs(root, cs, front);
        let m = ds.last().0@;
        let e = ds.last().1;
        assert(ds.last() == ds[ds.len() - 1]);
        lemma_pushed_join(cs, m);
        let cs2 = cs.push(m);
        lemma_pack_found(root, cs2, e);
        lemma_pack_len_dirs(front, base);
        lemma_pack_len(e, pushed_path(base, m));
        let n = Dir::pack_headers_dirs(front).len();
        assert forall|i: int| 0 <= i < Dir::pack_headers_dirs(ds).len() implies root.find_file(
            normalized_components(#[trigger] Dir::pack_paths_dirs(ds, base)[i]),
        ) == Some(Dir::pack_headers_dirs(ds)[i]) by {
            if i < n {
                assert(Dir::pack_paths_dirs(ds, base)[i] == Dir::pack_paths_dirs(front, base)[i]);
                assert(Dir::pack_headers_dirs(ds)[i] == Dir::pack_headers_dirs(front)[i]);
            } else {
                assert(Dir::pack_paths_dirs(ds, base)[i] == e.pack_paths(join_components(cs2))[i
                    - n]);
                assert(Dir::pack_headers_dirs(ds)[i] == e.pack_headers()[i - n]);
            }
        }
    }
}

/// Packing and looking up agree: in a file system whose tree has unique
/// names, no file and subdirectory of one name in a directory, and plain
/// names throughout, the path (relative to the root) of the `i`-th packed
/// file names exactly the header laid out for it.
pub proof fn lemma_packed_file_found(fs: FRFS, i: int)
    requires
        fs.root().wf(),
        fs.root().names_disjoint(),
        fs.root().names_plain(),
        0 <= i < fs.root().pack_headers().len(),
    ensures
        fs.file_at(fs.root().pack_paths(Seq::empty())[i]) == Some(fs.root().pack_headers()[i]),
{
    let root = fs.root();
    let cs = Seq::<Seq<char>>::empty();
    assert(root.find_dir(cs) == Some(root));
    assert(join_components(cs) =~= Seq::<char>::empty());
    lemma_pack_found(root, cs, root);
}

} // verus!

verus! {

/// The directories of `ds` keep file and directory names apart, and have
/// plain names throughout, where each of them does and has a plain name.
pub proof fn lemma_dirs_sound_from_each(ds: Seq<(String, Dir)>)
    requires
        forall|k: int|
            0 <= k < ds.len() ==> {
                &&& is_plain(#[trigger] ds[k].0@)
                &&& ds[k].1.names_disjoint()
                &&& ds[k].1.names_plain()
            },
    ensures
        Dir::all_disjoint(ds),
        Dir::all_names_plain(ds),
    decreases ds.len(),
{
    if ds.len() > 0 {
        let front = ds.drop_last();
        assert forall|k: int| 0 <= k < front.len() implies {
            &&& is_plain(#[trigger] front[k].0@)
            &&& front[k].1.names_disjoint()
            &&& front[k].1.names_plain()
        } by {
            assert(front[k] == ds[k]);
        }
        lemma_dirs_sound_from_each(front);
        assert(ds.last() == ds[ds.len() - 1]);
        assert(is_plain(ds[ds.len() - 1].0@));
    }
}

/// Giving files new headers keeps names apart and plain.
pub proof fn lemma_same_shape_sound(a: Dir, b: Dir)
    requires
        a.same_shape(b),
    ensures
        a.names_disjoint() ==> b.names_disjoint(),
        a.names_plain() ==> b.names_plain(),
    decreases a,
{
    lemma_same_shape_names(a.dirs@, b.dirs@);
    assert forall|n: Seq<char>| (#[trigger] b.file_named(n) is Some) == (a.file_named(
        n,
    ) is Some) by {
        lemma_lookup_none(a.files@, n);
        lemma_lookup_none(b.files@, n);
        if a.file_named(n) is None {
            assert forall|j: int| 0 <= j < b.files@.len() implies #[trigger] b.files@[j].0@
                != n by {
                assert(a.files@[j].0 == b.files@[j].0);
            }
        }
        if b.file_named(n) is None {
            assert forall|j: int| 0 <= j < a.files@.len() implies #[trigger] a.files@[j].0@
                != n by {
                assert(a.files@[j].0 == b.files@[j].0);
            }
        }
    }
    assert forall|n: Seq<char>| (#[trigger] b.dir_named(n) is Some) == (a.dir_named(n) is Some) by {
        lemma_lookup_none(a.dirs@, n);
        lemma_lookup_none(b.dirs@, n);
        if a.dir_named(n) is None {
            assert forall|j: int| 0 <= j < b.dirs@.len() implies #[trigger] b.dirs@[j].0@ != n by {
                assert(a.dirs@[j].0 == b.dirs@[j].0);
            }
        }
        if b.dir_named(n) is None {
            assert forall|j: int| 0 <= j < a.dirs@.len() implies #[trigger] a.dirs@[j].0@ != n by {
                assert(a.dirs@[j].0 == b.dirs@[j].0);
            }
        }
    }
    if a.names_plain() {
        assert forall|i: int| 0 <= i < b.files@.len() implies is_plain(#[trigger] b.files@[i].0@) by {
            assert(a.files@[i].0 == b.files@[i].0);
            assert(is_plain(a.files@[i].0@));
        }
    }
    lemma_same_shape_sound_dirs(a.dirs@, b.dirs@);
}

pub proof fn lemma_same_shape_sound_dirs(ds: Seq<(String, Dir)>, es: Seq<(String, Dir)>)
    requires
        Dir::same_shape_dirs(ds, es),
    ensures
        Dir::all_disjoint(ds) ==> Dir::all_disjoint(es),
        Dir::all_names_plain(ds) ==> Dir::all_names_plain(es),
    decreases ds,
{
    if ds.len() > 0 {
        lemma_same_shape_sound_dirs(ds.drop_last(), es.drop_last());
        lemma_same_shape_sound(ds.last().1, es.last().1);
    }
}

} // verus!
