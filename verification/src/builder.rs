//! Building an archive from a walk of a directory on disk.
use crate::format::{
    archive_bytes, archive_len, frame_archive, MagicNumber, MAGIC_NUMBER_END, MAGIC_NUMBER_START,
};
use crate::fs::FRFSHeader;
use crate::pack::{
    concat, laid_out, lemma_concat_len_sum, lemma_same_shape_paths, lemma_same_shape_sound,
    lemma_same_shape_wf, sum,
};
use crate::scan::{scan_total, walk_sound, ScanEntry};
use crate::tree::Dir;
use vstd::prelude::*;

verus! {

/// An archive in the making: the header of the tree to pack, the directory
/// it was read from, and the magic numbers to frame it with.
#[derive(Debug)]
pub struct FRFSBuilder {
    pub header: FRFSHeader,
    pub source: String,
    pub magic_number_start: MagicNumber,
    pub magic_number_end: MagicNumber,
}

/// The lengths of `contents`, as sizes.
pub open spec fn content_lens(contents: Seq<Vec<u8>>) -> Seq<u64> {
    contents.map_values(|c: Vec<u8>| c@.len() as u64)
}

/// The bytes of each of `contents`.
pub open spec fn content_views(contents: Seq<Vec<u8>>) -> Seq<Seq<u8>> {
    contents.map_values(|c: Vec<u8>| c@)
}

/// Each size is its content's length.
pub proof fn lemma_content_lens(contents: Seq<Vec<u8>>)
    ensures
        content_lens(contents).len() == contents.len(),
        content_views(contents).len() == contents.len(),
        forall|j: int|
            0 <= j < contents.len() ==> #[trigger] content_lens(contents)[j] == content_views(
                contents,
            )[j].len(),
{
    assert forall|j: int| 0 <= j < contents.len() implies #[trigger] content_lens(contents)[j]
        == content_views(contents)[j].len() by {
        assert(contents[j].len() == contents[j]@.len());
    }
}

impl FRFSBuilder {
    /// A builder for the directory `source`, whose walk is `entries`, with
    /// the default magic numbers.
    pub fn from_dir(source: &str, entries: &Vec<ScanEntry>) -> (r: Self)
        requires
            scan_total(entries@) <= u64::MAX,
        ensures
            r.header.root.holds_scan(entries@),
            r.header.root.wf(),
            walk_sound(entries@) ==> r.header.root.names_disjoint() && r.header.root.names_plain(),
            r.header.data_size == scan_total(entries@),
            r.header.start_at == 0,
            r.source@ == source@,
            r.magic_number_start == MAGIC_NUMBER_START,
            r.magic_number_end == MAGIC_NUMBER_END,
    {
        Self::from_dir_with_header(source, entries, MAGIC_NUMBER_START, MAGIC_NUMBER_END)
    }

    /// A builder for the directory `source`, whose walk is `entries`, with
    /// the given magic numbers. The header records the walk (see
    /// [`Dir::from_scan`]), and its data size is the total size of the
    /// recorded files.
    pub fn from_dir_with_header(
        source: &str,
        entries: &Vec<ScanEntry>,
        magic_number_start: MagicNumber,
        magic_number_end: MagicNumber,
    ) -> (r: Self)
        requires
            scan_total(entries@) <= u64::MAX,
        ensures
            r.header.root.holds_scan(entries@),
            r.header.root.wf(),
            walk_sound(entries@) ==> r.header.root.names_disjoint() && r.header.root.names_plain(),
            r.header.data_size == scan_total(entries@),
            r.header.start_at == 0,
            r.source@ == source@,
            r.magic_number_start == magic_number_start,
            r.magic_number_end == magic_number_end,
    {
        let (dir, length) = Dir::from_scan(entries);
        FRFSBuilder {
            header: FRFSHeader { root: dir, data_size: length, start_at: 0 },
            source: source.to_string(),
            magic_number_start,
            magic_number_end,
        }
    }

    /// The paths on disk of the files to pack, in packing order.
    pub fn files_to_pack(&self) -> (r: Vec<String>)
        ensures
            r@.map_values(|p: String| p@) == self.header.root.pack_paths(self.source@),
            r@.len() == self.header.root.pack_headers().len(),
    {
        proof {
            crate::pack::lemma_pack_len(self.header.root, self.source@);
        }
        let mut out: Vec<String> = Vec::new();
        proof {
            assert(out@.map_values(|p: String| p@) =~= Seq::<Seq<char>>::empty());
        }
        self.header.root.collect_paths(self.source.as_str(), &mut out);
        proof {
            assert(Seq::<Seq<char>>::empty() + self.header.root.pack_paths(self.source@)
                =~= self.header.root.pack_paths(self.source@));
            assert(out@.len() == out@.map_values(|p: String| p@).len());
        }
        out
    }

    /// Records the files read from disk, in packing order, whose contents
    /// are `contents`: the files are laid out back to back from the start of
    /// the data, with their lengths as sizes, the data size becomes their
    /// total, and the data (all contents, one after the other) is returned.
    pub fn fill_with_files(&mut self, contents: &Vec<Vec<u8>>) -> (data: Vec<u8>)
        requires
            contents@.len() == old(self).header.root.pack_headers().len(),
            sum(content_lens(contents@)) <= usize::MAX,
        ensures
            data@ == concat(content_views(contents@)),
            final(self).header.data_size == data@.len(),
            final(self).header.root.pack_headers() == laid_out(content_lens(contents@), 0),
            forall|b: Seq<char>| #[trigger] final(self).header.root.pack_paths(b)
                == old(self).header.root.pack_paths(b),
            old(self).header.root.wf() ==> final(self).header.root.wf(),
            old(self).header.root.names_disjoint() ==> final(self).header.root.names_disjoint(),
            old(self).header.root.names_plain() ==> final(self).header.root.names_plain(),
            final(self).header.start_at == old(self).header.start_at,
            final(self).source == old(self).source,
            final(self).magic_number_start == old(self).magic_number_start,
            final(self).magic_number_end == old(self).magic_number_end,
    {
        let ghost lens_all = content_lens(contents@);
        let ghost views = content_views(contents@);
        proof {
            lemma_content_lens(contents@);
        }
        let mut lens: Vec<u64> = Vec::new();
        let mut data: Vec<u8> = Vec::new();
        let mut i: usize = 0;
        proof {
            assert(lens_all.take(0) =~= Seq::<u64>::empty());
            assert(views.take(0) =~= Seq::<Seq<u8>>::empty());
        }
        while i < contents.len()
            invariant
                i <= contents@.len(),
                lens_all == content_lens(contents@),
                views == content_views(contents@),
                lens_all.len() == contents@.len(),
                views.len() == contents@.len(),
                forall|j: int| 0 <= j < lens_all.len() ==> #[trigger] lens_all[j] == views[j].len(),
                sum(lens_all) <= usize::MAX,
                lens@ == lens_all.take(i as int),
                data@ == concat(views.take(i as int)),
            decreases contents.len() - i,
        {
            let c = &contents[i];
            proof {
                assert(views[i as int] == c@);
                assert(lens_all.take(i + 1).drop_last() =~= lens_all.take(i as int));
                assert(views.take(i + 1).drop_last() =~= views.take(i as int));
                assert(views.take(i + 1).last() == c@);
            }
            let ghost before = data@;
            data.extend_from_slice(c.as_slice());
            proof {
                assert forall|k: int| 0 <= k < data@.len() implies #[trigger] data@[k] == (before
                    + c@)[k] by {
                    if k >= before.len() {
                        assert(cloned::<u8>(c@[k - before.len()], data@[k]));
                    }
                }
                assert(data@ =~= before + c@);
            }
            lens.push(c.len() as u64);
            proof {
                assert(lens@ =~= lens_all.take(i + 1));
            }
            i = i + 1;
        }
        proof {
            assert(lens_all.take(i as int) =~= lens_all);
            assert(views.take(i as int) =~= views);
            lemma_concat_len_sum(views, lens_all);
        }
        self.lay_out(&lens);
        data
    }

    /// Lays out files of sizes `lens`, in packing order, back to back from
    /// the start of the data; the data size becomes their total, which is
    /// returned.
    fn lay_out(&mut self, lens: &Vec<u64>) -> (r: u64)
        requires
            lens@.len() == old(self).header.root.pack_headers().len(),
            sum(lens@) <= u64::MAX,
        ensures
            r == sum(lens@),
            final(self).header.data_size == r,
            final(self).header.root.pack_headers() == laid_out(lens@, 0),
            forall|b: Seq<char>| #[trigger] final(self).header.root.pack_paths(b)
                == old(self).header.root.pack_paths(b),
            old(self).header.root.wf() ==> final(self).header.root.wf(),
            old(self).header.root.names_disjoint() ==> final(self).header.root.names_disjoint(),
            old(self).header.root.names_plain() ==> final(self).header.root.names_plain(),
            final(self).header.start_at == old(self).header.start_at,
            final(self).source == old(self).source,
            final(self).magic_number_start == old(self).magic_number_start,
            final(self).magic_number_end == old(self).magic_number_end,
    {
        proof {
            assert(lens@.subrange(0, lens@.len() as int) =~= lens@);
        }
        let ghost before = self.header.root;
        let (_, data_size) = self.header.root.assign_offsets(lens, 0, 0);
        self.header.data_size = data_size;
        proof {
            assert forall|b: Seq<char>| #[trigger] self.header.root.pack_paths(b)
                == before.pack_paths(b) by {
                lemma_same_shape_paths(self.header.root, before, b);
            }
            if before.wf() {
                lemma_same_shape_wf(before, self.header.root);
            }
            lemma_same_shape_sound(before, self.header.root);
        }
        data_size
    }

    /// The archive: the start magic number, the serialized header's length,
    /// the serialized header, the data of all files, the archive's total
    /// length and the end magic number.
    pub fn build(self, header: &[u8], data: &[u8]) -> (r: Vec<u8>)
        requires
            archive_len(header@.len(), data@.len()) <= usize::MAX,
        ensures
            r@ == archive_bytes(self.magic_number_start@, header@, data@, self.magic_number_end@),
    {
        frame_archive(&self.magic_number_start, header, data, &self.magic_number_end)
    }
}

} // verus!

verus! {

/// What is packed is what is found: in a file that ends with an archive
/// (after any `prefix`) whose data holds the contents of the packed files
/// one after the other, with sizes equal to their lengths, the bytes of the
/// `i`-th file lie at the data's start (where loading says it is) plus the
/// offset that laying out gave that file.
pub proof fn lemma_packed_file_bytes(
    prefix: Seq<u8>,
    ms: Seq<u8>,
    header: Seq<u8>,
    contents: Seq<Seq<u8>>,
    lens: Seq<u64>,
    me: Seq<u8>,
    i: int,
)
    requires
        ms.len() == crate::format::MAGIC_LEN,
        me.len() == crate::format::MAGIC_LEN,
        contents.len() == lens.len(),
        forall|j: int| 0 <= j < lens.len() ==> #[trigger] lens[j] == contents[j].len(),
        sum(lens) <= u64::MAX,
        0 <= i < lens.len(),
    ensures
        ({
            let image = prefix + archive_bytes(ms, header, crate::pack::concat(contents), me);
            let data_start = prefix.len() + crate::format::MAGIC_LEN + crate::format::U64_LEN
                + header.len();
            let h = laid_out(lens, 0)[i];
            image.subrange(data_start + h.start_at, data_start + h.start_at + h.file_size)
                == contents[i]
        }),
{
    let data = crate::pack::concat(contents);
    crate::pack::lemma_packed_contents(contents, lens, i);
    crate::pack::lemma_concat_len_sum(contents, lens);
    let h = laid_out(lens, 0)[i];
    let data_start = prefix.len() + 15 + header.len();
    let image = prefix + archive_bytes(ms, header, data, me);
    let hb = crate::format::be_bytes(header.len() as u64);
    let tb = crate::format::be_bytes(archive_len(header.len(), data.len()) as u64);
    assert(image =~= (prefix + ms + hb + header) + data + (tb + me));
    assert((prefix + ms + hb + header).len() == data_start);
    assert(image.subrange(data_start + h.start_at, data_start + h.start_at + h.file_size)
        =~= data.subrange(h.start_at as int, h.start_at + h.file_size));
}

} // verus!

verus! {

/// What is packed is what is read back, up to the header's serialization:
/// in a file system whose tree is a packed tree (plain, unique names, no
/// file and subdirectory of one name) laid out from `contents`, and whose
/// data starts where it starts in an archive after `prefix`, the path of the
/// `i`-th packed file names a file whose bytes in that image are exactly
/// the `i`-th contents. A builder over a sound walk (see
/// [`crate::scan::walk_sound`]) holds such a tree once filled.
pub proof fn lemma_pack_round_trip(
    fs: crate::fs::FRFS,
    contents: Seq<Vec<u8>>,
    prefix: Seq<u8>,
    ms: Seq<u8>,
    header: Seq<u8>,
    me: Seq<u8>,
    i: int,
)
    requires
        fs.root().wf(),
        fs.root().names_disjoint(),
        fs.root().names_plain(),
        fs.root().pack_headers() == laid_out(content_lens(contents), 0),
        sum(content_lens(contents)) <= u64::MAX,
        ms.len() == crate::format::MAGIC_LEN,
        me.len() == crate::format::MAGIC_LEN,
        fs.start() == prefix.len() + crate::format::MAGIC_LEN + crate::format::U64_LEN
            + header.len(),
        0 <= i < contents.len(),
    ensures
        ({
            let image = prefix + archive_bytes(ms, header, concat(content_views(contents)), me);
            match fs.file_at(fs.root().pack_paths(Seq::empty())[i]) {
                Some(h) => image.subrange(
                    fs.start() + h.start_at,
                    fs.start() + h.start_at + h.file_size,
                ) == contents[i]@,
                None => false,
            }
        }),
{
    lemma_content_lens(contents);
    crate::pack::lemma_packed_file_found(fs, i);
    lemma_packed_file_bytes(
        prefix,
        ms,
        header,
        content_views(contents),
        content_lens(contents),
        me,
        i,
    );
}

} // verus!
