//! A file opened inside an archive: a window of the archive file (where the
//! file starts and how long it is) and a cursor within that window.
use crate::error::Error;
use crate::meta::{FileType, Metadata};
use crate::tree::FileHeader;
use vstd::prelude::*;

verus! {

/// Where a seek goes: from the start, from the end, or from the cursor.
#[derive(Clone, Copy, Debug, PartialEq, Eq, Structural)]
pub enum SeekFrom {
    Start(u64),
    End(i64),
    Current(i64),
}

/// A file of an archive: its header (size and absolute start within the
/// archive's file) and the cursor, counted from the file's first byte.
/// The cursor is never larger than the file size once a seek has placed it.
#[derive(Debug)]
pub struct File {
    header: FileHeader,
    offset: u64,
}

/// What a [`File`] holds.
pub struct FileView {
    pub header: FileHeader,
    pub offset: u64,
}

impl View for File {
    type V = FileView;

    closed spec fn view(&self) -> FileView {
        FileView { header: self.header, offset: self.offset }
    }
}

/// `a + o` modulo 2^64.
pub open spec fn wrapping_add_signed_spec(a: u64, o: i64) -> u64 {
    let s = a + o;
    if s < 0 {
        (s + 0x1_0000_0000_0000_0000) as u64
    } else if s > u64::MAX {
        (s - 0x1_0000_0000_0000_0000) as u64
    } else {
        s as u64
    }
}

pub open spec fn min_u64(a: u64, b: u64) -> u64 {
    if a <= b {
        a
    } else {
        b
    }
}

/// The cursor after seeking to `pos` in a file of `file_size` bytes whose
/// cursor was at `offset`, or `None` where the seek is refused: seeks from
/// the start or the cursor stop at the end of the file (a move from the
/// cursor is taken modulo 2^64 first); a seek from the end with a
/// non-negative offset goes to the end, one with a negative offset goes back
/// by it, and one that would go back past the start is refused, as in
/// `std::io::Seek`.
pub open spec fn seek_target(file_size: u64, offset: u64, pos: SeekFrom) -> Option<u64> {
    match pos {
        SeekFrom::Current(o) => Some(min_u64(wrapping_add_signed_spec(offset, o), file_size)),
        SeekFrom::Start(o) => Some(min_u64(o, file_size)),
        SeekFrom::End(o) => if o >= 0 {
            Some(file_size)
        } else if file_size + o >= 0 {
            Some((file_size + o) as u64)
        } else {
            None
        },
    }
}

/// How many bytes a read into a buffer of `buf_len` bytes takes: no more
/// than remain before the end of the file.
pub open spec fn read_len(file_size: u64, offset: u64, buf_len: usize) -> usize {
    let remain = (file_size - offset) as usize;
    if buf_len > remain {
        remain
    } else {
        buf_len
    }
}

/// `a + o` modulo 2^64.
pub fn wrapping_add_signed(a: u64, o: i64) -> (r: u64)
    ensures
        r == wrapping_add_signed_spec(a, o),
{
    if o >= 0 {
        let p = o as u64;
        if a <= u64::MAX - p {
            a + p
        } else {
            p - (u64::MAX - a) - 1
        }
    } else {
        let m: u64 = if o == i64::MIN {
            0x8000_0000_0000_0000
        } else {
            (-o) as u64
        };
        if a >= m {
            a - m
        } else {
            u64::MAX - (m - a) + 1
        }
    }
}

/// `std::io::Error::new`, called with the kind `InvalidInput` and a message:
/// the error of a seek before the start, as `std::io::Seek` gives it.
/// Nothing is claimed of the value.
#[verifier::external_body]
fn negative_seek_error() -> (r: std::io::Error) {
    std::io::Error::new(std::io::ErrorKind::InvalidInput, "invalid seek to a negative position")
}

/// How far a negative offset goes back: `-o`, as a `u64`.
fn back_by(o: i64) -> (r: u64)
    requires
        o < 0,
    ensures
        r == -o,
{
    if o == i64::MIN {
        0x8000_0000_0000_0000
    } else {
        (-o) as u64
    }
}

impl File {
    /// A whole file of `file_size` bytes (starting at the first byte of the
    /// underlying file) with its cursor at `offset`.
    pub fn from_parts(file_size: u64, offset: u64) -> (r: File)
        ensures
            r@.header == (FileHeader { file_size, start_at: 0 }),
            r@.offset == offset,
    {
        File { header: FileHeader { file_size, start_at: 0 }, offset }
    }

    /// A file with the given header and its cursor at its first byte.
    pub fn with_header(header: FileHeader) -> (r: File)
        ensures
            r@.header == header,
            r@.offset == 0,
    {
        File { header, offset: 0 }
    }

    pub fn header(&self) -> (r: FileHeader)
        ensures
            r == self@.header,
    {
        self.header
    }

    pub fn offset(&self) -> (r: u64)
        ensures
            r == self@.offset,
    {
        self.offset
    }

    /// A file's metadata: its size, and the type "file".
    pub fn metadata(&self) -> (r: Result<Metadata, Error>)
        ensures
            r matches Ok(m) && m == Metadata(self@.header.file_size, FileType(true)),
    {
        Ok(Metadata(self.header.file_size, FileType(true)))
    }

    /// Moves the cursor; see [`seek_target`]. Returns the new cursor; a
    /// refused seek leaves the cursor where it was and gives an I/O error.
    pub fn seek(&mut self, pos: SeekFrom) -> (r: Result<u64, Error>)
        ensures
            final(self)@.header == old(self)@.header,
            match seek_target(old(self)@.header.file_size, old(self)@.offset, pos) {
                Some(t) => final(self)@.offset == t && (r matches Ok(o) && o == t),
                None => final(self)@.offset == old(self)@.offset && (r matches Err(e) && e is IO),
            },
            old(self)@.offset <= old(self)@.header.file_size ==> final(self)@.offset
                <= final(self)@.header.file_size,
    {
        match pos {
            SeekFrom::Current(offset) => {
                let moved = wrapping_add_signed(self.offset, offset);
                self.offset = if moved <= self.header.file_size {
                    moved
                } else {
                    self.header.file_size
                };
            },
            SeekFrom::Start(offset) => {
                self.offset = if offset <= self.header.file_size {
                    offset
                } else {
                    self.header.file_size
                };
            },
            SeekFrom::End(offset) => {
                if offset >= 0 {
                    self.offset = self.header.file_size;
                } else {
                    let back = back_by(offset);
                    if back <= self.header.file_size {
                        self.offset = self.header.file_size - back;
                    } else {
                        return Err(Error::IO(negative_seek_error()));
                    }
                }
            },
        }
        Ok(self.offset)
    }

    /// Whether [`File::read_request`] can be made: the cursor is within the
    /// file and its absolute position fits in a `u64`.
    pub fn can_read(&self) -> (r: bool)
        ensures
            r == (self@.offset <= self@.header.file_size && self@.offset + self@.header.start_at
                <= u64::MAX),
    {
        self.offset <= self.header.file_size && self.offset <= u64::MAX - self.header.start_at
    }

    /// Where a read into a buffer of `buf_len` bytes takes its bytes from:
    /// the absolute position in the underlying file, and how many bytes
    /// (see [`read_len`]).
    pub fn read_request(&self, buf_len: usize) -> (r: (u64, usize))
        requires
            self@.offset <= self@.header.file_size,
            self@.offset + self@.header.start_at <= u64::MAX,
        ensures
            r.0 == self@.offset + self@.header.start_at,
            r.1 == read_len(self@.header.file_size, self@.offset, buf_len),
            r.1 <= buf_len,
            r.1 <= self@.header.file_size - self@.offset,
    {
        let remain_size = (self.header.file_size - self.offset) as usize;
        let len = if buf_len > remain_size {
            remain_size
        } else {
            buf_len
        };
        (self.offset + self.header.start_at, len)
    }

    /// Moves the cursor past `n` bytes that a read has taken. Returns `n`.
    pub fn advance(&mut self, n: usize) -> (r: usize)
        requires
            old(self)@.offset + n <= u64::MAX,
        ensures
            r == n,
            final(self)@.header == old(self)@.header,
            final(self)@.offset == old(self)@.offset + n,
            n <= old(self)@.header.file_size - old(self)@.offset ==> final(self)@.offset
                <= final(self)@.header.file_size,
    {
        self.offset = self.offset + n as u64;
        n
    }
}

} // verus!

verus! {

/// Every seek that is not refused leaves the cursor within the file, so a
/// read may follow it; only a seek back past the start is refused.
pub proof fn lemma_seek_stays_in_file(file_size: u64, offset: u64, pos: SeekFrom)
    ensures
        match seek_target(file_size, offset, pos) {
            Some(t) => t <= file_size,
            None => pos matches SeekFrom::End(o) && file_size + o < 0,
        },
{
}

/// A read from a cursor within the file takes no byte past its end, and
/// leaves the cursor within the file.
pub proof fn lemma_read_stays_in_file(file_size: u64, offset: u64, buf_len: usize)
    requires
        offset <= file_size,
    ensures
        offset + read_len(file_size, offset, buf_len) <= file_size,
{
}

/// The cursor after reads into buffers of the lengths `bufs`, one after the
/// other, from `offset` in a file of `file_size` bytes.
pub open spec fn offset_after_reads(file_size: u64, offset: u64, bufs: Seq<usize>) -> int
    decreases bufs.len(),
{
    if bufs.len() == 0 {
        offset as int
    } else {
        let o = offset_after_reads(file_size, offset, bufs.drop_last());
        o + read_len(file_size, o as u64, bufs.last())
    }
}

/// Reading to the end takes the rest of the file, and nothing more: reads
/// into nonempty buffers, one after the other from a cursor within the file,
/// take consecutive bytes within it, and a read that takes nothing comes
/// exactly at the end, so the reads before it took every byte from the
/// cursor to the end. (This holds where the rest of the file fits in a
/// `usize`, as it always does where `usize` has 64 bits.)
pub proof fn lemma_reading_to_the_end(file_size: u64, offset: u64, bufs: Seq<usize>)
    requires
        offset <= file_size,
        file_size - offset <= usize::MAX,
        forall|i: int| 0 <= i < bufs.len() ==> #[trigger] bufs[i] > 0,
    ensures
        offset <= offset_after_reads(file_size, offset, bufs) <= file_size,
        bufs.len() > 0 && read_len(
            file_size,
            offset_after_reads(file_size, offset, bufs.drop_last()) as u64,
            bufs.last(),
        ) == 0 ==> offset_after_reads(file_size, offset, bufs.drop_last()) == file_size,
    decreases bufs.len(),
{
    if bufs.len() > 0 {
        let front = bufs.drop_last();
        assert forall|i: int| 0 <= i < front.len() implies #[trigger] front[i] > 0 by {
            assert(front[i] == bufs[i]);
        }
        lemma_reading_to_the_end(file_size, offset, front);
        assert(bufs.last() == bufs[bufs.len() - 1]);
    }
}

/// A seek to a place within the file lands exactly there: a move by `d`
/// from the cursor to `offset + d`, a seek to `o` from the start to `o`, and
/// a seek back by `k` from the end to `file_size - k`.
pub proof fn lemma_seek_within_file_lands_there(file_size: u64, offset: u64, d: i64, o: u64, k: i64)
    ensures
        0 <= offset + d <= file_size ==> seek_target(file_size, offset, SeekFrom::Current(d))
            == Some((offset + d) as u64),
        o <= file_size ==> seek_target(file_size, offset, SeekFrom::Start(o)) == Some(o),
        0 <= k <= file_size ==> seek_target(file_size, offset, SeekFrom::End(-k as i64)) == Some(
            (file_size - k) as u64,
        ),
{
}

} // verus!
