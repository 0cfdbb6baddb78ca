//! The layout of an archive file and the steps that locate its header.
//!
//! An archive is, in order: the start magic number (7 bytes), the header's
//! length (8 bytes, big endian), the header, the data of all files, the
//! archive's total length (8 bytes, big endian) and the end magic number
//! (7 bytes). The archive may sit at the end of a larger file: loading reads
//! it backwards from the end.
use crate::error::Error;
use crate::file::{seek_target, SeekFrom};
use vstd::prelude::*;
use vstd::string::StringSliceAdditionalSpecFns;

verus! {

/// The magic numbers at the start and at the end of an archive, which check
/// the file's integrity.
pub type MagicNumber = [u8; 7];

/// `FRFSv02`
pub const MAGIC_NUMBER_START: MagicNumber = [70, 82, 70, 83, 118, 48, 50];

/// `FRFSEnd`
pub const MAGIC_NUMBER_END: MagicNumber = [70, 82, 70, 83, 69, 110, 100];

/// The number of bytes of an encoded `u64`.
pub const U64_LEN: usize = 8;

/// The number of bytes of a magic number.
pub const MAGIC_LEN: usize = 7;

/// The big-endian encoding of `x`.
pub open spec fn be_bytes(x: u64) -> Seq<u8> {
    seq![
        (x >> 56u64) as u8,
        (x >> 48u64) as u8,
        (x >> 40u64) as u8,
        (x >> 32u64) as u8,
        (x >> 24u64) as u8,
        (x >> 16u64) as u8,
        (x >> 8u64) as u8,
        x as u8,
    ]
}

/// The value of 8 big-endian bytes.
pub open spec fn be_value(s: Seq<u8>) -> u64 {
    ((s[0] as u64) << 56u64) | ((s[1] as u64) << 48u64) | ((s[2] as u64) << 40u64) | ((
    s[3] as u64) << 32u64) | ((s[4] as u64) << 24u64) | ((s[5] as u64) << 16u64) | ((
    s[6] as u64) << 8u64) | (s[7] as u64)
}

pub proof fn lemma_be_value_of_bytes(x: u64)
    ensures
        be_value(be_bytes(x)) == x,
{
    let s = be_bytes(x);
    let b0 = s[0];
    let b1 = s[1];
    let b2 = s[2];
    let b3 = s[3];
    let b4 = s[4];
    let b5 = s[5];
    let b6 = s[6];
    let b7 = s[7];
    assert(((((x >> 56u64) as u8) as u64) << 56u64) | ((((x >> 48u64) as u8) as u64) << 48u64)
        | ((((x >> 40u64) as u8) as u64) << 40u64) | ((((x >> 32u64) as u8) as u64) << 32u64)
        | ((((x >> 24u64) as u8) as u64) << 24u64) | ((((x >> 16u64) as u8) as u64) << 16u64)
        | ((((x >> 8u64) as u8) as u64) << 8u64) | ((x as u8) as u64) == x) by (bit_vector);
}

/// The total length of an archive with a header and data of these lengths.
pub open spec fn archive_len(header_len: nat, data_len: nat) -> nat {
    header_len + data_len + 30
}

/// The bytes of an archive.
pub open spec fn archive_bytes(ms: Seq<u8>, header: Seq<u8>, data: Seq<u8>, me: Seq<u8>) -> Seq<
    u8,
> {
    ms + be_bytes(header.len() as u64) + header + data + be_bytes(
        archive_len(header.len(), data.len()) as u64,
    ) + me
}

/// Appends `src` to `target`.
fn append_bytes(target: &mut Vec<u8>, src: &[u8])
    ensures
        final(target)@ == old(target)@ + src@,
{
    let mut i: usize = 0;
    while i < src.len()
        invariant
            i <= src@.len(),
            target@ == old(target)@ + src@.take(i as int),
        decreases src.len() - i,
    {
        target.push(src[i]);
        i = i + 1;
        proof {
            assert(src@.take(i as int) =~= src@.take(i - 1).push(src@[i - 1]));
        }
    }
    proof {
        assert(src@.take(src@.len() as int) =~= src@);
    }
}

/// The big-endian bytes of `x`.
pub fn u64_to_be_bytes(x: u64) -> (r: Vec<u8>)
    ensures
        r@ == be_bytes(x),
{
    let mut v: Vec<u8> = Vec::new();
    v.push((x >> 56u64) as u8);
    v.push((x >> 48u64) as u8);
    v.push((x >> 40u64) as u8);
    v.push((x >> 32u64) as u8);
    v.push((x >> 24u64) as u8);
    v.push((x >> 16u64) as u8);
    v.push((x >> 8u64) as u8);
    v.push(x as u8);
    proof {
        assert(v@ =~= be_bytes(x));
    }
    v
}

/// The value of 8 big-endian bytes.
pub fn u64_from_be_bytes(b: &[u8]) -> (r: u64)
    requires
        b@.len() == U64_LEN,
    ensures
        r == be_value(b@),
{
    ((b[0] as u64) << 56u64) | ((b[1] as u64) << 48u64) | ((b[2] as u64) << 40u64) | ((
    b[3] as u64) << 32u64) | ((b[4] as u64) << 24u64) | ((b[5] as u64) << 16u64) | ((
    b[6] as u64) << 8u64) | (b[7] as u64)
}

/// Whether `bytes` are the magic number `magic`.
pub fn is_magic(bytes: &[u8], magic: &MagicNumber) -> (r: bool)
    ensures
        r == (bytes@ == magic@),
{
    if bytes.len() != MAGIC_LEN {
        return false;
    }
    let mut i: usize = 0;
    while i < MAGIC_LEN
        invariant
            i <= MAGIC_LEN,
            bytes@.len() == MAGIC_LEN,
            magic@.len() == MAGIC_LEN,
            forall|j: int| 0 <= j < i ==> bytes@[j] == magic@[j],
        decreases MAGIC_LEN - i,
    {
        if bytes[i] != magic[i] {
            return false;
        }
        i = i + 1;
    }
    proof {
        assert(bytes@ =~= magic@);
    }
    true
}

/// Which magic numbers to use, given the ones asked for.
#[derive(Clone, Copy, Debug)]
pub enum MagicChoice {
    /// The default ones; `warn` when only one of the two was given.
    Default { warn: bool },
    /// Both were given.
    Custom { start: MagicNumber, end: MagicNumber },
}

/// Custom magic numbers are used only when both are given; when only one
/// is, it is ignored, with a warning.
pub fn choose_magic_numbers(start: Option<MagicNumber>, end: Option<MagicNumber>) -> (r: MagicChoice)
    ensures
        r == (match (start, end) {
            (Some(s), Some(e)) => MagicChoice::Custom { start: s, end: e },
            _ => MagicChoice::Default { warn: start is Some || end is Some },
        }),
{
    match (start, end) {
        (Some(s), Some(e)) => MagicChoice::Custom { start: s, end: e },
        _ => MagicChoice::Default { warn: start.is_some() || end.is_some() },
    }
}

/// The message of a magic number of the wrong length.
pub open spec fn magic_length_message() -> Seq<char> {
    "magic number should be a [u8; 7]"@
}

/// A magic number given as text: its UTF-8 bytes, which must be exactly 7.
pub fn parse_magic_number(value: &str) -> (r: Result<MagicNumber, String>)
    ensures
        match r {
            Ok(m) => value.spec_bytes().len() == MAGIC_LEN && m@ == value.spec_bytes(),
            Err(msg) => value.spec_bytes().len() != MAGIC_LEN && msg@ == magic_length_message(),
        },
{
    let b = value.as_bytes();
    if b.len() == MAGIC_LEN {
        let m: MagicNumber = [b[0], b[1], b[2], b[3], b[4], b[5], b[6]];
        proof {
            assert(m@ =~= b@);
        }
        Ok(m)
    } else {
        proof {
            reveal_strlit("magic number should be a [u8; 7]");
        }
        Err(String::from_str("magic number should be a [u8; 7]"))
    }
}

/// The length of an archive with a header and data of these lengths, or
/// `None` where it does not fit in a `usize`.
pub fn framed_len(header_len: usize, data_len: usize) -> (r: Option<usize>)
    ensures
        match r {
            Some(n) => n == archive_len(header_len as nat, data_len as nat),
            None => archive_len(header_len as nat, data_len as nat) > usize::MAX,
        },
{
    if header_len > usize::MAX - data_len {
        return None;
    }
    let n = header_len + data_len;
    if n > usize::MAX - 30 {
        return None;
    }
    Some(n + 30)
}

/// Frames a serialized header and the data of all files as an archive:
/// start magic number, header length, header, data, total length, end magic
/// number.
pub fn frame_archive(
    magic_number_start: &MagicNumber,
    header: &[u8],
    data: &[u8],
    magic_number_end: &MagicNumber,
) -> (r: Vec<u8>)
    requires
        archive_len(header@.len(), data@.len()) <= usize::MAX,
    ensures
        r@ == archive_bytes(magic_number_start@, header@, data@, magic_number_end@),
{
    let mut target: Vec<u8> = Vec::new();
    append_bytes(&mut target, magic_number_start.as_slice());
    let header_len = u64_to_be_bytes(header.len() as u64);
    append_bytes(&mut target, header_len.as_slice());
    append_bytes(&mut target, header);
    append_bytes(&mut target, data);
    let target_length = target.len();
    let target_length = target_length + U64_LEN;
    let target_length = target_length + MAGIC_LEN;
    let total = u64_to_be_bytes(target_length as u64);
    append_bytes(&mut target, total.as_slice());
    append_bytes(&mut target, magic_number_end.as_slice());
    target
}

/// Where loading an archive stands.
#[derive(Clone, Copy, Debug, PartialEq, Eq, Structural)]
pub enum LoadStage {
    /// Waiting for the last 7 bytes: the end magic number.
    EndMagic,
    /// Waiting for the 8 bytes before them: the archive's total length.
    DataLength,
    /// Waiting for the archive's first 7 bytes: the start magic number.
    StartMagic,
    /// Waiting for the 8 bytes after them: the header's length.
    HeaderLength,
    /// Waiting for the header.
    Header,
    /// Finished, or failed.
    Done,
}

/// What the loader asks of the file that holds the archive.
#[derive(Debug)]
pub enum LoadAction {
    /// Seek to `pos`, then read exactly `len` bytes and hand them back.
    SeekAndRead { pos: SeekFrom, len: usize },
    /// Read exactly `len` more bytes and hand them back.
    Read { len: usize },
    /// Hand back the cursor and the bytes of a read to the end of the file,
    /// but of at most `limit` bytes.
    ReadHeader { limit: u64 },
    /// The header's serialized bytes are complete; the data of the files
    /// starts at `data_start`, counted from the start of the file.
    Parse { header: Vec<u8>, data_start: u64 },
    /// Not an archive.
    Fail(Error),
}

/// A [`LoadAction`] as a value.
pub enum Request {
    SeekAndRead { pos: SeekFrom, len: usize },
    Read { len: usize },
    ReadHeader { limit: u64 },
    Parse { header: Seq<u8>, data_start: u64 },
    Fail,
}

impl View for LoadAction {
    type V = Request;

    open spec fn view(&self) -> Request {
        match self {
            LoadAction::SeekAndRead { pos, len } => Request::SeekAndRead { pos: *pos, len: *len },
            LoadAction::Read { len } => Request::Read { len: *len },
            LoadAction::ReadHeader { limit } => Request::ReadHeader { limit: *limit },
            LoadAction::Parse { header, data_start } => Request::Parse {
                header: header@,
                data_start: *data_start,
            },
            LoadAction::Fail(_) => Request::Fail,
        }
    }
}

/// What the file answers to a request.
pub enum Answer {
    /// The bytes that a `SeekAndRead` or `Read` asked for.
    Bytes(Seq<u8>),
    /// The cursor at the start of a `ReadHeader`, and the bytes it read.
    Header { position: u64, bytes: Seq<u8> },
}

/// The offset of a seek from the end that goes back `total` bytes: the
/// negation of `total` taken as an `i64`, as the two's complement reading of
/// its bits gives it (a `total` of 2^63 has no such negation).
pub open spec fn back_from_end(total: u64) -> i64 {
    if total <= i64::MAX {
        (-(total as int)) as i64
    } else {
        (0x1_0000_0000_0000_0000 - total) as i64
    }
}

/// The first request of a load from a file of `file_size` bytes: the end
/// magic number, or a failure where the file is too short to end with it
/// and the total length.
pub open spec fn first_request(file_size: u64) -> Request {
    if file_size < MAGIC_LEN + U64_LEN {
        Request::Fail
    } else {
        Request::SeekAndRead { pos: SeekFrom::End(-7i64), len: MAGIC_LEN }
    }
}

/// Whether the loader takes `answer` at `stage` from a file of `file_size`
/// bytes: the bytes asked for, in the number asked for (a total length of
/// 2^63 that fits in the file cannot be sought back from the end: its
/// negation overflows an `i64`).
pub open spec fn accepts(stage: LoadStage, file_size: u64, answer: Answer) -> bool {
    match (stage, answer) {
        (LoadStage::EndMagic, Answer::Bytes(b)) => b.len() == MAGIC_LEN,
        (LoadStage::DataLength, Answer::Bytes(b)) => b.len() == U64_LEN && (be_value(b)
            > file_size || be_value(b) != 0x8000_0000_0000_0000u64),
        (LoadStage::StartMagic, Answer::Bytes(b)) => b.len() == MAGIC_LEN,
        (LoadStage::HeaderLength, Answer::Bytes(b)) => b.len() == U64_LEN,
        (LoadStage::Header, Answer::Header { position, bytes }) => position + bytes.len()
            <= u64::MAX,
        _ => false,
    }
}

/// The loader's next stage and request after `answer` at `stage`, loading
/// from a file of `file_size` bytes: a wrong magic number, or a total length
/// larger than the file, is a failure.
pub open spec fn transition(
    stage: LoadStage,
    ms: Seq<u8>,
    me: Seq<u8>,
    file_size: u64,
    answer: Answer,
) -> (LoadStage, Request) {
    match (stage, answer) {
        (LoadStage::EndMagic, Answer::Bytes(b)) => if b == me {
            (
                LoadStage::DataLength,
                Request::SeekAndRead {
                    pos: SeekFrom::End(-15i64),
                    len: U64_LEN,
                },
            )
        } else {
            (LoadStage::Done, Request::Fail)
        },
        (LoadStage::DataLength, Answer::Bytes(b)) => if be_value(b) > file_size {
            (LoadStage::Done, Request::Fail)
        } else {
            (
                LoadStage::StartMagic,
                Request::SeekAndRead { pos: SeekFrom::End(back_from_end(be_value(b))), len: MAGIC_LEN },
            )
        },
        (LoadStage::StartMagic, Answer::Bytes(b)) => if b == ms {
            (LoadStage::HeaderLength, Request::Read { len: U64_LEN })
        } else {
            (LoadStage::Done, Request::Fail)
        },
        (LoadStage::HeaderLength, Answer::Bytes(b)) => (
            LoadStage::Header,
            Request::ReadHeader { limit: be_value(b) },
        ),
        (LoadStage::Header, Answer::Header { position, bytes }) => (
            LoadStage::Done,
            Request::Parse { header: bytes, data_start: (position + bytes.len()) as u64 },
        ),
        _ => (LoadStage::Done, Request::Fail),
    }
}

/// Locates the parts of an archive, step by step: each answer of the file
/// holding it (of `file_size` bytes) leads to the next request.
#[derive(Debug)]
pub struct Loader {
    pub magic_number_start: MagicNumber,
    pub magic_number_end: MagicNumber,
    pub file_size: u64,
    pub stage: LoadStage,
}

/// The offset of a seek from the end that goes back `total` bytes; see
/// [`back_from_end`].
fn back_from_end_exec(total: u64) -> (r: i64)
    requires
        total != 0x8000_0000_0000_0000u64,
    ensures
        r == back_from_end(total),
{
    if total <= i64::MAX as u64 {
        -(total as i64)
    } else {
        let back = u64::MAX - total + 1;
        back as i64
    }
}

impl Loader {
    /// A loader expecting these magic numbers in a file of `file_size`
    /// bytes, and its first request.
    pub fn new(magic_number_start: MagicNumber, magic_number_end: MagicNumber, file_size: u64) -> (r: (
        Loader,
        LoadAction,
    ))
        ensures
            r.0.magic_number_start == magic_number_start,
            r.0.magic_number_end == magic_number_end,
            r.0.file_size == file_size,
            r.0.stage == (if r.1@ is Fail {
                LoadStage::Done
            } else {
                LoadStage::EndMagic
            }),
            r.1@ == first_request(file_size),
            r.1 matches LoadAction::Fail(e) ==> e is IllegalData,
    {
        if file_size < 15 {
            (
                Loader { magic_number_start, magic_number_end, file_size, stage: LoadStage::Done },
                LoadAction::Fail(Error::IllegalData),
            )
        } else {
            (
                Loader { magic_number_start, magic_number_end, file_size, stage: LoadStage::EndMagic },
                LoadAction::SeekAndRead { pos: SeekFrom::End(-7i64), len: MAGIC_LEN },
            )
        }
    }

    /// Whether [`Loader::on_bytes`] takes `bytes` now.
    pub fn takes(&self, bytes: &[u8]) -> (r: bool)
        ensures
            r == accepts(self.stage, self.file_size, Answer::Bytes(bytes@)),
    {
        match self.stage {
            LoadStage::EndMagic => bytes.len() == MAGIC_LEN,
            LoadStage::DataLength => bytes.len() == U64_LEN && (u64_from_be_bytes(bytes)
                > self.file_size || u64_from_be_bytes(bytes) != 0x8000_0000_0000_0000u64),
            LoadStage::StartMagic => bytes.len() == MAGIC_LEN,
            LoadStage::HeaderLength => bytes.len() == U64_LEN,
            _ => false,
        }
    }

    /// Takes the bytes that a `SeekAndRead` or `Read` request asked for.
    pub fn on_bytes(&mut self, bytes: Vec<u8>) -> (r: LoadAction)
        requires
            accepts(old(self).stage, old(self).file_size, Answer::Bytes(bytes@)),
        ensures
            final(self).magic_number_start == old(self).magic_number_start,
            final(self).magic_number_end == old(self).magic_number_end,
            final(self).file_size == old(self).file_size,
            (final(self).stage, r@) == transition(
                old(self).stage,
                old(self).magic_number_start@,
                old(self).magic_number_end@,
                old(self).file_size,
                Answer::Bytes(bytes@),
            ),
            r matches LoadAction::Fail(e) ==> e is IllegalData,
    {
        match self.stage {
            LoadStage::EndMagic => {
                if is_magic(bytes.as_slice(), &self.magic_number_end) {
                    self.stage = LoadStage::DataLength;
                    LoadAction::SeekAndRead {
                        pos: SeekFrom::End(-15i64),
                        len: U64_LEN,
                    }
                } else {
                    self.stage = LoadStage::Done;
                    LoadAction::Fail(Error::IllegalData)
                }
            },
            LoadStage::DataLength => {
                let total = u64_from_be_bytes(bytes.as_slice());
                if total > self.file_size {
                    self.stage = LoadStage::Done;
                    LoadAction::Fail(Error::IllegalData)
                } else {
                    self.stage = LoadStage::StartMagic;
                    LoadAction::SeekAndRead {
                        pos: SeekFrom::End(back_from_end_exec(total)),
                        len: MAGIC_LEN,
                    }
                }
            },
            LoadStage::StartMagic => {
                if is_magic(bytes.as_slice(), &self.magic_number_start) {
                    self.stage = LoadStage::HeaderLength;
                    LoadAction::Read { len: U64_LEN }
                } else {
                    self.stage = LoadStage::Done;
                    LoadAction::Fail(Error::IllegalData)
                }
            },
            _ => {
                let limit = u64_from_be_bytes(bytes.as_slice());
                self.stage = LoadStage::Header;
                LoadAction::ReadHeader { limit }
            },
        }
    }

    /// Takes the answer to a `ReadHeader` request: the cursor where the read
    /// started and the bytes it read.
    pub fn on_header(&mut self, position: u64, bytes: Vec<u8>) -> (r: LoadAction)
        requires
            accepts(old(self).stage, old(self).file_size, Answer::Header { position, bytes: bytes@ }),
        ensures
            final(self).magic_number_start == old(self).magic_number_start,
            final(self).magic_number_end == old(self).magic_number_end,
            final(self).file_size == old(self).file_size,
            (final(self).stage, r@) == transition(
                old(self).stage,
                old(self).magic_number_start@,
                old(self).magic_number_end@,
                old(self).file_size,
                Answer::Header { position, bytes: bytes@ },
            ),
    {
        self.stage = LoadStage::Done;
        let data_start = position + bytes.len() as u64;
        LoadAction::Parse { header: bytes, data_start }
    }
}

/// How a file whose bytes are `image`, with its cursor at `cursor`, answers
/// `request`, with the cursor after the answer: a seek goes where
/// [`seek_target`] says, a read takes the bytes at the cursor, and a header
/// read takes at most `limit` bytes up to the end. `None` where the seek is
/// refused or the read runs past the end of the file (a read of an exact
/// number of bytes then fails).
pub open spec fn answer(image: Seq<u8>, cursor: u64, request: Request) -> Option<(u64, Answer)> {
    match request {
        Request::SeekAndRead { pos, len } => match seek_target(image.len() as u64, cursor, pos) {
            Some(c) => if c + len <= image.len() {
                Some(((c + len) as u64, Answer::Bytes(image.subrange(c as int, c + len))))
            } else {
                None
            },
            None => None,
        },
        Request::Read { len } => if cursor + len <= image.len() {
            Some(
                ((cursor + len) as u64, Answer::Bytes(image.subrange(cursor as int, cursor + len))),
            )
        } else {
            None
        },
        Request::ReadHeader { limit } => {
            let n = if cursor >= image.len() {
                0
            } else if limit <= image.len() - cursor {
                limit as int
            } else {
                image.len() - cursor
            };
            Some(
                (
                    (cursor + n) as u64,
                    Answer::Header {
                        position: cursor,
                        bytes: image.subrange(cursor as int, cursor + n),
                    },
                ),
            )
        },
        _ => None,
    }
}

/// The loader's stage, the cursor and the next request after answering
/// `request` from `image` at `stage`; `None` where the file fails to answer.
pub open spec fn exchange(
    stage: LoadStage,
    ms: Seq<u8>,
    me: Seq<u8>,
    image: Seq<u8>,
    cursor: u64,
    request: Request,
) -> Option<(LoadStage, u64, Request)> {
    match answer(image, cursor, request) {
        Some((c, a)) => {
            let (s, r) = transition(stage, ms, me, image.len() as u64, a);
            Some((s, c, r))
        },
        None => None,
    }
}

/// The request that the loader ends with after at most `steps` exchanges
/// with a file whose bytes are `image`; `None` where the file fails to
/// answer one of them.
pub open spec fn run(
    stage: LoadStage,
    ms: Seq<u8>,
    me: Seq<u8>,
    image: Seq<u8>,
    cursor: u64,
    request: Request,
    steps: nat,
) -> Option<Request>
    decreases steps,
{
    if steps == 0 || request is Parse || request is Fail {
        Some(request)
    } else {
        match exchange(stage, ms, me, image, cursor, request) {
            Some((s, c, r)) => run(s, ms, me, image, c, r, (steps - 1) as nat),
            None => None,
        }
    }
}

/// The request that loading ends with, when every request is answered from
/// a file whose bytes are `image` and whose cursor starts at `cursor`
/// (the five exchanges of a load); `None` where the file fails to answer.
pub open spec fn load_outcome(ms: Seq<u8>, me: Seq<u8>, image: Seq<u8>, cursor: u64) -> Option<
    Request,
> {
    run(LoadStage::EndMagic, ms, me, image, cursor, first_request(image.len() as u64), 5)
}

/// Loading gives back what framing wrote: for a file that ends with an
/// archive (after any `prefix`), the loader's requests, answered from the
/// file, end in a request to parse exactly the header that was framed,
/// with the data starting right after it. (An archive of 2^63 bytes or more
/// cannot be located: the seek back from the end takes an `i64`.)
#[verifier::spinoff_prover]
#[verifier::rlimit(50)]
pub proof fn lemma_load_framed_archive(
    prefix: Seq<u8>,
    ms: Seq<u8>,
    header: Seq<u8>,
    data: Seq<u8>,
    me: Seq<u8>,
    cursor: u64,
)
    requires
        ms.len() == MAGIC_LEN,
        me.len() == MAGIC_LEN,
        archive_len(header.len(), data.len()) <= i64::MAX,
        prefix.len() + archive_len(header.len(), data.len()) <= u64::MAX,
    ensures
        load_outcome(ms, me, prefix + archive_bytes(ms, header, data, me), cursor)
            == Some(Request::Parse {
            header,
            data_start: (prefix.len() + MAGIC_LEN + U64_LEN + header.len()) as u64,
        }),
{
    let archive = archive_bytes(ms, header, data, me);
    let image = prefix + archive;
    let total = archive_len(header.len(), data.len());
    let l = image.len() as int;
    let p = prefix.len() as int;
    let hl = header.len() as int;
    assert(archive.len() == total);
    let hb = be_bytes(hl as u64);
    let tb = be_bytes(total as u64);
    // The end magic number.
    assert(image.subrange(l - 7, l) =~= me);
    // The total length.
    assert(image.subrange(l - 15, l - 7) =~= tb);
    lemma_be_value_of_bytes(total as u64);
    // The start magic number.
    assert(image.subrange(p, p + 7) =~= ms);
    // The header's length.
    assert(image.subrange(p + 7, p + 15) =~= hb);
    lemma_be_value_of_bytes(hl as u64);
    // The header.
    assert(image.subrange(p + 15, p + 15 + hl) =~= header);
    let r0 = first_request(l as u64);
    assert(r0 == Request::SeekAndRead { pos: SeekFrom::End(-7i64), len: MAGIC_LEN });
    let (s1, c1, r1) = exchange(LoadStage::EndMagic, ms, me, image, cursor, r0).unwrap();
    assert(c1 == l);
    assert(s1 == LoadStage::DataLength);
    let (s2, c2, r2) = exchange(s1, ms, me, image, c1, r1).unwrap();
    assert(r2 == Request::SeekAndRead { pos: SeekFrom::End(back_from_end(total as u64)), len: MAGIC_LEN });
    let (s3, c3, r3) = exchange(s2, ms, me, image, c2, r2).unwrap();
    assert(c3 == p + 7);
    let (s4, c4, r4) = exchange(s3, ms, me, image, c3, r3).unwrap();
    assert(c4 == p + 15);
    assert(r4 == Request::ReadHeader { limit: hl as u64 });
    let (s5, c5, r5) = exchange(s4, ms, me, image, c4, r4).unwrap();
    assert(run(s5, ms, me, image, c5, r5, 0) == Some(r5));
    assert(run(s4, ms, me, image, c4, r4, 1) == Some(r5));
    assert(run(s3, ms, me, image, c3, r3, 2) == Some(r5));
    assert(run(s2, ms, me, image, c2, r2, 3) == Some(r5));
    assert(run(s1, ms, me, image, c1, r1, 4) == Some(r5));
}

/// Loading with other magic numbers than framing used fails: for a file
/// that ends with an archive framed with `ms` and `me` (after any
/// `prefix`), a loader expecting `ms2` and `me2`, where the pair differs,
/// ends in a failure.
#[verifier::spinoff_prover]
#[verifier::rlimit(50)]
pub proof fn lemma_load_other_magic_fails(
    prefix: Seq<u8>,
    ms: Seq<u8>,
    header: Seq<u8>,
    data: Seq<u8>,
    me: Seq<u8>,
    ms2: Seq<u8>,
    me2: Seq<u8>,
    cursor: u64,
)
    requires
        ms.len() == MAGIC_LEN,
        me.len() == MAGIC_LEN,
        ms2.len() == MAGIC_LEN,
        me2.len() == MAGIC_LEN,
        ms != ms2 || me != me2,
        archive_len(header.len(), data.len()) <= i64::MAX,
        prefix.len() + archive_len(header.len(), data.len()) <= u64::MAX,
    ensures
        load_outcome(ms2, me2, prefix + archive_bytes(ms, header, data, me), cursor)
            == Some(Request::Fail),
{
    let archive = archive_bytes(ms, header, data, me);
    let image = prefix + archive;
    let total = archive_len(header.len(), data.len());
    let l = image.len() as int;
    let p = prefix.len() as int;
    assert(archive.len() == total);
    let tb = be_bytes(total as u64);
    assert(image.subrange(l - 7, l) =~= me);
    let r0 = first_request(l as u64);
    assert(r0 == Request::SeekAndRead { pos: SeekFrom::End(-7i64), len: MAGIC_LEN });
    let (s1, c1, r1) = exchange(LoadStage::EndMagic, ms2, me2, image, cursor, r0).unwrap();
    if me == me2 {
        assert(image.subrange(l - 15, l - 7) =~= tb);
        lemma_be_value_of_bytes(total as u64);
        assert(image.subrange(p, p + 7) =~= ms);
        assert(c1 == l);
        assert(s1 == LoadStage::DataLength);
        let (s2, c2, r2) = exchange(s1, ms2, me2, image, c1, r1).unwrap();
        assert(r2 == Request::SeekAndRead {
            pos: SeekFrom::End(back_from_end(total as u64)),
            len: MAGIC_LEN,
        });
        let (s3, c3, r3) = exchange(s2, ms2, me2, image, c2, r2).unwrap();
        assert(r3 is Fail);
        assert(run(s3, ms2, me2, image, c3, r3, 2) == Some(Request::Fail));
        assert(run(s2, ms2, me2, image, c2, r2, 3) == Some(Request::Fail));
        assert(run(s1, ms2, me2, image, c1, r1, 4) == Some(Request::Fail));
    } else {
        assert(r1 is Fail);
        assert(run(s1, ms2, me2, image, c1, r1, 4) == Some(Request::Fail));
    }
}

/// A file too short to end with a magic number and a total length, or one
/// that ends with the expected magic number after a total length larger
/// than the file, is no archive: loading it fails, whatever its bytes.
pub proof fn lemma_load_rejects_short_or_overlong(
    ms: Seq<u8>,
    me: Seq<u8>,
    image: Seq<u8>,
    cursor: u64,
)
    requires
        me.len() == MAGIC_LEN,
        image.len() <= u64::MAX,
        image.len() < MAGIC_LEN + U64_LEN || (image.subrange(
            image.len() - MAGIC_LEN,
            image.len() as int,
        ) == me && be_value(image.subrange(image.len() - 15, image.len() - 7))
            > image.len()),
    ensures
        load_outcome(ms, me, image, cursor) == Some(Request::Fail),
{
    let l = image.len() as int;
    let r0 = first_request(l as u64);
    if l >= 15 {
        let (s1, c1, r1) = exchange(LoadStage::EndMagic, ms, me, image, cursor, r0).unwrap();
        assert(c1 == l);
        assert(s1 == LoadStage::DataLength);
        let (s2, c2, r2) = exchange(s1, ms, me, image, c1, r1).unwrap();
        assert(r2 is Fail);
        assert(run(s2, ms, me, image, c2, r2, 3) == Some(Request::Fail));
        assert(run(s1, ms, me, image, c1, r1, 4) == Some(Request::Fail));
    }
}

/// A framed archive begins with its start magic number and ends with its
/// end magic number.
pub proof fn lemma_archive_magic_ends(ms: Seq<u8>, header: Seq<u8>, data: Seq<u8>, me: Seq<u8>)
    requires
        ms.len() == MAGIC_LEN,
        me.len() == MAGIC_LEN,
    ensures
        archive_bytes(ms, header, data, me).take(MAGIC_LEN as int) == ms,
        archive_bytes(ms, header, data, me).skip(
            archive_bytes(ms, header, data, me).len() - MAGIC_LEN,
        ) == me,
{
    let a = archive_bytes(ms, header, data, me);
    assert(a.take(7) =~= ms);
    assert(a.skip(a.len() - 7) =~= me);
}

/// The loader takes every answer of the size it asked for: after its first
/// request, or after any answer, a request for `len` bytes is followed by
/// acceptance of any `len` bytes (but a stored total length of 2^63 within
/// the file, which cannot be sought back from the end), and a request for
/// the header by acceptance of whatever a read from a cursor gives.
pub proof fn lemma_loader_takes_what_it_asked(
    stage: LoadStage,
    ms: Seq<u8>,
    me: Seq<u8>,
    file_size: u64,
    a: Answer,
    b: Seq<u8>,
    position: u64,
)
    ensures
        first_request(file_size) matches Request::SeekAndRead { len, .. } ==> (b.len() == len
            ==> accepts(LoadStage::EndMagic, file_size, Answer::Bytes(b))),
        ({
            let (next, r) = transition(stage, ms, me, file_size, a);
            let fits = next == LoadStage::DataLength ==> (be_value(b) != 0x8000_0000_0000_0000u64
                || be_value(b) > file_size);
            &&& r matches Request::SeekAndRead { len, .. } ==> (b.len() == len && fits ==> accepts(
                next,
                file_size,
                Answer::Bytes(b),
            ))
            &&& r matches Request::Read { len } ==> (b.len() == len && fits ==> accepts(
                next,
                file_size,
                Answer::Bytes(b),
            ))
            &&& r is ReadHeader ==> (position + b.len() <= u64::MAX ==> accepts(
                next,
                file_size,
                Answer::Header { position, bytes: b },
            ))
        }),
{
}

} // verus!
