//! The block store: index records, chained data blocks and entry payloads.
use vstd::prelude::*;
use std::collections::HashMap;
use crate::bytes::{be16, be24, be32};
use crate::compression::{decompress, decompressed};

verus! {

/// Size of one block of the data file.
pub const BLOCK_SIZE: u64 = 520;

/// Entry ids above this value use the large block header.
pub const SMALL_ID_MAX: u32 = 0xFFFF;

/// Size of one record of an index file.
pub const INDEX_RECORD_SIZE: u64 = 6;

/// Size of the header at the start of every entry payload.
pub const ENTRY_HEADER_SIZE: usize = 9;

/// What can go wrong while opening the archive or reading an entry.
#[derive(Debug, Clone, Copy, PartialEq, Eq, Structural)]
pub enum FsError {
    FileNotFound,
    InvalidDirectory,
    NoFileHandle,
    MalformedDataSequence,
    CorruptedData,
    UnsupportedCompression,
}

impl FsError {
    /// A short description of the error.
    pub fn description(&self) -> (r: &'static str)
        ensures
            r@ == self.spec_description()@,
    {
        match *self {
            FsError::FileNotFound => "the folder does not exist or cannot be read from",
            FsError::InvalidDirectory => "the specified directory is not a valid directory",
            FsError::NoFileHandle => "the filesystem did not load a file yet",
            FsError::MalformedDataSequence => "the data sequence did not complete correctly",
            FsError::CorruptedData => "the data was corrupt",
            FsError::UnsupportedCompression => "the entry uses an unsupported compression",
        }
    }

    pub open spec fn spec_description(&self) -> &'static str {
        match *self {
            FsError::FileNotFound => "the folder does not exist or cannot be read from",
            FsError::InvalidDirectory => "the specified directory is not a valid directory",
            FsError::NoFileHandle => "the filesystem did not load a file yet",
            FsError::MalformedDataSequence => "the data sequence did not complete correctly",
            FsError::CorruptedData => "the data was corrupt",
            FsError::UnsupportedCompression => "the entry uses an unsupported compression",
        }
    }
}

/// How the payload of an entry is compressed.
#[derive(Debug, Clone, Copy, PartialEq, Eq, Structural)]
pub enum CompressionType {
    /// The archive is not compressed and the raw data is the real data.
    Uncompressed,
    /// The archive is compressed with the Bzip2 compression algorithm.
    Bzip2,
    /// The archive is compressed with (a slightly modified, headerless) Gzip codec.
    Gzip,
    /// The archive is compressed with a modified LZMA2 variant (without size field).
    Lzma,
}

/// The codec that a header tag names; unknown tags mean no compression.
pub open spec fn codec_of(code: u8) -> CompressionType {
    if code == 1 {
        CompressionType::Bzip2
    } else if code == 2 {
        CompressionType::Gzip
    } else if code == 3 {
        CompressionType::Lzma
    } else {
        CompressionType::Uncompressed
    }
}

impl CompressionType {
    /// Fetches the appropriate type of compression based on the header field
    /// in the archive header.
    pub fn from_code(code: u8) -> (r: CompressionType)
        ensures
            r == codec_of(code),
    {
        match code {
            1 => CompressionType::Bzip2,
            2 => CompressionType::Gzip,
            3 => CompressionType::Lzma,
            _ => CompressionType::Uncompressed,
        }
    }
}

/// Where an entry lives: its index, its id, its size and the byte offset of
/// its first block in the data file.
#[derive(Debug, Clone, Copy)]
pub struct IndexEntry {
    pub index: u8,
    pub id: u32,
    pub size: u32,
    pub offset: u64,
}

/// The nine bytes at the start of an entry payload.
#[derive(Debug, Clone, Copy)]
pub struct EntryHeader {
    pub raw_size: u32,
    pub real_size: u32,
    pub compression: CompressionType,
}

/// The entry header held by the first nine bytes of `s`.
pub open spec fn entry_header_of(s: Seq<u8>) -> EntryHeader {
    EntryHeader {
        raw_size: be32(s, 1) as u32,
        real_size: be32(s, 5) as u32,
        compression: codec_of(s[0]),
    }
}

impl EntryHeader {
    /// Parses the codec tag, the raw size and the real size.
    pub fn from_bytes(bytes: [u8; 9]) -> (r: EntryHeader)
        ensures
            r == entry_header_of(bytes@),
    {
        let raw_size: u32 = (bytes[1] as u32) * 16777216 + (bytes[2] as u32) * 65536
            + (bytes[3] as u32) * 256 + (bytes[4] as u32);
        let real_size: u32 = (bytes[5] as u32) * 16777216 + (bytes[6] as u32) * 65536
            + (bytes[7] as u32) * 256 + (bytes[8] as u32);
        EntryHeader {
            raw_size: raw_size,
            real_size: real_size,
            compression: CompressionType::from_code(bytes[0]),
        }
    }
}

/// The linkage header at the start of every data block.
#[derive(Debug, Clone, Copy)]
pub struct BlockHeader {
    pub big: bool,
    pub entry_id: u32,
    pub index_id: u8,
    pub next_seq: i32,
    pub next_block: u32,
}

/// Length of the block header: 10 bytes in the large form, 8 in the small.
pub open spec fn block_header_len(big: bool) -> int {
    if big {
        10
    } else {
        8
    }
}

/// The block header at offset `p` of `s`, in the large or the small form.
pub open spec fn block_header_at(big: bool, s: Seq<u8>, p: int) -> BlockHeader {
    if big {
        BlockHeader {
            big: true,
            entry_id: be32(s, p) as u32,
            next_seq: be16(s, p + 4) as i32,
            next_block: be24(s, p + 6) as u32,
            index_id: s[p + 9],
        }
    } else {
        BlockHeader {
            big: false,
            entry_id: be16(s, p) as u32,
            next_seq: be16(s, p + 2) as i32,
            next_block: be24(s, p + 4) as u32,
            index_id: s[p + 7],
        }
    }
}

impl BlockHeader {
    /// Parses the header of a block in the large or the small form.
    pub fn from_block(big: bool, data: [u8; 520]) -> (r: BlockHeader)
        ensures
            r == block_header_at(big, data@, 0),
    {
        if big {
            BlockHeader {
                big: true,
                entry_id: (data[0] as u32) * 16777216 + (data[1] as u32) * 65536
                    + (data[2] as u32) * 256 + (data[3] as u32),
                next_seq: ((data[4] as u32) * 256 + (data[5] as u32)) as i32,
                next_block: (data[6] as u32) * 65536 + (data[7] as u32) * 256 + (data[8] as u32),
                index_id: data[9],
            }
        } else {
            BlockHeader {
                big: false,
                entry_id: (data[0] as u32) * 256 + (data[1] as u32),
                next_seq: ((data[2] as u32) * 256 + (data[3] as u32)) as i32,
                next_block: (data[4] as u32) * 65536 + (data[5] as u32) * 256 + (data[6] as u32),
                index_id: data[7],
            }
        }
    }
}

impl IndexEntry {
    pub fn index(&self) -> (r: u8)
        ensures
            r == self.index,
    {
        self.index
    }

    /// Gets the id of this block.
    pub fn id(&self) -> (r: u32)
        ensures
            r == self.id,
    {
        self.id
    }

    /// Gets the absolute size of the entry data, not counting the 8-10
    /// byte header in the blocks.
    pub fn size(&self) -> (r: u32)
        ensures
            r == self.size,
    {
        self.size
    }

    /// Gets the absolute offset of the very first 520-byte block of this
    /// entry in the main data file.
    pub fn offset(&self) -> (r: u64)
        ensures
            r == self.offset,
    {
        self.offset
    }

    /// Gets the number of the first block of this entry.
    pub fn block(&self) -> (r: u32)
        ensures
            r == self.spec_block(),
    {
        (self.offset / BLOCK_SIZE) as u32
    }

    pub open spec fn spec_block(&self) -> u32 {
        (self.offset / 520) as u32
    }

    /// Whether the entry's blocks use the large header form.
    pub open spec fn is_big(&self) -> bool {
        self.id > 0xFFFF
    }
}

/// The entry described by record `id` of an index file with contents `s`.
pub open spec fn index_entry_at(index: u32, id: u32, s: Seq<u8>) -> IndexEntry {
    IndexEntry {
        index: index as u8,
        id: id,
        size: be24(s, id * 6) as u32,
        offset: (be24(s, id * 6 + 3) * 520) as u64,
    }
}

/// One index file: fixed 6-byte records, one per entry.
#[derive(Debug)]
pub struct IndexFile {
    id: u32,
    data: Vec<u8>,
}

impl View for IndexFile {
    type V = Seq<u8>;

    closed spec fn view(&self) -> Seq<u8> {
        self.data@
    }
}

impl IndexFile {
    pub closed spec fn spec_id(&self) -> u32 {
        self.id
    }

    /// An index file with the given id and contents.
    pub fn new(id: u32, data: Vec<u8>) -> (r: IndexFile)
        ensures
            r.spec_id() == id,
            r@ == data@,
    {
        IndexFile { id, data }
    }

    /// The id of this index.
    pub fn id(&self) -> (r: u32)
        ensures
            r == self.spec_id(),
    {
        self.id
    }

    /// The number of records in the file.
    pub fn last_entry(&self) -> (r: u64)
        ensures
            r == self@.len() / 6,
    {
        self.data.len() as u64 / INDEX_RECORD_SIZE
    }

    /// The record of entry `id`, or `None` where the file is too short to hold it.
    pub fn entry(&self, id: u32) -> (r: Option<IndexEntry>)
        ensures
            r is Some <==> (id as int + 1) * 6 <= self@.len(),
            r matches Some(e) ==> e == index_entry_at(self.spec_id(), id, self@),
    {
        let pos: u64 = id as u64 * INDEX_RECORD_SIZE;
        if pos + INDEX_RECORD_SIZE > self.data.len() as u64 {
            return None;
        }
        let p: usize = pos as usize;
        let size: u32 = (self.data[p] as u32) * 65536 + (self.data[p + 1] as u32) * 256
            + (self.data[p + 2] as u32);
        let block: u64 = (self.data[p + 3] as u64) * 65536 + (self.data[p + 4] as u64) * 256
            + (self.data[p + 5] as u64);
        Some(IndexEntry { index: self.id as u8, id: id, size: size, offset: block * BLOCK_SIZE })
    }
}

/// The 520 bytes of block `b` of the data file `f`.
pub open spec fn block_at(f: Seq<u8>, b: int) -> Seq<u8> {
    f.subrange(b * 520, b * 520 + 520)
}

/// Whether block `b` lies wholly inside the data file `f`.
pub open spec fn has_block(f: Seq<u8>, b: int) -> bool {
    0 <= b && b * 520 + 520 <= f.len()
}

/// Whether a block that is not the last of entry `e`'s chain carries the
/// linkage expected of the `seq`-th block.
pub open spec fn linked(h: BlockHeader, e: IndexEntry, seq: int) -> bool {
    &&& h.index_id == e.index
    &&& h.next_seq as int == seq
    &&& h.entry_id == e.id
}

/// The payload bytes that one block of entry `e` contributes when `remaining`
/// bytes are still to be read.
pub open spec fn block_take(e: IndexEntry, remaining: int) -> int {
    let room = 520 - block_header_len(e.is_big());
    if remaining < room {
        remaining
    } else {
        room
    }
}

/// The bytes of entry `e` read from the data file `f` by following the chain
/// from block `b`, with `remaining` bytes left to read and `seq` blocks read
/// so far; `None` where a block lies outside the file or a block that is not
/// the last carries the wrong linkage.
pub open spec fn chain_bytes(f: Seq<u8>, e: IndexEntry, b: int, remaining: nat, seq: int) -> Option<
    Seq<u8>,
>
    decreases remaining,
{
    if remaining == 0 {
        Some(Seq::empty())
    } else if !has_block(f, b) {
        None
    } else {
        let start = b * 520;
        let hl = block_header_len(e.is_big());
        let h = block_header_at(e.is_big(), f, start);
        let take = block_take(e, remaining as int);
        let rest = (remaining - take) as nat;
        if rest > 0 && !linked(h, e, seq) {
            None
        } else {
            match chain_bytes(f, e, h.next_block as int, rest, seq + 1) {
                Some(tail) => Some(f.subrange(start + hl, start + hl + take) + tail),
                None => None,
            }
        }
    }
}

/// The whole of entry `e` in the data file `f`, if its chain is sound.
pub open spec fn entry_bytes(f: Seq<u8>, e: IndexEntry) -> Option<Seq<u8>> {
    chain_bytes(f, e, e.spec_block() as int, e.size as nat, 0)
}

/// `p` followed by what `r` holds, if it holds anything.
pub open spec fn prepend(p: Seq<u8>, r: Option<Seq<u8>>) -> Option<Seq<u8>> {
    match r {
        Some(t) => Some(p + t),
        None => None,
    }
}

proof fn lemma_chain_len(f: Seq<u8>, e: IndexEntry, b: int, remaining: nat, seq: int)
    ensures
        chain_bytes(f, e, b, remaining, seq) matches Some(t) ==> t.len() == remaining,
    decreases remaining,
{
    if remaining > 0 && has_block(f, b) {
        let h = block_header_at(e.is_big(), f, b * 520);
        let take = block_take(e, remaining as int);
        let hl = block_header_len(e.is_big());
        lemma_chain_len(f, e, h.next_block as int, (remaining - take) as nat, seq + 1);
        assert(f.subrange(b * 520 + hl, b * 520 + hl + take).len() == take);
    }
}

/// An entry that can be read at all is read at exactly its recorded size.
pub proof fn lemma_entry_len(f: Seq<u8>, e: IndexEntry)
    ensures
        entry_bytes(f, e) matches Some(b) ==> b.len() == e.size,
{
    lemma_chain_len(f, e, e.spec_block() as int, e.size as nat, 0);
}

/// The payload bytes that one block of entry `e` holds.
pub open spec fn block_room(e: IndexEntry) -> int {
    520 - block_header_len(e.is_big())
}

/// The block that the chain of entry `e` in `f` reaches `i` steps after
/// block `b`, by the next-block fields of the blocks on the way.
pub open spec fn nth_block(f: Seq<u8>, e: IndexEntry, b: int, i: nat) -> int
    decreases i,
{
    if i == 0 {
        b
    } else {
        nth_block(f, e, block_header_at(e.is_big(), f, b * 520).next_block as int, (i - 1) as nat)
    }
}

/// Whether `g` holds the same blocks as `f` on the first `i` steps of the
/// chain of entry `e` from block `b` in `f`.
pub open spec fn same_steps(f: Seq<u8>, g: Seq<u8>, e: IndexEntry, b: int, i: nat) -> bool {
    forall|j: nat|
        j < i ==> {
            &&& has_block(f, #[trigger] nth_block(f, e, b, j))
            &&& has_block(g, nth_block(f, e, b, j))
            &&& block_at(g, nth_block(f, e, b, j)) == block_at(f, nth_block(f, e, b, j))
        }
}

proof fn lemma_same_block_same_header(f: Seq<u8>, g: Seq<u8>, e: IndexEntry, b: int)
    requires
        has_block(f, b),
        has_block(g, b),
        block_at(g, b) == block_at(f, b),
    ensures
        block_header_at(e.is_big(), g, b * 520) == block_header_at(e.is_big(), f, b * 520),
{
    let p = b * 520;
    assert(p + 520 <= g.len() && p + 520 <= f.len());
    assert forall|t: int| 0 <= t < 520 implies #[trigger] g[p + t] == f[p + t] by {
        assert(g.subrange(p, p + 520)[t] == g[p + t]);
        assert(f.subrange(p, p + 520)[t] == f[p + t]);
    }
    assert(g.subrange(p, p + 520)[0] == g[p]);
    assert(f.subrange(p, p + 520)[0] == f[p]);
    assert(g[p + 1] == f[p + 1] && g[p + 2] == f[p + 2] && g[p + 3] == f[p + 3]);
    assert(g[p + 4] == f[p + 4] && g[p + 5] == f[p + 5] && g[p + 6] == f[p + 6]);
    assert(g[p + 7] == f[p + 7] && g[p + 8] == f[p + 8] && g[p + 9] == f[p + 9]);
}

proof fn lemma_broken_link_from(
    f: Seq<u8>,
    g: Seq<u8>,
    e: IndexEntry,
    b: int,
    remaining: nat,
    seq: int,
    i: nat,
)
    requires
        remaining > (i + 1) * block_room(e),
        same_steps(f, g, e, b, i),
        has_block(g, nth_block(f, e, b, i)) ==> !linked(
            block_header_at(e.is_big(), g, nth_block(f, e, b, i) * 520),
            e,
            seq + i,
        ),
    ensures
        chain_bytes(g, e, b, remaining, seq) is None,
    decreases i,
{
    let room = block_room(e);
    assert((i + 1) * room == i * room + room) by (nonlinear_arith);
    assert(i * room >= 0) by (nonlinear_arith)
        requires
            room > 0,
    ;
    if i > 0 {
        assert(nth_block(f, e, b, 0) == b);
        lemma_same_block_same_header(f, g, e, b);
        let h = block_header_at(e.is_big(), f, b * 520);
        let next = h.next_block as int;
        assert forall|j: nat| j < (i - 1) as nat implies #[trigger] nth_block(f, e, next, j)
            == nth_block(f, e, b, j + 1) by {}
        assert(same_steps(f, g, e, next, (i - 1) as nat)) by {
            assert forall|j: nat| j < (i - 1) as nat implies {
                &&& has_block(f, #[trigger] nth_block(f, e, next, j))
                &&& has_block(g, nth_block(f, e, next, j))
                &&& block_at(g, nth_block(f, e, next, j)) == block_at(f, nth_block(f, e, next, j))
            } by {
                assert(nth_block(f, e, next, j) == nth_block(f, e, b, j + 1));
            }
        }
        lemma_broken_link_from(f, g, e, next, (remaining - room) as nat, seq + 1, (i - 1) as nat);
    }
}

/// A broken link is always caught: take any layout `f`, and let `g` keep the
/// blocks that the chain of `e` passes through on its first `i` steps but put,
/// at the block of step `i`, one whose index, sequence number or entry id is
/// wrong. If that block is not the entry's last, the entry cannot be read
/// from `g`.
pub proof fn lemma_broken_link_fails(f: Seq<u8>, g: Seq<u8>, e: IndexEntry, i: nat)
    requires
        e.size > (i + 1) * block_room(e),
        same_steps(f, g, e, e.spec_block() as int, i),
        has_block(g, nth_block(f, e, e.spec_block() as int, i)) ==> !linked(
            block_header_at(e.is_big(), g, nth_block(f, e, e.spec_block() as int, i) * 520),
            e,
            i as int,
        ),
    ensures
        entry_bytes(g, e) is None,
{
    lemma_broken_link_from(f, g, e, e.spec_block() as int, e.size as nat, 0, i);
}

/// Every record below an index file's entry count is present: for `k`
/// below what `last_entry` returns, `entry(k)` returns a record.
pub proof fn lemma_counted_records_present(index: IndexFile, k: u32)
    requires
        k < index@.len() / 6,
    ensures
        (k + 1) * 6 <= index@.len(),
{
}

proof fn lemma_prepend_assoc(a: Seq<u8>, b: Seq<u8>, r: Option<Seq<u8>>)
    ensures
        prepend(a, prepend(b, r)) == prepend(a + b, r),
{
    if let Some(t) = r {
        assert(a + (b + t) =~= (a + b) + t);
    }
}

/// The data file: the blocks of every entry of every index.
#[derive(Debug)]
pub struct MainFile {
    file: Option<Vec<u8>>,
}

impl View for MainFile {
    type V = Option<Seq<u8>>;

    closed spec fn view(&self) -> Option<Seq<u8>> {
        match self.file {
            Some(v) => Some(v@),
            None => None,
        }
    }
}

impl MainFile {
    /// A data file with the given contents, or one that is absent.
    pub fn new(file: Option<Vec<u8>>) -> (r: MainFile)
        ensures
            r@ == (match file {
                Some(v) => Some(v@),
                None => None,
            }),
    {
        MainFile { file }
    }

    /// Checks if the file exists.
    pub fn file_exists(&self) -> (r: bool)
        ensures
            r == self@ is Some,
    {
        self.file.is_some()
    }

    /// Gets the contents of the data file, if it exists.
    pub fn file(&self) -> (r: Option<&Vec<u8>>)
        ensures
            r is Some <==> self@ is Some,
            r matches Some(v) ==> self@ == Some(v@),
    {
        match &self.file {
            Some(v) => Some(v),
            None => None,
        }
    }

    /// The number of data blocks in the file (if it exists): its size divided
    /// by 520, rounding up.
    pub fn num_blocks(&self) -> (r: Option<u64>)
        ensures
            r is Some <==> self@ is Some,
            r matches Some(n) ==> n == (self@->0.len() + 519) / 520,
    {
        match &self.file {
            Some(v) => {
                let n: u64 = v.len() as u64;
                let partial: u64 = if n % BLOCK_SIZE == 0 { 0 } else { 1 };
                Some(n / BLOCK_SIZE + partial)
            },
            None => None,
        }
    }

    /// Reads block `block`: the 520 bytes at `520 * block`, or `None` where the
    /// file is absent or too short to hold them.
    pub fn read_block(&self, block: u32) -> (r: Option<[u8; 520]>)
        ensures
            r is Some <==> (self@ is Some && has_block(self@->0, block as int)),
            r matches Some(d) ==> d@ == block_at(self@->0, block as int),
    {
        let f = match &self.file {
            Some(v) => v,
            None => return None,
        };
        let start: u64 = block as u64 * BLOCK_SIZE;
        if start + BLOCK_SIZE > f.len() as u64 {
            return None;
        }
        let s: usize = start as usize;
        let mut out: [u8; 520] = [0u8; 520];
        let mut i: usize = 0;
        while i < 520
            invariant
                s as int == block as int * 520,
                s + 520 <= f.len(),
                0 <= i <= 520,
                out@.len() == 520,
                forall|j: int| 0 <= j < i ==> out@[j] == f@[s + j],
            decreases 520 - i,
        {
            out[i] = f[s + i];
            i += 1;
        }
        assert(out@ =~= block_at(f@, block as int));
        Some(out)
    }

    /// Reads the nine-byte entry header that follows the first block header
    /// of entry `entry`; `None` where the file is absent or too short.
    pub fn read_header(&self, entry: IndexEntry) -> (r: Option<EntryHeader>)
        ensures
            r is Some <==> (self@ is Some && entry.offset + block_header_len(entry.is_big()) + 9
                <= self@->0.len()),
            r matches Some(h) ==> h == entry_header_of(
                self@->0.subrange(
                    entry.offset + block_header_len(entry.is_big()),
                    entry.offset + block_header_len(entry.is_big()) + 9,
                ),
            ),
    {
        let f = match &self.file {
            Some(v) => v,
            None => return None,
        };
        let hl: u64 = if entry.id > SMALL_ID_MAX { 10 } else { 8 };
        let len: u64 = f.len() as u64;
        if entry.offset > len || len - entry.offset < hl + 9 {
            return None;
        }
        let s: usize = (entry.offset + hl) as usize;
        let mut hdr: [u8; 9] = [0u8; 9];
        let mut i: usize = 0;
        while i < 9
            invariant
                s + 9 <= f.len(),
                0 <= i <= 9,
                hdr@.len() == 9,
                forall|j: int| 0 <= j < i ==> hdr@[j] == f@[s + j],
            decreases 9 - i,
        {
            hdr[i] = f[s + i];
            i += 1;
        }
        assert(hdr@ =~= f@.subrange(s as int, s + 9));
        Some(EntryHeader::from_bytes(hdr))
    }

    /// Reads the whole of entry `entry` by following its chain of blocks.
    /// Every block but the last must name the entry's index and id and carry
    /// its position in the chain.
    pub fn read_entry(&self, entry: IndexEntry) -> (r: Result<Vec<u8>, FsError>)
        ensures
            self@ is None ==> r == Err::<Vec<u8>, FsError>(FsError::NoFileHandle),
            self@ matches Some(f) ==> match entry_bytes(f, entry) {
                Some(b) => r is Ok && r->Ok_0@ == b,
                None => r == Err::<Vec<u8>, FsError>(FsError::MalformedDataSequence),
            },
            r matches Ok(v) ==> v@.len() == entry.size,
    {
        proof {
            if self@ is Some {
                lemma_entry_len(self@->0, entry);
            }
        }
        if self.file.is_none() {
            return Err(FsError::NoFileHandle);
        }
        let ghost f = self@->0;
        let big = entry.id > SMALL_ID_MAX;
        let hl: usize = if big { 10 } else { 8 };
        let room: u32 = 520 - hl as u32;
        let mut data: Vec<u8> = Vec::new();
        let mut current_block: u32 = entry.block();
        let mut remaining: u32 = entry.size;
        let mut current_seq: u32 = 0;
        while remaining > 0
            invariant
                self@ == Some(f),
                big == entry.is_big(),
                hl == block_header_len(big),
                room == 520 - hl,
                current_seq <= entry.size - remaining,
                remaining <= entry.size,
                entry_bytes(f, entry) == prepend(
                    data@,
                    chain_bytes(f, entry, current_block as int, remaining as nat, current_seq as int),
                ),
            decreases remaining,
        {
            let block_data = match self.read_block(current_block) {
                Some(d) => d,
                None => return Err(FsError::MalformedDataSequence),
            };
            let info = BlockHeader::from_block(big, block_data);
            let take: u32 = if remaining > room { room } else { remaining };
            let ghost before = data@;
            let mut i: usize = 0;
            while i < take as usize
                invariant
                    0 <= i <= take,
                    take <= room,
                    hl + room == 520,
                    block_data@.len() == 520,
                    data@ == before + block_data@.subrange(hl as int, hl + i),
                decreases take - i,
            {
                data.push(block_data[hl + i]);
                i += 1;
                assert(data@ =~= before + block_data@.subrange(hl as int, hl + i));
            }
            proof {
                let start = current_block as int * 520;
                assert(block_header_at(big, block_data@, 0) == block_header_at(big, f, start));
                assert(block_data@.subrange(hl as int, hl + take) =~= f.subrange(
                    start + hl,
                    start + hl + take,
                ));
                lemma_prepend_assoc(
                    before,
                    f.subrange(start + hl, start + hl + take),
                    chain_bytes(
                        f,
                        entry,
                        info.next_block as int,
                        (remaining - take) as nat,
                        current_seq + 1,
                    ),
                );
            }
            remaining = remaining - take;
            if remaining > 0 && (info.index_id != entry.index || info.next_seq as i64
                != current_seq as i64 || info.entry_id != entry.id) {
                return Err(FsError::MalformedDataSequence);
            }
            current_block = info.next_block;
            current_seq = current_seq + 1;
        }
        Ok(data)
    }

    /// Reads entry `entry` and turns its payload into the entry's contents,
    /// as its header's codec says.
    pub fn read_decompressed(&self, entry: IndexEntry) -> (r: Result<Vec<u8>, FsError>)
        ensures
            self@ is None ==> r == Err::<Vec<u8>, FsError>(FsError::NoFileHandle),
            self@ matches Some(f) ==> match entry_bytes(f, entry) {
                Some(b) => match decompressed(b) {
                    Ok(v) => r is Ok && r->Ok_0@ == v,
                    Err(e) => r == Err::<Vec<u8>, FsError>(e),
                },
                None => r == Err::<Vec<u8>, FsError>(FsError::MalformedDataSequence),
            },
    {
        let data = self.read_entry(entry)?;
        decompress(data)
    }
}

/// An opened archive: the data file and the index files found beside it.
#[derive(Debug)]
pub struct FileSystem {
    mainfile: MainFile,
    indices: HashMap<u32, IndexFile>,
}

impl FileSystem {
    pub closed spec fn spec_mainfile(&self) -> MainFile {
        self.mainfile
    }

    /// The index files, by id.
    pub closed spec fn spec_indices(&self) -> Map<u32, IndexFile> {
        self.indices@
    }

    /// An archive with the given data file and no index files yet.
    pub fn new(mainfile: MainFile) -> (r: FileSystem)
        ensures
            r.spec_mainfile() == mainfile,
            r.spec_indices() == Map::<u32, IndexFile>::empty(),
    {
        FileSystem { mainfile, indices: HashMap::new() }
    }

    /// Adds an index file under its id, in place of any with the same id.
    pub fn add_index(&mut self, index: IndexFile)
        ensures
            final(self).spec_mainfile() == old(self).spec_mainfile(),
            final(self).spec_indices() == old(self).spec_indices().insert(index.spec_id(), index),
    {
        let id = index.id();
        self.indices.insert(id, index);
    }

    /// Gets the mainfile, that is, the main_file_cache.dat2 entry in the folder
    /// that holds the actual binary data of the filesystem entries.
    pub fn mainfile(&self) -> (r: &MainFile)
        ensures
            *r == self.spec_mainfile(),
    {
        &self.mainfile
    }

    /// Gets an index with a specific id if it exists.
    pub fn index(&self, index: u32) -> (r: Option<&IndexFile>)
        ensures
            r is Some <==> self.spec_indices().contains_key(index),
            r matches Some(i) ==> *i == self.spec_indices()[index],
    {
        self.indices.get(&index)
    }
}

} // verus!
