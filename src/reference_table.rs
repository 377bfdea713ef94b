//! The reference table: a column-major description of an index's folders
//! and files, with their ids, name hashes, checksums, digests and versions.
use vstd::prelude::*;
use crate::bytes::{be16, be32, be_i32, read_be_i32, read_be_u16, read_be_u32};

verus! {

/// Size of a whirlpool digest.
pub const WHIRLPOOL_SIZE: usize = 64;

/// Largest id that a folder or a file can have.
pub const MAX_ID: u32 = 0x7FFF_FFFF;

/// Why a reference table could not be decoded.
#[derive(Debug, Clone, Copy, PartialEq, Eq, Structural)]
pub enum TableError {
    /// An unsupported version, a short read, or ids that are not strictly
    /// increasing or do not fit in 31 bits.
    InvalidData,
}

/// Which optional columns a table holds: the low four bits of its flag byte.
#[derive(Copy, Clone, Debug, Default, PartialEq, Eq, Structural)]
pub struct ReferenceTableFlags {
    pub has_names: bool,
    pub has_whirlpool: bool,
    pub unknown_digest_group: bool,
    pub unknown_hash_group: bool,
}

/// The flags that flag byte `b` sets.
pub open spec fn flags_of(b: u8) -> ReferenceTableFlags {
    ReferenceTableFlags {
        has_names: b & 1 != 0,
        has_whirlpool: b & 2 != 0,
        unknown_digest_group: b & 4 != 0,
        unknown_hash_group: b & 8 != 0,
    }
}

/// One file of a folder.
#[derive(Clone, Copy, Debug, Default, PartialEq, Eq, Structural)]
pub struct ReferenceTableFile {
    pub id: i32,
    pub name_hash: i32,
}

/// A folder as the table describes it.
pub struct FolderView {
    pub id: i32,
    pub name_hash: i32,
    pub crc32: i32,
    pub whirlpool: Seq<u8>,
    pub version: u32,
    pub files: Seq<ReferenceTableFile>,
}

/// A table as a whole.
pub struct TableView {
    pub version: u8,
    pub revision: u32,
    pub flags: ReferenceTableFlags,
    pub folders: Seq<FolderView>,
}

// ---- Variable-length integers and delta-coded ids ----

/// Width of the integer at `p`: four bytes when the table is of version 7 or
/// later and the byte at `p` has its high bit set, else two.
pub open spec fn var_width(s: Seq<u8>, p: int, v7: bool) -> int {
    if v7 && s[p] >= 128 {
        4
    } else {
        2
    }
}

/// The integer at `p`: the low 31 bits of four bytes, or two bytes.
pub open spec fn var_at(s: Seq<u8>, p: int, v7: bool) -> u32 {
    if v7 && s[p] >= 128 {
        (be32(s, p) - 0x8000_0000) as u32
    } else {
        be16(s, p) as u32
    }
}

/// Whether the integer at `p` lies inside `s`.
pub open spec fn var_fits(s: Seq<u8>, p: int, v7: bool) -> bool {
    0 <= p < s.len() && p + var_width(s, p, v7) <= s.len()
}

/// Where `n` consecutive integers that start at `p` end.
pub open spec fn vars_end(s: Seq<u8>, p: int, n: nat, v7: bool) -> int
    decreases n,
{
    if n == 0 {
        p
    } else {
        let q = vars_end(s, p, (n - 1) as nat, v7);
        q + var_width(s, q, v7)
    }
}

/// Whether `n` consecutive integers that start at `p` lie inside `s`.
pub open spec fn vars_ok(s: Seq<u8>, p: int, n: nat, v7: bool) -> bool
    decreases n,
{
    if n == 0 {
        true
    } else {
        vars_ok(s, p, (n - 1) as nat, v7) && var_fits(s, vars_end(s, p, (n - 1) as nat, v7), v7)
    }
}

/// The `n` consecutive integers that start at `p`.
pub open spec fn vars(s: Seq<u8>, p: int, n: nat, v7: bool) -> Seq<u32>
    decreases n,
{
    if n == 0 {
        Seq::empty()
    } else {
        vars(s, p, (n - 1) as nat, v7).push(var_at(s, vars_end(s, p, (n - 1) as nat, v7), v7))
    }
}

/// The sum of `d`.
pub open spec fn total(d: Seq<u32>) -> int
    decreases d.len(),
{
    if d.len() == 0 {
        0
    } else {
        total(d.drop_last()) + d.last()
    }
}

/// Whether the delta stream `d` gives strictly increasing ids that fit in 31
/// bits: every delta but the first is positive, and their sum fits.
pub open spec fn ids_valid(d: Seq<u32>) -> bool {
    &&& forall|i: int| 0 < i < d.len() ==> d[i] > 0
    &&& total(d) <= 0x7FFF_FFFF
}

/// The ids that the delta stream `d` gives: the running sums of its deltas.
pub open spec fn ids_of(d: Seq<u32>) -> Seq<i32> {
    Seq::new(d.len(), |i: int| total(d.take(i + 1)) as i32)
}

// ---- The layout of a table ----

/// Whether the table uses variable-length integers.
pub open spec fn is_v7(s: Seq<u8>) -> bool {
    s[0] >= 7
}

/// Where the flag byte is: after the version, and after the revision from
/// version 6 on.
pub open spec fn flags_pos(s: Seq<u8>) -> int {
    if s[0] >= 6 {
        5
    } else {
        1
    }
}

pub open spec fn table_flags(s: Seq<u8>) -> ReferenceTableFlags {
    flags_of(s[flags_pos(s)])
}

pub open spec fn count_pos(s: Seq<u8>) -> int {
    flags_pos(s) + 1
}

/// The number of folders.
pub open spec fn folder_count(s: Seq<u8>) -> nat {
    var_at(s, count_pos(s), is_v7(s)) as nat
}

pub open spec fn folder_ids_pos(s: Seq<u8>) -> int {
    count_pos(s) + var_width(s, count_pos(s), is_v7(s))
}

/// The delta stream of the folder ids.
pub open spec fn folder_deltas(s: Seq<u8>) -> Seq<u32> {
    vars(s, folder_ids_pos(s), folder_count(s), is_v7(s))
}

pub open spec fn names_pos(s: Seq<u8>) -> int {
    vars_end(s, folder_ids_pos(s), folder_count(s), is_v7(s))
}

pub open spec fn crc_pos(s: Seq<u8>) -> int {
    names_pos(s) + if table_flags(s).has_names {
        4 * folder_count(s)
    } else {
        0
    }
}

pub open spec fn hash_group_pos(s: Seq<u8>) -> int {
    crc_pos(s) + 4 * folder_count(s)
}

pub open spec fn whirlpool_pos(s: Seq<u8>) -> int {
    hash_group_pos(s) + if table_flags(s).unknown_hash_group {
        4 * folder_count(s)
    } else {
        0
    }
}

pub open spec fn digest_group_pos(s: Seq<u8>) -> int {
    whirlpool_pos(s) + if table_flags(s).has_whirlpool {
        64 * folder_count(s)
    } else {
        0
    }
}

pub open spec fn versions_pos(s: Seq<u8>) -> int {
    digest_group_pos(s) + if table_flags(s).unknown_digest_group {
        8 * folder_count(s)
    } else {
        0
    }
}

pub open spec fn counts_pos(s: Seq<u8>) -> int {
    versions_pos(s) + 4 * folder_count(s)
}

/// The number of files of each folder.
pub open spec fn file_counts(s: Seq<u8>) -> Seq<u32> {
    vars(s, counts_pos(s), folder_count(s), is_v7(s))
}

/// Where the file-id deltas of the folders from `k` on start, reading on
/// from `p`.
pub open spec fn file_ids_from(s: Seq<u8>, p: int, counts: Seq<u32>, k: nat, v7: bool) -> int
    decreases k,
{
    if k == 0 {
        p
    } else {
        let q = file_ids_from(s, p, counts, (k - 1) as nat, v7);
        vars_end(s, q, counts[k - 1] as nat, v7)
    }
}

/// Where the file-id deltas of folder `k` start.
pub open spec fn file_ids_pos(s: Seq<u8>, k: nat) -> int {
    file_ids_from(
        s,
        vars_end(s, counts_pos(s), folder_count(s), is_v7(s)),
        file_counts(s),
        k,
        is_v7(s),
    )
}

/// The delta stream of the file ids of folder `k`.
pub open spec fn file_deltas(s: Seq<u8>, k: nat) -> Seq<u32> {
    vars(s, file_ids_pos(s, k), file_counts(s)[k as int] as nat, is_v7(s))
}

/// Where the file name hashes of folder `k` start.
pub open spec fn file_names_pos(s: Seq<u8>, k: nat) -> int {
    file_ids_pos(s, folder_count(s)) + 4 * total(file_counts(s).take(k as int))
}

/// Where the table ends.
pub open spec fn end_pos(s: Seq<u8>) -> int {
    if table_flags(s).has_names {
        file_names_pos(s, folder_count(s))
    } else {
        file_ids_pos(s, folder_count(s))
    }
}

/// Whether `s` holds a whole table that this decoder accepts.
pub open spec fn table_valid(s: Seq<u8>) -> bool {
    let n = folder_count(s);
    let v7 = is_v7(s);
    &&& s.len() >= 1
    &&& 5 <= s[0] <= 7
    &&& flags_pos(s) < s.len()
    &&& var_fits(s, count_pos(s), v7)
    &&& vars_ok(s, folder_ids_pos(s), n, v7)
    &&& ids_valid(folder_deltas(s))
    &&& counts_pos(s) <= s.len()
    &&& vars_ok(s, counts_pos(s), n, v7)
    &&& forall|k: nat|
        k < n ==> vars_ok(s, #[trigger] file_ids_pos(s, k), file_counts(s)[k as int] as nat, v7)
    &&& forall|k: nat| k < n ==> ids_valid(#[trigger] file_deltas(s, k))
    &&& end_pos(s) <= s.len()
}

/// The files of folder `k`.
pub open spec fn files_of(s: Seq<u8>, k: nat) -> Seq<ReferenceTableFile> {
    let ids = ids_of(file_deltas(s, k));
    Seq::new(
        ids.len(),
        |j: int|
            ReferenceTableFile {
                id: ids[j],
                name_hash: if table_flags(s).has_names {
                    be_i32(s, file_names_pos(s, k) + 4 * j) as i32
                } else {
                    0
                },
            },
    )
}

/// Folder `k` of the table.
pub open spec fn folder_of(s: Seq<u8>, k: nat) -> FolderView {
    let flags = table_flags(s);
    FolderView {
        id: ids_of(folder_deltas(s))[k as int],
        name_hash: if flags.has_names {
            be_i32(s, names_pos(s) + 4 * k) as i32
        } else {
            0
        },
        crc32: be_i32(s, crc_pos(s) + 4 * k) as i32,
        whirlpool: if flags.has_whirlpool {
            s.subrange(whirlpool_pos(s) + 64 * k, whirlpool_pos(s) + 64 * k + 64)
        } else {
            Seq::empty()
        },
        version: be32(s, versions_pos(s) + 4 * k) as u32,
        files: files_of(s, k),
    }
}

/// The table that `s` holds, where `table_valid(s)`.
pub open spec fn table_of(s: Seq<u8>) -> TableView {
    TableView {
        version: s[0],
        revision: if s[0] >= 6 {
            be32(s, 1) as u32
        } else {
            0
        },
        flags: table_flags(s),
        folders: Seq::new(folder_count(s), |k: int| folder_of(s, k as nat)),
    }
}

// ---- Lemmas ----

proof fn lemma_vars_ok_prefix(s: Seq<u8>, p: int, n: nat, i: nat, v7: bool)
    requires
        i <= n,
        vars_ok(s, p, n, v7),
    ensures
        vars_ok(s, p, i, v7),
    decreases n,
{
    if i < n {
        lemma_vars_ok_prefix(s, p, (n - 1) as nat, i, v7);
    }
}

proof fn lemma_vars_end_grows(s: Seq<u8>, p: int, n: nat, v7: bool)
    ensures
        vars_end(s, p, n, v7) >= p + 2 * n,
        vars_ok(s, p, n, v7) && n > 0 ==> vars_end(s, p, n, v7) <= s.len(),
    decreases n,
{
    if n > 0 {
        lemma_vars_end_grows(s, p, (n - 1) as nat, v7);
    }
}

proof fn lemma_vars_len(s: Seq<u8>, p: int, n: nat, v7: bool)
    ensures
        vars(s, p, n, v7).len() == n,
    decreases n,
{
    if n > 0 {
        lemma_vars_len(s, p, (n - 1) as nat, v7);
    }
}

proof fn lemma_total_step(d: Seq<u32>, i: int)
    requires
        0 <= i < d.len(),
    ensures
        total(d.take(i + 1)) == total(d.take(i)) + d[i],
{
    assert(d.take(i + 1).drop_last() =~= d.take(i));
}

proof fn lemma_total_nonneg(d: Seq<u32>)
    ensures
        total(d) >= 0,
    decreases d.len(),
{
    if d.len() > 0 {
        lemma_total_nonneg(d.drop_last());
    }
}

proof fn lemma_total_prefix(d: Seq<u32>, i: int)
    requires
        0 <= i <= d.len(),
    ensures
        0 <= total(d.take(i)) <= total(d),
    decreases d.len(),
{
    lemma_total_nonneg(d.take(i));
    if i == d.len() {
        assert(d.take(i) =~= d);
    } else {
        assert(d.drop_last().take(i) =~= d.take(i));
        lemma_total_prefix(d.drop_last(), i);
    }
}

proof fn lemma_total_mono(d: Seq<u32>, a: int, b: int)
    requires
        0 <= a <= b <= d.len(),
    ensures
        total(d.take(a)) <= total(d.take(b)),
{
    assert(d.take(b).take(a) =~= d.take(a));
    lemma_total_prefix(d.take(b), a);
}

/// The ids that a valid delta stream gives are its running sums, each fits
/// in 31 bits, and they are strictly increasing.
pub proof fn lemma_ids_of_valid(d: Seq<u32>)
    requires
        ids_valid(d),
    ensures
        ids_of(d).len() == d.len(),
        forall|i: int| 0 <= i < d.len() ==> ids_of(d)[i] as int == total(d.take(i + 1)),
        forall|i: int| 0 <= i < d.len() ==> ids_of(d)[i] >= 0,
        forall|i: int, j: int| 0 <= i < j < d.len() ==> ids_of(d)[i] < ids_of(d)[j],
{
    assert forall|i: int| 0 <= i < d.len() implies 0 <= #[trigger] total(d.take(i + 1)) <= 0x7FFF_FFFF by {
        lemma_total_prefix(d, i + 1);
    }
    assert forall|i: int, j: int| 0 <= i < j < d.len() implies ids_of(d)[i] < ids_of(d)[j] by {
        lemma_total_prefix(d, i + 1);
        lemma_total_prefix(d, j + 1);
        lemma_total_mono(d, i + 1, j);
        lemma_total_step(d, j);
    }
}

// ---- Readers ----

/// Reads the variable-length integer at `pos` and returns it with the
/// position after it.
fn read_var(data: &[u8], pos: usize, v7: bool) -> (r: Option<(u32, usize)>)
    ensures
        r is Some <==> var_fits(data@, pos as int, v7),
        r matches Some((x, q)) ==> x == var_at(data@, pos as int, v7) && q == pos + var_width(
            data@,
            pos as int,
            v7,
        ),
{
    let len = data.len();
    if pos >= len {
        return None;
    }
    if v7 && data[pos] >= 128 {
        if len - pos < 4 {
            return None;
        }
        let x = read_be_u32(data, pos);
        assert(x & 0x7FFF_FFFF == x - 0x8000_0000) by (bit_vector)
            requires
                x >= 0x8000_0000u32,
        ;
        Some((x & 0x7FFF_FFFF, pos + 4))
    } else {
        if len - pos < 2 {
            return None;
        }
        Some((read_be_u16(data, pos) as u32, pos + 2))
    }
}

/// Reads `n` consecutive variable-length integers from `pos` and returns
/// them with the position after them.
fn read_vars(data: &[u8], pos: usize, n: u32, v7: bool) -> (r: Option<(Vec<u32>, usize)>)
    ensures
        r is Some <==> vars_ok(data@, pos as int, n as nat, v7),
        r matches Some((v, q)) ==> v@ == vars(data@, pos as int, n as nat, v7) && q == vars_end(
            data@,
            pos as int,
            n as nat,
            v7,
        ),
{
    let mut out: Vec<u32> = Vec::new();
    let mut p: usize = pos;
    let mut i: u32 = 0;
    while i < n
        invariant
            i <= n,
            vars_ok(data@, pos as int, i as nat, v7),
            out@ == vars(data@, pos as int, i as nat, v7),
            p == vars_end(data@, pos as int, i as nat, v7),
        decreases n - i,
    {
        match read_var(data, p, v7) {
            Some((x, q)) => {
                out.push(x);
                p = q;
                i = i + 1;
            },
            None => {
                proof {
                    if vars_ok(data@, pos as int, n as nat, v7) {
                        lemma_vars_ok_prefix(data@, pos as int, n as nat, (i + 1) as nat, v7);
                    }
                }
                return None;
            },
        }
    }
    Some((out, p))
}

/// Turns a stream of deltas into the running sums that are the ids, or
/// `None` where the ids would not be strictly increasing or would not fit.
fn delta_ids(deltas: &Vec<u32>) -> (r: Option<Vec<i32>>)
    ensures
        r is Some <==> ids_valid(deltas@),
        r matches Some(v) ==> v@ == ids_of(deltas@),
{
    let mut out: Vec<i32> = Vec::new();
    let mut running: u32 = 0;
    let mut i: usize = 0;
    while i < deltas.len()
        invariant
            i <= deltas@.len(),
            running == total(deltas@.take(i as int)),
            running <= MAX_ID,
            forall|j: int| 0 < j < i ==> deltas@[j] > 0,
            out@.len() == i,
            forall|j: int| 0 <= j < i ==> out@[j] == total(deltas@.take(j + 1)) as i32,
        decreases deltas@.len() - i,
    {
        let d = deltas[i];
        proof {
            lemma_total_step(deltas@, i as int);
        }
        if i > 0 && d == 0 {
            return None;
        }
        if d > MAX_ID - running {
            proof {
                lemma_total_prefix(deltas@, i + 1);
            }
            return None;
        }
        running = running + d;
        out.push(running as i32);
        i = i + 1;
    }
    assert(deltas@.take(deltas@.len() as int) =~= deltas@);
    assert(out@ =~= ids_of(deltas@));
    Some(out)
}

/// The flags that flag byte `b` sets.
fn flags_from_byte(b: u8) -> (r: ReferenceTableFlags)
    ensures
        r == flags_of(b),
{
    ReferenceTableFlags {
        has_names: b & 1 != 0,
        has_whirlpool: b & 2 != 0,
        unknown_digest_group: b & 4 != 0,
        unknown_hash_group: b & 8 != 0,
    }
}

/// The position after a column of `n` values of `w` bytes each that starts
/// at `pos`, or `None` where the column does not fit in `len` bytes.
fn column_end(len: usize, pos: usize, n: u32, w: usize) -> (r: Option<usize>)
    requires
        pos <= len,
        w <= 64,
    ensures
        r is Some <==> pos + n * w <= len,
        r matches Some(q) ==> q == pos + n * w,
{
    let room: u64 = (len - pos) as u64;
    assert(n as u64 * w as u64 <= 0xFFFF_FFFFu64 * 64) by (nonlinear_arith)
        requires
            w <= 64,
    ;
    let need: u64 = n as u64 * w as u64;
    if need > room {
        None
    } else {
        Some(pos + need as usize)
    }
}

/// A copy of the `n` bytes of `data` from `pos`.
fn copy_bytes(data: &[u8], pos: usize, n: usize) -> (r: Vec<u8>)
    requires
        pos + n <= data@.len(),
    ensures
        r@ == data@.subrange(pos as int, pos + n),
{
    let mut out: Vec<u8> = Vec::new();
    let mut i: usize = 0;
    while i < n
        invariant
            i <= n,
            pos + n <= data.len(),
            out@ == data@.subrange(pos as int, pos + i),
        decreases n - i,
    {
        out.push(data[pos + i]);
        i = i + 1;
        assert(out@ =~= data@.subrange(pos as int, pos + i));
    }
    out
}

/// The files with the given ids, and with the name hashes from `names_pos`
/// where the table has names.
fn build_files(data: &[u8], ids: &Vec<i32>, has_names: bool, names_pos: usize) -> (r: Vec<
    ReferenceTableFile,
>)
    requires
        has_names ==> names_pos + 4 * ids@.len() <= data@.len(),
    ensures
        r@ == Seq::new(
            ids@.len(),
            |j: int|
                ReferenceTableFile {
                    id: ids@[j],
                    name_hash: if has_names {
                        be_i32(data@, names_pos + 4 * j) as i32
                    } else {
                        0
                    },
                },
        ),
{
    let mut out: Vec<ReferenceTableFile> = Vec::new();
    let mut j: usize = 0;
    while j < ids.len()
        invariant
            j <= ids@.len(),
            has_names ==> names_pos + 4 * ids@.len() <= data.len(),
            out@.len() == j,
            forall|i: int|
                0 <= i < j ==> out@[i] == (ReferenceTableFile {
                    id: ids@[i],
                    name_hash: if has_names {
                        be_i32(data@, names_pos + 4 * i) as i32
                    } else {
                        0
                    },
                }),
        decreases ids@.len() - j,
    {
        let name_hash: i32 = if has_names {
            read_be_i32(data, names_pos + 4 * j)
        } else {
            0
        };
        out.push(ReferenceTableFile { id: ids[j], name_hash });
        j = j + 1;
    }
    assert(out@ =~= Seq::new(
        ids@.len(),
        |j: int|
            ReferenceTableFile {
                id: ids@[j],
                name_hash: if has_names {
                    be_i32(data@, names_pos + 4 * j) as i32
                } else {
                    0
                },
            },
    ));
    out
}

// ---- The decoded table ----

/// One folder: its id, name hash, checksum, optional digest, version and files.
#[derive(Clone, Debug, Default)]
pub struct ReferenceTableFolder {
    id: i32,
    name_hash: i32,
    crc32: i32,
    whirlpool: Vec<u8>,
    version: u32,
    files: Vec<ReferenceTableFile>,
}

impl View for ReferenceTableFolder {
    type V = FolderView;

    closed spec fn view(&self) -> FolderView {
        FolderView {
            id: self.id,
            name_hash: self.name_hash,
            crc32: self.crc32,
            whirlpool: self.whirlpool@,
            version: self.version,
            files: self.files@,
        }
    }
}

impl ReferenceTableFolder {
    /// A folder with the given id and nothing else.
    pub fn new(id: i32) -> (r: ReferenceTableFolder)
        ensures
            r@ == (FolderView {
                id: id,
                name_hash: 0,
                crc32: 0,
                whirlpool: Seq::empty(),
                version: 0,
                files: Seq::empty(),
            }),
    {
        ReferenceTableFolder {
            id: id,
            name_hash: 0,
            crc32: 0,
            whirlpool: Vec::new(),
            version: 0,
            files: Vec::new(),
        }
    }

    pub fn id(&self) -> (r: i32)
        ensures
            r == self@.id,
    {
        self.id
    }

    pub fn name_hash(&self) -> (r: i32)
        ensures
            r == self@.name_hash,
    {
        self.name_hash
    }

    pub fn crc32(&self) -> (r: i32)
        ensures
            r == self@.crc32,
    {
        self.crc32
    }

    /// The folder's digest: 64 bytes where the table holds digests, else none.
    pub fn whirlpool(&self) -> (r: &Vec<u8>)
        ensures
            r@ == self@.whirlpool,
    {
        &self.whirlpool
    }

    pub fn version(&self) -> (r: u32)
        ensures
            r == self@.version,
    {
        self.version
    }

    /// The folder's files, in increasing order of id.
    pub fn files(&self) -> (r: &Vec<ReferenceTableFile>)
        ensures
            r@ == self@.files,
    {
        &self.files
    }
}

/// A decoded reference table.
#[derive(Clone, Debug, Default)]
pub struct ReferenceTable {
    version: u8,
    revision: u32,
    flags: ReferenceTableFlags,
    folders: Vec<ReferenceTableFolder>,
}

impl View for ReferenceTable {
    type V = TableView;

    closed spec fn view(&self) -> TableView {
        TableView {
            version: self.version,
            revision: self.revision,
            flags: self.flags,
            folders: self.folders@.map_values(|f: ReferenceTableFolder| f@),
        }
    }
}

impl ReferenceTable {
    /// Decodes a table from the decompressed payload of its entry.
    pub fn decode(data: &[u8]) -> (r: Result<ReferenceTable, TableError>)
        ensures
            r is Ok <==> table_valid(data@),
            r matches Ok(t) ==> t@ == table_of(data@) && ids_increasing(t@),
            r matches Err(e) ==> e == TableError::InvalidData,
    {
        let ghost s = data@;
        let len = data.len();
        if len < 1 {
            return Err(TableError::InvalidData);
        }
        let version = data[0];
        if version < 5 || version > 7 {
            return Err(TableError::InvalidData);
        }
        let v7 = version >= 7;
        let mut revision: u32 = 0;
        let mut fp: usize = 1;
        if version >= 6 {
            if len < 5 {
                return Err(TableError::InvalidData);
            }
            revision = read_be_u32(data, 1);
            fp = 5;
        }
        if fp >= len {
            return Err(TableError::InvalidData);
        }
        let flags = flags_from_byte(data[fp]);
        let (n, p) = match read_var(data, fp + 1, v7) {
            Some(x) => x,
            None => return Err(TableError::InvalidData),
        };
        let (deltas, p) = match read_vars(data, p, n, v7) {
            Some(x) => x,
            None => return Err(TableError::InvalidData),
        };
        let ids = match delta_ids(&deltas) {
            Some(x) => x,
            None => return Err(TableError::InvalidData),
        };
        proof {
            lemma_vars_end_grows(s, folder_ids_pos(s), n as nat, v7);
            lemma_vars_len(s, folder_ids_pos(s), n as nat, v7);
        }
        // Fixed-width columns.
        let names_at = p;
        let crc_at = if flags.has_names {
            match column_end(len, p, n, 4) {
                Some(q) => q,
                None => return Err(TableError::InvalidData),
            }
        } else {
            p
        };
        let hash_group_at = match column_end(len, crc_at, n, 4) {
            Some(q) => q,
            None => return Err(TableError::InvalidData),
        };
        let whirlpool_at = if flags.unknown_hash_group {
            match column_end(len, hash_group_at, n, 4) {
                Some(q) => q,
                None => return Err(TableError::InvalidData),
            }
        } else {
            hash_group_at
        };
        let digest_group_at = if flags.has_whirlpool {
            match column_end(len, whirlpool_at, n, WHIRLPOOL_SIZE) {
                Some(q) => q,
                None => return Err(TableError::InvalidData),
            }
        } else {
            whirlpool_at
        };
        let versions_at = if flags.unknown_digest_group {
            match column_end(len, digest_group_at, n, 8) {
                Some(q) => q,
                None => return Err(TableError::InvalidData),
            }
        } else {
            digest_group_at
        };
        let counts_at = match column_end(len, versions_at, n, 4) {
            Some(q) => q,
            None => return Err(TableError::InvalidData),
        };
        assert(counts_at == counts_pos(s));
        // File counts, then the file ids of each folder.
        let (counts, p) = match read_vars(data, counts_at, n, v7) {
            Some(x) => x,
            None => return Err(TableError::InvalidData),
        };
        proof {
            lemma_vars_end_grows(s, counts_pos(s), n as nat, v7);
            lemma_vars_len(s, counts_pos(s), n as nat, v7);
        }
        let mut file_ids: Vec<Vec<i32>> = Vec::new();
        let mut p: usize = p;
        let mut k: usize = 0;
        while k < n as usize
            invariant
                s == data@,
                table_flags(s) == flags,
                is_v7(s) == v7,
                folder_count(s) == n,
                counts@ == file_counts(s),
                counts@.len() == n,
                k <= n,
                p <= len,
                len == s.len(),
                p == file_ids_pos(s, k as nat),
                forall|kk: nat|
                    kk < k ==> vars_ok(
                        s,
                        #[trigger] file_ids_pos(s, kk),
                        file_counts(s)[kk as int] as nat,
                        v7,
                    ),
                forall|kk: nat| kk < k ==> ids_valid(#[trigger] file_deltas(s, kk)),
                file_ids@.len() == k,
                forall|kk: int| 0 <= kk < k ==> file_ids@[kk]@ == ids_of(file_deltas(s, kk as nat)),
            decreases n - k,
        {
            let (fd, q) = match read_vars(data, p, counts[k], v7) {
                Some(x) => x,
                None => {
                    assert(!vars_ok(s, file_ids_pos(s, k as nat), file_counts(s)[k as int] as nat, v7));
                    return Err(TableError::InvalidData);
                },
            };
            let fids = match delta_ids(&fd) {
                Some(x) => x,
                None => {
                    assert(!ids_valid(file_deltas(s, k as nat)));
                    return Err(TableError::InvalidData);
                },
            };
            proof {
                lemma_vars_end_grows(s, p as int, counts[k as int] as nat, v7);
            }
            file_ids.push(fids);
            p = q;
            k = k + 1;
        }
        // File name hashes.
        let file_names_start = p;
        if flags.has_names {
            let mut np: usize = p;
            let mut k: usize = 0;
            while k < n as usize
                invariant
                    s == data@,
                    table_flags(s) == flags,
                    flags.has_names,
                    folder_count(s) == n,
                    counts@ == file_counts(s),
                    counts@.len() == n,
                    k <= n,
                    np <= len,
                    len == s.len(),
                    file_names_start == file_ids_pos(s, n as nat),
                    np == file_names_pos(s, k as nat),
                decreases n - k,
            {
                proof {
                    lemma_total_step(counts@, k as int);
                    lemma_total_prefix(counts@, k + 1);
                    assert(counts@.take(n as int) =~= counts@);
                }
                np = match column_end(len, np, counts[k], 4) {
                    Some(q) => q,
                    None => {
                        assert(file_names_pos(s, (k + 1) as nat) == np + 4 * counts@[k as int]);
                        assert(file_names_pos(s, n as nat) >= file_names_pos(s, (k + 1) as nat));
                        assert(end_pos(s) > s.len());
                        return Err(TableError::InvalidData);
                    },
                };
                k = k + 1;
            }
            assert(counts@.take(n as int) =~= counts@);
        }
        assert(table_valid(s));
        // Assemble the folders.
        let mut folders: Vec<ReferenceTableFolder> = Vec::new();
        let mut np: usize = file_names_start;
        let mut k: usize = 0;
        while k < n as usize
            invariant
                s == data@,
                table_valid(s),
                table_flags(s) == flags,
                is_v7(s) == v7,
                folder_count(s) == n,
                counts@ == file_counts(s),
                counts@.len() == n,
                ids@ == ids_of(folder_deltas(s)),
                ids@.len() == n,
                k <= n,
                len == s.len(),
                names_at == names_pos(s),
                crc_at == crc_pos(s),
                whirlpool_at == whirlpool_pos(s),
                versions_at == versions_pos(s),
                counts_at == counts_pos(s),
                counts_at <= len,
                file_ids@.len() == n,
                forall|kk: int| 0 <= kk < n ==> file_ids@[kk]@ == ids_of(file_deltas(s, kk as nat)),
                flags.has_names ==> np == file_names_pos(s, k as nat),
                folders@.len() == k,
                forall|kk: int| 0 <= kk < k ==> folders@[kk]@ == folder_of(s, kk as nat),
            decreases n - k,
        {
            proof {
                lemma_vars_len(s, file_ids_pos(s, k as nat), counts@[k as int] as nat, v7);
                lemma_total_step(counts@, k as int);
                lemma_total_prefix(counts@, k + 1);
                assert(counts@.take(n as int) =~= counts@);
            }
            let name_hash: i32 = if flags.has_names {
                read_be_i32(data, names_at + 4 * k)
            } else {
                0
            };
            let crc32 = read_be_i32(data, crc_at + 4 * k);
            let whirlpool = if flags.has_whirlpool {
                copy_bytes(data, whirlpool_at + WHIRLPOOL_SIZE * k, WHIRLPOOL_SIZE)
            } else {
                Vec::new()
            };
            let version = read_be_u32(data, versions_at + 4 * k);
            let files = build_files(data, &file_ids[k], flags.has_names, np);
            let folder = ReferenceTableFolder {
                id: ids[k],
                name_hash,
                crc32,
                whirlpool,
                version,
                files,
            };
            assert(folder@.files =~= files_of(s, k as nat));
            assert(folder@ == folder_of(s, k as nat));
            folders.push(folder);
            if flags.has_names {
                np = np + 4 * counts[k] as usize;
            }
            k = k + 1;
        }
        let table = ReferenceTable { version, revision, flags, folders };
        assert(table@.folders =~= Seq::new(n as nat, |k: int| folder_of(s, k as nat)));
        proof {
            lemma_ids_are_prefix_sums(s);
        }
        Ok(table)
    }

    /// The revision of the table (0 before version 6).
    pub fn revision(&self) -> (r: u32)
        ensures
            r == self@.revision,
    {
        self.revision
    }

    /// The version of the table's format.
    pub fn version(&self) -> (r: u8)
        ensures
            r == self@.version,
    {
        self.version
    }

    /// Which optional columns the table held.
    pub fn flags(&self) -> (r: ReferenceTableFlags)
        ensures
            r == self@.flags,
    {
        self.flags
    }

    /// The ids of the folders, in the order of the table.
    pub fn folder_ids(&self) -> (r: Vec<i32>)
        ensures
            r@ == self@.folders.map_values(|f: FolderView| f.id),
    {
        let mut out: Vec<i32> = Vec::new();
        let mut i: usize = 0;
        while i < self.folders.len()
            invariant
                i <= self.folders@.len(),
                out@ == self@.folders.take(i as int).map_values(|f: FolderView| f.id),
            decreases self.folders@.len() - i,
        {
            out.push(self.folders[i].id);
            i = i + 1;
            assert(out@ =~= self@.folders.take(i as int).map_values(|f: FolderView| f.id));
        }
        assert(self@.folders.take(i as int) =~= self@.folders);
        out
    }

    /// The folder with id `id`.
    pub fn lookup(&self, id: i32) -> (r: Option<&ReferenceTableFolder>)
        ensures
            r is Some <==> has_folder(self@.folders, id),
            r matches Some(f) ==> exists|k: int|
                first_with_id(self@.folders, id, k) && f@ == self@.folders[k],
    {
        match self.position(id) {
            Some(k) => Some(&self.folders[k]),
            None => None,
        }
    }

    /// The folder with id `id`, to change it in place.
    pub fn lookup_mut(&mut self, id: i32) -> (r: Option<&mut ReferenceTableFolder>)
        ensures
            r is Some <==> has_folder(old(self)@.folders, id),
            r is None ==> final(self)@ == old(self)@,
            r matches Some(f) ==> exists|k: int|
                first_with_id(old(self)@.folders, id, k) && f@ == old(self)@.folders[k]
                    && final(self)@ == (TableView {
                    folders: old(self)@.folders.update(k, final(f)@),
                    ..old(self)@
                }),
    {
        match self.position(id) {
            Some(k) => {
                let ghost before = self.folders@;
                let f = &mut self.folders[k];
                proof {
                    lemma_update_view(before, k as int, *final(f));
                }
                Some(f)
            },
            None => None,
        }
    }

    /// Where the first folder with id `id` stands.
    fn position(&self, id: i32) -> (r: Option<usize>)
        ensures
            r is Some <==> has_folder(self@.folders, id),
            r matches Some(k) ==> first_with_id(self@.folders, id, k as int),
    {
        let mut i: usize = 0;
        while i < self.folders.len()
            invariant
                i <= self.folders@.len(),
                forall|j: int| 0 <= j < i ==> self@.folders[j].id != id,
            decreases self.folders@.len() - i,
        {
            assert(self@.folders[i as int] == self.folders@[i as int]@);
            if self.folders[i].id == id {
                return Some(i);
            }
            i = i + 1;
        }
        None
    }

    /// The largest folder id, or 0 where there is none larger.
    pub fn last_id(&self) -> (r: i32)
        ensures
            r == max_id(self@.folders),
    {
        let mut last_id: i32 = 0;
        let mut i: usize = 0;
        while i < self.folders.len()
            invariant
                i <= self.folders@.len(),
                last_id == max_id(self@.folders.take(i as int)),
            decreases self.folders@.len() - i,
        {
            assert(self@.folders.take(i + 1).drop_last() =~= self@.folders.take(i as int));
            if self.folders[i].id > last_id {
                last_id = self.folders[i].id;
            }
            i = i + 1;
        }
        assert(self@.folders.take(i as int) =~= self@.folders);
        last_id
    }
}

proof fn lemma_update_view(s: Seq<ReferenceTableFolder>, k: int, x: ReferenceTableFolder)
    requires
        0 <= k < s.len(),
    ensures
        s.update(k, x).map_values(|f: ReferenceTableFolder| f@) == s.map_values(
            |f: ReferenceTableFolder| f@,
        ).update(k, x@),
{
    assert(s.update(k, x).map_values(|f: ReferenceTableFolder| f@) =~= s.map_values(
        |f: ReferenceTableFolder| f@,
    ).update(k, x@));
}

/// Whether the folders' ids, and the file ids within each folder, are
/// strictly increasing.
pub open spec fn ids_increasing(t: TableView) -> bool {
    &&& forall|i: int, j: int| 0 <= i < j < t.folders.len() ==> t.folders[i].id < t.folders[j].id
    &&& forall|k: int, i: int, j: int|
        0 <= k < t.folders.len() && 0 <= i < j < t.folders[k].files.len()
            ==> t.folders[k].files[i].id < t.folders[k].files[j].id
}

/// In a decoded table the folder ids are the running sums of the folder-id
/// delta stream, which never resets; the file ids of each folder are the
/// running sums of that folder's own delta stream, which starts again at
/// zero; and so both are strictly increasing.
pub proof fn lemma_ids_are_prefix_sums(s: Seq<u8>)
    requires
        table_valid(s),
    ensures
        table_of(s).folders.len() == folder_count(s),
        forall|k: int|
            0 <= k < folder_count(s) ==> table_of(s).folders[k].id as int == total(
                folder_deltas(s).take(k + 1),
            ),
        forall|k: int|
            0 <= k < folder_count(s) ==> table_of(s).folders[k].files.len() == file_counts(
                s,
            )[k],
        forall|k: int, j: int|
            0 <= k < folder_count(s) && 0 <= j < table_of(s).folders[k].files.len()
                ==> table_of(s).folders[k].files[j].id as int == total(
                file_deltas(s, k as nat).take(j + 1),
            ),
        ids_increasing(table_of(s)),
{
    let n = folder_count(s);
    let v7 = is_v7(s);
    lemma_vars_len(s, folder_ids_pos(s), n, v7);
    lemma_vars_len(s, counts_pos(s), n, v7);
    lemma_ids_of_valid(folder_deltas(s));
    assert forall|k: int| 0 <= k < n implies {
        &&& table_of(s).folders[k].files.len() == file_counts(s)[k]
        &&& forall|j: int|
            0 <= j < table_of(s).folders[k].files.len()
                ==> table_of(s).folders[k].files[j].id as int == total(
                file_deltas(s, k as nat).take(j + 1),
            )
        &&& forall|i: int, j: int|
            0 <= i < j < table_of(s).folders[k].files.len()
                ==> table_of(s).folders[k].files[i].id < table_of(s).folders[k].files[j].id
    } by {
        assert(ids_valid(file_deltas(s, k as nat)));
        lemma_vars_len(s, file_ids_pos(s, k as nat), file_counts(s)[k] as nat, v7);
        lemma_ids_of_valid(file_deltas(s, k as nat));
    }
}

/// Whether a folder with id `id` is among `folders`.
pub open spec fn has_folder(folders: Seq<FolderView>, id: i32) -> bool {
    exists|k: int| 0 <= k < folders.len() && folders[k].id == id
}

/// Whether `k` is the first place among `folders` of a folder with id `id`.
pub open spec fn first_with_id(folders: Seq<FolderView>, id: i32, k: int) -> bool {
    &&& 0 <= k < folders.len()
    &&& folders[k].id == id
    &&& forall|j: int| 0 <= j < k ==> folders[j].id != id
}

/// The largest id among `folders`, and 0 where none is larger.
pub open spec fn max_id(folders: Seq<FolderView>) -> i32
    decreases folders.len(),
{
    if folders.len() == 0 {
        0
    } else {
        let m = max_id(folders.drop_last());
        if folders.last().id > m {
            folders.last().id
        } else {
            m
        }
    }
}

} // verus!
