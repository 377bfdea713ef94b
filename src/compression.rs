//! Entry payloads: the nine-byte header and the codecs behind it.
use vstd::prelude::*;
use std::io::Read;
use flate2::read::GzDecoder;
use bzip2::read::BzDecoder;
use crate::bytes::be32;
use crate::filesystem::{codec_of, CompressionType, FsError, ENTRY_HEADER_SIZE};

verus! {

/// The first `n` bytes that the gzip stream `stream` decodes to, or `None`
/// where it is corrupt or decodes to fewer bytes.
pub uninterp spec fn gunzip_prefix(stream: Seq<u8>, n: nat) -> Option<Seq<u8>>;

/// The first `n` bytes that the bzip2 stream `stream` decodes to, or `None`
/// where it is corrupt or decodes to fewer bytes.
pub uninterp spec fn bunzip2_prefix(stream: Seq<u8>, n: nat) -> Option<Seq<u8>>;

/// Relies on flate2's `read::GzDecoder` read to exactly `n` bytes: the result
/// depends on the stream alone, and a successful read fills all `n` bytes.
#[verifier::external_body]
fn gunzip(stream: &[u8], n: usize) -> (r: Option<Vec<u8>>)
    ensures
        r matches Some(v) ==> gunzip_prefix(stream@, n as nat) == Some(v@) && v@.len() == n,
        r is None ==> gunzip_prefix(stream@, n as nat) is None,
{
    let mut out = vec![0u8; n];
    match GzDecoder::new(stream).read_exact(&mut out) {
        Ok(()) => Some(out),
        Err(_) => None,
    }
}

/// Relies on bzip2's `read::BzDecoder` read to exactly `n` bytes: the result
/// depends on the stream alone, and a successful read fills all `n` bytes.
#[verifier::external_body]
fn bunzip2(stream: &[u8], n: usize) -> (r: Option<Vec<u8>>)
    ensures
        r matches Some(v) ==> bunzip2_prefix(stream@, n as nat) == Some(v@) && v@.len() == n,
        r is None ==> bunzip2_prefix(stream@, n as nat) is None,
{
    let mut out = vec![0u8; n];
    match BzDecoder::new(stream).read_exact(&mut out) {
        Ok(()) => Some(out),
        Err(_) => None,
    }
}

/// The magic that bzip2 streams start with and that the archive leaves out:
/// "BZh1".
pub open spec fn bzip2_magic() -> Seq<u8> {
    seq![66u8, 90u8, 104u8, 49u8]
}

/// The bzip2 stream of payload `p`: its body after the entry header, behind
/// the magic that the archive leaves out.
pub open spec fn bzip2_stream_of(p: Seq<u8>) -> Seq<u8> {
    bzip2_magic() + p.subrange(9, p.len() as int)
}

/// What a decoder turns an optional result into.
pub open spec fn codec_result(r: Option<Seq<u8>>) -> Result<Seq<u8>, FsError> {
    match r {
        Some(v) => Ok(v),
        None => Err(FsError::CorruptedData),
    }
}

/// The contents of an entry whose reassembled payload is `p`.
///
/// An uncompressed entry holds the `raw_size` bytes that follow the codec tag
/// and the raw size; a compressed one holds the `real_size` bytes that its
/// stream, after the nine-byte header, decodes to.
pub open spec fn decompressed(p: Seq<u8>) -> Result<Seq<u8>, FsError> {
    if p.len() < 5 {
        Err(FsError::CorruptedData)
    } else {
        let raw = be32(p, 1);
        match codec_of(p[0]) {
            CompressionType::Uncompressed => {
                if 5 + raw <= p.len() {
                    Ok(p.subrange(5, 5 + raw))
                } else {
                    Err(FsError::CorruptedData)
                }
            },
            CompressionType::Lzma => Err(FsError::UnsupportedCompression),
            CompressionType::Gzip => {
                if p.len() < 9 {
                    Err(FsError::CorruptedData)
                } else if be32(p, 5) == 0 {
                    Ok(Seq::empty())
                } else {
                    codec_result(gunzip_prefix(p.subrange(9, p.len() as int), be32(p, 5) as nat))
                }
            },
            CompressionType::Bzip2 => {
                if p.len() < 9 {
                    Err(FsError::CorruptedData)
                } else if be32(p, 5) == 0 {
                    Ok(Seq::empty())
                } else {
                    codec_result(bunzip2_prefix(bzip2_stream_of(p), be32(p, 5) as nat))
                }
            },
        }
    }
}

/// An uncompressed entry is its header's codec tag and raw size followed by
/// its contents, bit for bit: writing the contents back behind those five
/// bytes gives the payload up to the end of its raw data.
pub proof fn lemma_uncompressed_round_trip(p: Seq<u8>)
    requires
        p.len() >= 5,
        codec_of(p[0]) == CompressionType::Uncompressed,
        decompressed(p) is Ok,
    ensures
        p.subrange(0, 5) + decompressed(p)->Ok_0 == p.subrange(0, 5 + be32(p, 1)),
        decompressed(p)->Ok_0.len() == be32(p, 1),
{
    assert(p.subrange(0, 5) + decompressed(p)->Ok_0 =~= p.subrange(0, 5 + be32(p, 1)));
}

/// Restores the bzip2 magic over the real size of a payload that holds a
/// whole entry header, so that the stream starts at byte 5.
pub fn patch_bzip2_magic(payload: &mut Vec<u8>)
    requires
        old(payload)@.len() >= 9,
    ensures
        final(payload)@.len() == old(payload)@.len(),
        final(payload)@.subrange(5, final(payload)@.len() as int) == bzip2_stream_of(old(payload)@),
{
    let ghost p = payload@;
    payload[5] = 66u8;
    payload[6] = 90u8;
    payload[7] = 104u8;
    payload[8] = 49u8;
    assert(payload@.subrange(5, payload@.len() as int) =~= bzip2_stream_of(p));
}

/// Turns a reassembled entry payload into the entry's contents.
pub fn decompress(payload: Vec<u8>) -> (r: Result<Vec<u8>, FsError>)
    ensures
        match decompressed(payload@) {
            Ok(v) => r is Ok && r->Ok_0@ == v,
            Err(e) => r == Err::<Vec<u8>, FsError>(e),
        },
{
    let mut payload = payload;
    let len = payload.len();
    if len < 5 {
        return Err(FsError::CorruptedData);
    }
    let raw: u32 = (payload[1] as u32) * 16777216 + (payload[2] as u32) * 65536
        + (payload[3] as u32) * 256 + (payload[4] as u32);
    let codec = CompressionType::from_code(payload[0]);
    match codec {
        CompressionType::Uncompressed => {
            if raw as usize > len - 5 {
                return Err(FsError::CorruptedData);
            }
            let end: usize = 5 + raw as usize;
            let mut out: Vec<u8> = Vec::new();
            let mut i: usize = 5;
            while i < end
                invariant
                    5 <= i <= end,
                    end <= payload@.len(),
                    out@ == payload@.subrange(5, i as int),
                decreases end - i,
            {
                out.push(payload[i]);
                i += 1;
                assert(out@ =~= payload@.subrange(5, i as int));
            }
            Ok(out)
        },
        CompressionType::Lzma => Err(FsError::UnsupportedCompression),
        CompressionType::Gzip | CompressionType::Bzip2 => {
            if len < ENTRY_HEADER_SIZE {
                return Err(FsError::CorruptedData);
            }
            let real_size: u32 = (payload[5] as u32) * 16777216 + (payload[6] as u32) * 65536
                + (payload[7] as u32) * 256 + (payload[8] as u32);
            if real_size == 0 {
                return Ok(Vec::new());
            }
            let decoded = if codec == CompressionType::Gzip {
                let stream = vstd::slice::slice_subrange(payload.as_slice(), ENTRY_HEADER_SIZE, len);
                gunzip(stream, real_size as usize)
            } else {
                patch_bzip2_magic(&mut payload);
                let stream = vstd::slice::slice_subrange(payload.as_slice(), 5, len);
                bunzip2(stream, real_size as usize)
            };
            match decoded {
                Some(v) => Ok(v),
                None => Err(FsError::CorruptedData),
            }
        },
    }
}

} // verus!
