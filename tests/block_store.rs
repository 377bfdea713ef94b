use cache_fs::compression::{decompress, patch_bzip2_magic};
use cache_fs::filesystem::{
    BlockHeader, CompressionType, EntryHeader, IndexEntry, IndexFile, BLOCK_SIZE,
};
use cache_fs::{FileSystem, FsError, MainFile};
use std::io::Write;

#[test]
fn it_works() {}

/// A data file of `blocks` zeroed blocks.
fn data_file(blocks: usize) -> Vec<u8> {
    vec![0u8; blocks * BLOCK_SIZE as usize]
}

/// Writes `header` then `payload` into block `block` of `data`.
fn put_block(data: &mut Vec<u8>, block: usize, header: &[u8], payload: &[u8]) {
    let start = block * 520;
    data[start..start + header.len()].copy_from_slice(header);
    let p = start + header.len();
    data[p..p + payload.len()].copy_from_slice(payload);
}

/// An index file whose record `id` holds `size` and `first_block`.
fn index_with(index: u32, id: u32, size: u32, first_block: u32) -> IndexFile {
    let mut bytes = vec![0u8; (id as usize + 1) * 6];
    let p = id as usize * 6;
    bytes[p..p + 3].copy_from_slice(&size.to_be_bytes()[1..]);
    bytes[p + 3..p + 6].copy_from_slice(&first_block.to_be_bytes()[1..]);
    IndexFile::new(index, bytes)
}

fn pattern(n: usize, seed: u8) -> Vec<u8> {
    (0..n).map(|i| (i as u8).wrapping_add(seed)).collect()
}

/// Stores `payload` as entry `id` of index `index` in blocks that start at
/// `first`, each linked to the next one.
fn store(data: &mut Vec<u8>, index: u8, id: u32, first: usize, payload: &[u8]) {
    let big = id > 0xFFFF;
    let room = if big { 510 } else { 512 };
    for (seq, chunk) in payload.chunks(room).enumerate() {
        let block = first + seq;
        let next = (block + 1) as u32;
        let mut h = Vec::new();
        if big {
            h.extend_from_slice(&id.to_be_bytes());
        } else {
            h.extend_from_slice(&(id as u16).to_be_bytes());
        }
        h.extend_from_slice(&(seq as u16).to_be_bytes());
        h.extend_from_slice(&next.to_be_bytes()[1..]);
        h.push(index);
        put_block(data, block, &h, chunk);
    }
}

#[test]
fn small_form_single_block() {
    let mut data = data_file(4);
    put_block(&mut data, 3, &[0, 7, 0, 0, 0, 0, 0, 0], &pattern(100, 0));
    let main = MainFile::new(Some(data));
    let entry = index_with(0, 7, 100, 3).entry(7).unwrap();
    assert_eq!(entry.size(), 100);
    assert_eq!(entry.block(), 3);
    assert_eq!(entry.offset(), 3 * 520);
    assert_eq!(main.read_entry(entry).unwrap(), pattern(100, 0));
}

fn multi_block_file() -> Vec<u8> {
    let mut data = data_file(12);
    put_block(&mut data, 10, &[0, 5, 0, 0, 0, 0, 0x0B, 2], &pattern(512, 0));
    put_block(&mut data, 11, &[0, 5, 0, 1, 0, 0, 0, 2], &pattern(512, 0));
    data
}

#[test]
fn small_form_multi_block() {
    let main = MainFile::new(Some(multi_block_file()));
    let entry = index_with(2, 5, 1024, 10).entry(5).unwrap();
    let mut expected = pattern(512, 0);
    expected.extend(pattern(512, 0));
    assert_eq!(main.read_entry(entry).unwrap(), expected);
}

#[test]
fn bad_sequence_on_inner_block_fails() {
    let mut data = multi_block_file();
    data[10 * 520 + 3] = 2;
    let main = MainFile::new(Some(data));
    let entry = index_with(2, 5, 1024, 10).entry(5).unwrap();
    assert_eq!(main.read_entry(entry).unwrap_err(), FsError::MalformedDataSequence);
}

#[test]
fn bad_index_on_inner_block_fails() {
    let mut data = multi_block_file();
    data[10 * 520 + 7] = 3;
    let main = MainFile::new(Some(data));
    let entry = index_with(2, 5, 1024, 10).entry(5).unwrap();
    assert_eq!(main.read_entry(entry).unwrap_err(), FsError::MalformedDataSequence);
}

#[test]
fn bad_entry_id_on_inner_block_fails() {
    let mut data = multi_block_file();
    data[10 * 520 + 1] = 6;
    let main = MainFile::new(Some(data));
    let entry = index_with(2, 5, 1024, 10).entry(5).unwrap();
    assert_eq!(main.read_entry(entry).unwrap_err(), FsError::MalformedDataSequence);
}

#[test]
fn final_block_linkage_is_not_checked() {
    let mut data = multi_block_file();
    data[11 * 520 + 3] = 2;
    data[11 * 520 + 7] = 9;
    let main = MainFile::new(Some(data));
    let entry = index_with(2, 5, 1024, 10).entry(5).unwrap();
    assert_eq!(main.read_entry(entry).unwrap().len(), 1024);
}

#[test]
fn large_form_entry() {
    let mut data = data_file(44);
    put_block(&mut data, 42, &[0, 1, 0x11, 0x70, 0, 0, 0, 0, 0x2B, 5], &pattern(510, 1));
    put_block(&mut data, 43, &[0, 1, 0x11, 0x70, 0, 1, 0, 0, 0, 5], &pattern(90, 2));
    let main = MainFile::new(Some(data));
    let entry = index_with(5, 70000, 600, 42).entry(70000).unwrap();
    let mut expected = pattern(510, 1);
    expected.extend(pattern(90, 2));
    let got = main.read_entry(entry).unwrap();
    assert_eq!(got.len(), 600);
    assert_eq!(got, expected);
}

#[test]
fn id_ffff_uses_small_form() {
    let mut data = data_file(2);
    let payload = pattern(700, 3);
    store(&mut data, 1, 0xFFFF, 0, &payload);
    assert_eq!(data[520 + 2..520 + 4], [0, 1]);
    let main = MainFile::new(Some(data));
    let entry = index_with(1, 0xFFFF, 700, 0).entry(0xFFFF).unwrap();
    assert_eq!(main.read_entry(entry).unwrap(), payload);
}

#[test]
fn id_10000_uses_large_form() {
    let mut data = data_file(2);
    let payload = pattern(700, 4);
    store(&mut data, 1, 0x10000, 0, &payload);
    assert_eq!(data[520 + 4..520 + 6], [0, 1]);
    let main = MainFile::new(Some(data));
    let entry = index_with(1, 0x10000, 700, 0).entry(0x10000).unwrap();
    assert_eq!(main.read_entry(entry).unwrap(), payload);
}

#[test]
fn size_on_block_boundary_reads_no_extra_block() {
    // Two full blocks and nothing after them in the file.
    let mut data = data_file(2);
    let payload = pattern(1024, 5);
    store(&mut data, 0, 9, 0, &payload);
    let main = MainFile::new(Some(data));
    let entry = index_with(0, 9, 1024, 0).entry(9).unwrap();
    assert_eq!(main.read_entry(entry).unwrap(), payload);
}

#[test]
fn missing_block_is_malformed() {
    let main = MainFile::new(Some(data_file(1)));
    let entry = index_with(0, 1, 600, 0).entry(1).unwrap();
    assert_eq!(main.read_entry(entry).unwrap_err(), FsError::MalformedDataSequence);
}

#[test]
fn absent_data_file_has_no_handle() {
    let main = MainFile::new(None);
    let entry = index_with(0, 1, 10, 0).entry(1).unwrap();
    assert!(!main.file_exists());
    assert_eq!(main.read_entry(entry).unwrap_err(), FsError::NoFileHandle);
    assert_eq!(main.read_decompressed(entry).unwrap_err(), FsError::NoFileHandle);
    assert!(main.read_header(entry).is_none());
    assert!(main.read_block(0).is_none());
    assert_eq!(main.num_blocks(), None);
}

#[test]
fn empty_index_file() {
    let index = IndexFile::new(3, Vec::new());
    assert_eq!(index.last_entry(), 0);
    assert!(index.entry(0).is_none());
    assert!(index.entry(12345).is_none());
}

#[test]
fn every_counted_record_is_present() {
    let mut bytes = vec![0u8; 20];
    bytes[6..12].copy_from_slice(&[0, 1, 2, 0, 0, 9]);
    let index = IndexFile::new(4, bytes);
    assert_eq!(index.last_entry(), 3);
    for k in 0..3 {
        assert!(index.entry(k).is_some());
    }
    assert!(index.entry(3).is_none());
    let e = index.entry(1).unwrap();
    assert_eq!(e.index(), 4);
    assert_eq!(e.id(), 1);
    assert_eq!(e.size(), 258);
    assert_eq!(e.offset(), 9 * 520);
    let zero = index.entry(0).unwrap();
    assert_eq!(zero.size(), 0);
    assert_eq!(zero.offset(), 0);
}

#[test]
fn read_length_matches_size() {
    for size in [1usize, 9, 511, 512, 513, 2000] {
        let mut data = data_file(4);
        let payload = pattern(size, 6);
        store(&mut data, 2, 77, 0, &payload);
        let main = MainFile::new(Some(data));
        let entry = index_with(2, 77, size as u32, 0).entry(77).unwrap();
        assert_eq!(main.read_entry(entry).unwrap().len(), size);
    }
}

#[test]
fn read_block_and_counts() {
    let mut data = data_file(2);
    data.push(1);
    data[520] = 42;
    let main = MainFile::new(Some(data));
    assert_eq!(main.num_blocks(), Some(3));
    assert_eq!(main.read_block(1).unwrap()[0], 42);
    assert!(main.read_block(2).is_none());
    assert_eq!(main.file().unwrap().len(), 1041);
}

#[test]
fn header_parsing() {
    let h = EntryHeader::from_bytes([2, 0, 0, 0, 0x14, 0, 0, 1, 0x32]);
    assert_eq!(h.compression, CompressionType::Gzip);
    assert_eq!(h.raw_size, 20);
    assert_eq!(h.real_size, 0x132);
    assert_eq!(CompressionType::from_code(0), CompressionType::Uncompressed);
    assert_eq!(CompressionType::from_code(1), CompressionType::Bzip2);
    assert_eq!(CompressionType::from_code(3), CompressionType::Lzma);
    assert_eq!(CompressionType::from_code(200), CompressionType::Uncompressed);
}

#[test]
fn block_header_parsing() {
    let mut block = [0u8; 520];
    block[..10].copy_from_slice(&[0, 1, 0x11, 0x70, 0, 3, 0, 0, 0x2B, 5]);
    let big: BlockHeader = BlockHeader::from_block(true, block);
    assert!(big.big);
    assert_eq!(big.entry_id, 70000);
    assert_eq!(big.next_seq, 3);
    assert_eq!(big.next_block, 43);
    assert_eq!(big.index_id, 5);
    let small = BlockHeader::from_block(false, block);
    assert!(!small.big);
    assert_eq!(small.entry_id, 1);
    assert_eq!(small.next_seq, 0x1170);
    assert_eq!(small.next_block, 0x300);
    assert_eq!(small.index_id, 0);
}

#[test]
fn read_header_of_entry() {
    let mut data = data_file(1);
    put_block(&mut data, 0, &[0, 1, 0, 0, 0, 0, 0, 0], &[1, 0, 0, 0, 16, 0, 0, 0, 40]);
    let main = MainFile::new(Some(data));
    let entry = index_with(0, 1, 25, 0).entry(1).unwrap();
    let h = main.read_header(entry).unwrap();
    assert_eq!(h.compression, CompressionType::Bzip2);
    assert_eq!(h.raw_size, 16);
    assert_eq!(h.real_size, 40);
}

/// A main file that holds `payload` as entry 1 of index 0.
fn stored(payload: &[u8]) -> (MainFile, IndexEntry) {
    let blocks = payload.len() / 512 + 1;
    let mut data = data_file(blocks);
    store(&mut data, 0, 1, 0, payload);
    let entry = index_with(0, 1, payload.len() as u32, 0).entry(1).unwrap();
    (MainFile::new(Some(data)), entry)
}

const ALPHABET: &[u8] = b"ABCDEFGHIJKLMNOPQRSTUVWXYZabcdefghijklmnopqrstuvwx";

#[test]
fn gzip_entry() {
    let mut enc = flate2::write::GzEncoder::new(Vec::new(), flate2::Compression::default());
    enc.write_all(ALPHABET).unwrap();
    let stream = enc.finish().unwrap();
    let mut payload = vec![2u8];
    payload.extend_from_slice(&(stream.len() as u32).to_be_bytes());
    payload.extend_from_slice(&50u32.to_be_bytes());
    payload.extend_from_slice(&stream);
    let (main, entry) = stored(&payload);
    assert_eq!(main.read_decompressed(entry).unwrap(), ALPHABET.to_vec());
}

fn bzip2_payload(contents: &[u8]) -> Vec<u8> {
    let mut enc = bzip2::write::BzEncoder::new(Vec::new(), bzip2::Compression::new(1));
    enc.write_all(contents).unwrap();
    let stream = enc.finish().unwrap();
    assert_eq!(&stream[..4], b"BZh1");
    let body = &stream[4..];
    let mut payload = vec![1u8];
    payload.extend_from_slice(&(body.len() as u32).to_be_bytes());
    payload.extend_from_slice(&(contents.len() as u32).to_be_bytes());
    payload.extend_from_slice(body);
    payload
}

#[test]
fn bzip2_entry_without_magic() {
    let contents = &ALPHABET[..40];
    let payload = bzip2_payload(contents);
    assert_eq!(&payload[..9], &[1, 0, 0, 0, (payload.len() - 9) as u8, 0, 0, 0, 0x28]);
    let (main, entry) = stored(&payload);
    assert_eq!(main.read_decompressed(entry).unwrap(), contents.to_vec());
}

#[test]
fn bzip2_magic_is_patched() {
    let mut payload = vec![1u8, 0, 0, 0, 1, 0, 0, 0, 7, 9, 8];
    patch_bzip2_magic(&mut payload);
    assert_eq!(payload, vec![1u8, 0, 0, 0, 1, b'B', b'Z', b'h', b'1', 9, 8]);
}

#[test]
fn uncompressed_entry_is_bit_exact() {
    let body = pattern(30, 7);
    let mut payload = vec![0u8, 0, 0, 0, 30];
    payload.extend_from_slice(&body);
    payload.extend_from_slice(&[0xEE; 4]);
    let (main, entry) = stored(&payload);
    let out = main.read_decompressed(entry).unwrap();
    assert_eq!(out, body);
    let mut back = payload[..5].to_vec();
    back.extend_from_slice(&out);
    assert_eq!(back, payload[..35].to_vec());
}

#[test]
fn compressed_round_trip() {
    let contents = pattern(3000, 9);
    let mut enc = flate2::write::GzEncoder::new(Vec::new(), flate2::Compression::best());
    enc.write_all(&contents).unwrap();
    let stream = enc.finish().unwrap();
    let mut payload = vec![2u8];
    payload.extend_from_slice(&(stream.len() as u32).to_be_bytes());
    payload.extend_from_slice(&3000u32.to_be_bytes());
    payload.extend_from_slice(&stream);
    assert_eq!(decompress(payload).unwrap(), contents);
    assert_eq!(decompress(bzip2_payload(&contents)).unwrap(), contents);
}

#[test]
fn decompression_errors() {
    assert_eq!(decompress(vec![2, 0, 0]).unwrap_err(), FsError::CorruptedData);
    assert_eq!(decompress(vec![0, 0, 0, 0, 9, 1]).unwrap_err(), FsError::CorruptedData);
    assert_eq!(
        decompress(vec![3, 0, 0, 0, 1, 0, 0, 0, 1, 0]).unwrap_err(),
        FsError::UnsupportedCompression
    );
    assert_eq!(
        decompress(vec![2, 0, 0, 0, 3, 0, 0, 0, 5, 1, 2, 3]).unwrap_err(),
        FsError::CorruptedData
    );
    assert_eq!(
        decompress(vec![1, 0, 0, 0, 3, 0, 0, 0, 5, 1, 2, 3]).unwrap_err(),
        FsError::CorruptedData
    );
    assert_eq!(decompress(vec![2, 0, 0, 0, 3, 0, 0, 0, 0, 1, 2, 3]).unwrap(), Vec::<u8>::new());
    assert_eq!(decompress(vec![2, 0, 0, 0, 0, 0, 0, 0]).unwrap_err(), FsError::CorruptedData);
}

#[test]
fn filesystem_indices() {
    let mut fs = FileSystem::new(MainFile::new(Some(data_file(1))));
    assert!(fs.index(0).is_none());
    fs.add_index(IndexFile::new(0, vec![0u8; 12]));
    fs.add_index(IndexFile::new(255, vec![0u8; 6]));
    assert_eq!(fs.index(0).unwrap().last_entry(), 2);
    assert_eq!(fs.index(255).unwrap().id(), 255);
    assert!(fs.index(1).is_none());
    assert!(fs.mainfile().file_exists());
}

#[test]
fn error_descriptions() {
    assert_eq!(FsError::CorruptedData.description(), "the data was corrupt");
    assert_eq!(
        FsError::MalformedDataSequence.description(),
        "the data sequence did not complete correctly"
    );
}
