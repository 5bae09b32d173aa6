use rda::decode::DecodeError;
use rda::filesystem::{RDANode, TreeError};
use rda::loader::{load_rda, LoaderError};
use std::io::Write;

const FLAG_COMPRESSED: u32 = 1;
const FLAG_ENCRYPTED: u32 = 2;
const FLAG_CONTIGUOUS: u32 = 4;
const FLAG_DELETED: u32 = 8;

const MAGIC: &[u8; 18] = b"Resource File V2.2";
const FIRST_BLOCK: i64 = 792;

const KEY: [u8; 8] = [0xa8, 0x73, 0x1f, 0xc4, 0x5e, 0x92, 0x0b, 0xd6];

fn xor(data: &[u8]) -> Vec<u8> {
    data.iter()
        .enumerate()
        .map(|(i, b)| b ^ KEY[i % 8])
        .collect()
}

fn zlib(data: &[u8]) -> Vec<u8> {
    let mut e = flate2::write::ZlibEncoder::new(Vec::new(), flate2::Compression::default());
    e.write_all(data).unwrap();
    e.finish().unwrap()
}

/// The 792-byte preamble: magic, padding, first-block offset at byte 784.
fn preamble(first: i64) -> Vec<u8> {
    let mut v = vec![0u8; 792];
    v[..18].copy_from_slice(MAGIC);
    v[784..792].copy_from_slice(&first.to_le_bytes());
    v
}

fn file_header(flags: u32, content_offset: i64, csize: i64, usize_decl: i64, path: &[&str]) -> Vec<u8> {
    let mut h = Vec::new();
    h.extend_from_slice(&flags.to_le_bytes());
    h.extend_from_slice(&content_offset.to_le_bytes());
    h.extend_from_slice(&csize.to_le_bytes());
    h.extend_from_slice(&usize_decl.to_le_bytes());
    h.extend_from_slice(&(path.len() as u32).to_le_bytes());
    for c in path {
        h.extend_from_slice(&(c.len() as u32).to_le_bytes());
        h.extend_from_slice(c.as_bytes());
    }
    h
}

fn block_header(flags: u32, num_files: u32, chs: i64, uhs: i64, next: i64) -> Vec<u8> {
    let mut h = Vec::new();
    h.extend_from_slice(&flags.to_le_bytes());
    h.extend_from_slice(&num_files.to_le_bytes());
    h.extend_from_slice(&chs.to_le_bytes());
    h.extend_from_slice(&uhs.to_le_bytes());
    h.extend_from_slice(&next.to_le_bytes());
    h
}

/// One block at offset 792 whose payloads stand in a contiguous data
/// section; each entry is (file flags, path, stored payload bytes, declared
/// uncompressed size).
fn one_block_archive(block_flags: u32, entries: &[(u32, Vec<&str>, Vec<u8>, i64)]) -> Vec<u8> {
    let mut hdrs = Vec::new();
    let mut payloads = Vec::new();
    for (flags, path, stored, usize_decl) in entries {
        let content_offset = payloads.len() as i64;
        hdrs.extend(file_header(
            *flags,
            content_offset,
            stored.len() as i64,
            *usize_decl,
            path,
        ));
        payloads.extend_from_slice(stored);
    }
    let (section, chs, uhs) = if block_flags & FLAG_COMPRESSED != 0 {
        let packed = zlib(&hdrs);
        let lens = (packed.len() as i64, hdrs.len() as i64);
        (packed, lens.0, lens.1)
    } else {
        let lens = (hdrs.len() as i64, hdrs.len() as i64);
        (hdrs, lens.0, lens.1)
    };
    let mut v = preamble(FIRST_BLOCK);
    v.extend(block_header(block_flags | FLAG_CONTIGUOUS, entries.len() as u32, chs, uhs, -1));
    v.extend(section);
    v.extend(payloads);
    v
}

fn lookup_content(fs: &rda::filesystem::RDAFileSystem, path: &[&str]) -> Vec<u8> {
    let root = match &fs.root {
        RDANode::Directory(d) => d,
        _ => panic!("root must be a directory"),
    };
    let owned: Vec<String> = path.iter().map(|s| s.to_string()).collect();
    match root.lookup(&owned).expect("path must resolve") {
        RDANode::File(f) => f.content.clone(),
        _ => panic!("expected a file"),
    }
}

#[test]
fn magic_mismatch_rejected() {
    let mut v = preamble(FIRST_BLOCK);
    v[0] = b'X';
    assert_eq!(load_rda(&v), Err(LoaderError::FileFormatError(0)));
}

#[test]
fn truncated_input_rejected() {
    let v = b"Resource File".to_vec();
    assert_eq!(load_rda(&v), Err(LoaderError::FileFormatError(0)));
}

#[test]
fn short_archive_rejected_at_offset_field() {
    let mut v = preamble(FIRST_BLOCK);
    v.truncate(100);
    assert_eq!(load_rda(&v), Err(LoaderError::FileFormatError(784)));
}

#[test]
fn bad_first_offset_is_chain_error() {
    let v = preamble(1_000_000);
    assert_eq!(load_rda(&v), Err(LoaderError::ChainIntegrityError(1_000_000)));
    let v = preamble(-5);
    assert_eq!(load_rda(&v), Err(LoaderError::ChainIntegrityError(-5)));
}

#[test]
fn self_pointing_chain_terminates() {
    let mut v = preamble(FIRST_BLOCK);
    v.extend(block_header(0, 0, 0, 0, FIRST_BLOCK));
    let r = load_rda(&v);
    assert!(r.is_ok());
}

#[test]
fn negative_next_offset_ends_chain() {
    let mut v = preamble(FIRST_BLOCK);
    v.extend(block_header(0, 0, 0, 0, -1));
    assert!(load_rda(&v).is_ok());
}

#[test]
fn plain_file_round_trip() {
    let content = b"hello, world".to_vec();
    let v = one_block_archive(
        0,
        &[(0, vec!["dir", "hello.txt"], content.clone(), content.len() as i64)],
    );
    let fs = load_rda(&v).unwrap();
    assert_eq!(lookup_content(&fs, &["dir", "hello.txt"]), content);
}

#[test]
fn compressed_file_round_trip() {
    let content = b"a compressible payload: aaaaaaaaaaaaaaaaaaaaaaaaaaaaaaaa".to_vec();
    let stored = zlib(&content);
    assert_ne!(stored, content);
    let v = one_block_archive(
        0,
        &[(FLAG_COMPRESSED, vec!["c.bin"], stored, content.len() as i64)],
    );
    let fs = load_rda(&v).unwrap();
    assert_eq!(lookup_content(&fs, &["c.bin"]), content);
}

#[test]
fn encrypted_file_round_trip() {
    let content = b"secret bytes".to_vec();
    let stored = xor(&content);
    assert_ne!(stored, content);
    let v = one_block_archive(
        0,
        &[(FLAG_ENCRYPTED, vec!["e.bin"], stored, content.len() as i64)],
    );
    let fs = load_rda(&v).unwrap();
    assert_eq!(lookup_content(&fs, &["e.bin"]), content);
}

#[test]
fn encrypted_compressed_file_round_trip() {
    let content = b"both transforms run here, compression first when writing".to_vec();
    let stored = xor(&zlib(&content));
    let v = one_block_archive(
        0,
        &[(
            FLAG_ENCRYPTED | FLAG_COMPRESSED,
            vec!["b.bin"],
            stored,
            content.len() as i64,
        )],
    );
    let fs = load_rda(&v).unwrap();
    assert_eq!(lookup_content(&fs, &["b.bin"]), content);
}

#[test]
fn compressed_header_section_round_trip() {
    let content = b"headers packed as one zlib unit".to_vec();
    let v = one_block_archive(
        FLAG_COMPRESSED,
        &[(0, vec!["inner", "f.txt"], content.clone(), content.len() as i64)],
    );
    let fs = load_rda(&v).unwrap();
    assert_eq!(lookup_content(&fs, &["inner", "f.txt"]), content);
}

#[test]
fn deleted_entry_skipped() {
    let content = b"gone".to_vec();
    let kept = b"kept".to_vec();
    let v = one_block_archive(
        0,
        &[
            (FLAG_DELETED, vec!["gone.txt"], content, 4),
            (0, vec!["kept.txt"], kept.clone(), 4),
        ],
    );
    let fs = load_rda(&v).unwrap();
    assert_eq!(lookup_content(&fs, &["kept.txt"]), kept);
    let root = match &fs.root {
        RDANode::Directory(d) => d,
        _ => panic!("root must be a directory"),
    };
    assert!(root.lookup(&["gone.txt".to_string()]).is_none());
}

#[test]
fn size_mismatch_detected() {
    let content = b"sized wrong".to_vec();
    let v = one_block_archive(0, &[(0, vec!["s.bin"], content, 999)]);
    assert_eq!(
        load_rda(&v),
        Err(LoaderError::DecodeError(DecodeError::SizeMismatch))
    );
}

#[test]
fn garbage_zlib_stream_rejected() {
    let stored = vec![0x00, 0x01, 0x02, 0x03];
    let v = one_block_archive(0, &[(FLAG_COMPRESSED, vec!["g.bin"], stored, 4)]);
    assert_eq!(
        load_rda(&v),
        Err(LoaderError::DecodeError(DecodeError::BadData))
    );
}

#[test]
fn insertion_through_file_rejected() {
    let a = b"a".to_vec();
    let b = b"b".to_vec();
    let v = one_block_archive(
        0,
        &[
            (0, vec!["x"], a, 1),
            (0, vec!["x", "y"], b, 1),
        ],
    );
    assert_eq!(
        load_rda(&v),
        Err(LoaderError::TreeInsertionError(TreeError::NotADirectory))
    );
}

#[test]
fn duplicate_path_rejected() {
    let a = b"a".to_vec();
    let b = b"b".to_vec();
    let v = one_block_archive(
        0,
        &[(0, vec!["same.txt"], a, 1), (0, vec!["same.txt"], b, 1)],
    );
    assert_eq!(
        load_rda(&v),
        Err(LoaderError::TreeInsertionError(TreeError::DuplicateName))
    );
}

#[test]
fn two_block_chain_loads_in_order() {
    // Two blocks, the second right after the first; payloads contiguous.
    let c1 = b"first".to_vec();
    let c2 = b"second".to_vec();
    let h1 = file_header(0, 0, c1.len() as i64, c1.len() as i64, &["one.txt"]);
    let h2 = file_header(0, 0, c2.len() as i64, c2.len() as i64, &["two.txt"]);
    let block2_off = 792 + 32 + h1.len() as i64 + c1.len() as i64;
    let mut v = preamble(FIRST_BLOCK);
    v.extend(block_header(
        FLAG_CONTIGUOUS,
        1,
        h1.len() as i64,
        h1.len() as i64,
        block2_off,
    ));
    v.extend(&h1);
    v.extend(&c1);
    v.extend(block_header(FLAG_CONTIGUOUS, 1, h2.len() as i64, h2.len() as i64, -1));
    v.extend(&h2);
    v.extend(&c2);
    let fs = load_rda(&v).unwrap();
    assert_eq!(lookup_content(&fs, &["one.txt"]), c1);
    assert_eq!(lookup_content(&fs, &["two.txt"]), c2);
    assert_eq!(
        fs.display_string(),
        "RDAFileSystem\none.txt [5 B]\ntwo.txt [6 B]\n"
    );
}
