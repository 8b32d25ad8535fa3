//! Archives built in memory: stored, deflated, encrypted and split, each
//! with the same ten entries.

use flate2::write::DeflateEncoder;
use flate2::Compression;
use std::io::Write;
use unalz_rs::archive::{AlzArchive, CompressionMethod};
use unalz_rs::crypto::ZipCrypto;
use unalz_rs::error::AlzError;
use unalz_rs::extract::{extract_all, EntryKind, ExtractedEntry};

const PASSWORD: &str = "test1234";
const TIME: u32 = 0x4E8C2209;

#[derive(Clone, Copy, PartialEq)]
enum Packing {
    Store,
    Deflate(u32),
}

fn source(name: &str) -> Vec<u8> {
    match name {
        "hello.txt" => b"Hello, ALZ!\n".to_vec(),
        "binary.bin" => (0..=255u8).cycle().take(3000).collect(),
        "empty.txt" => Vec::new(),
        "repeated.txt" => b"abcabcabc ".iter().copied().cycle().take(70_000).collect(),
        "euckr_content.txt" => vec![0xbf, 0xee, 0xbf, 0xb5, 0x0a],
        "한글파일.txt" => "한글 내용\n".as_bytes().to_vec(),
        "뷁테스트.txt" => b"extended syllable\n".to_vec(),
        "subdir/inner.txt" => b"inner\n".to_vec(),
        "subdir/nested/deep.txt" => b"deep\n".to_vec(),
        "large.txt" => b"0123456789abcdef line of the large file\n"
            .iter()
            .copied()
            .cycle()
            .take(10485774)
            .collect(),
        other => panic!("no source named {other}"),
    }
}

const NAMES: [&str; 10] = [
    "hello.txt",
    "binary.bin",
    "empty.txt",
    "repeated.txt",
    "euckr_content.txt",
    "한글파일.txt",
    "뷁테스트.txt",
    "subdir/inner.txt",
    "subdir/nested/deep.txt",
    "large.txt",
];

fn small_source(name: &str) -> Vec<u8> {
    if name == "large.txt" {
        b"not so large here\n".to_vec()
    } else {
        source(name)
    }
}

fn cp949(name: &str) -> Vec<u8> {
    let (bytes, _, had_errors) = encoding_rs::EUC_KR.encode(name);
    assert!(!had_errors);
    bytes.into_owned()
}

fn crc_of(data: &[u8]) -> u32 {
    crc32fast::hash(data)
}

fn deflate(data: &[u8], level: u32) -> Vec<u8> {
    let mut out = Vec::new();
    let mut enc = DeflateEncoder::new(&mut out, Compression::new(level));
    enc.write_all(data).unwrap();
    enc.finish().unwrap();
    out
}

fn encrypt(cipher: &mut ZipCrypto, data: &mut [u8]) {
    for b in data.iter_mut() {
        let plain = *b;
        *b = plain ^ cipher.decrypt_byte();
        cipher.update_keys(plain);
    }
}

fn push_entry(out: &mut Vec<u8>, name: &str, content: &[u8], packing: Packing, password: Option<&str>) {
    let name_bytes = cp949(name);
    out.extend_from_slice(b"BLZ\x01");
    out.extend_from_slice(&(name_bytes.len() as u16).to_le_bytes());
    out.push(0x20);
    out.extend_from_slice(&TIME.to_le_bytes());
    if content.is_empty() {
        // No size fields at all: stored, not encrypted, all zero.
        out.push(0x00);
        out.push(0x00);
        out.extend_from_slice(&name_bytes);
        return;
    }
    let crc = crc_of(content);
    let (method, mut payload) = match packing {
        Packing::Store => (0u8, content.to_vec()),
        Packing::Deflate(level) => (2u8, deflate(content, level)),
    };
    let encrypted = password.is_some();
    out.push(0x40 | if encrypted { 0x01 } else { 0x00 });
    out.push(0x00);
    out.push(method);
    out.push(0x00);
    out.extend_from_slice(&crc.to_le_bytes());
    out.extend_from_slice(&(payload.len() as u32).to_le_bytes());
    out.extend_from_slice(&(content.len() as u32).to_le_bytes());
    out.extend_from_slice(&name_bytes);
    if let Some(password) = password {
        let mut cipher = ZipCrypto::new(password.as_bytes());
        let mut header = [0x5au8; 12];
        header[11] = (crc >> 24) as u8;
        encrypt(&mut cipher, &mut header);
        encrypt(&mut cipher, &mut payload);
        out.extend_from_slice(&header);
    }
    out.extend_from_slice(&payload);
}

fn build(packing: Packing, password: Option<&str>, large: bool) -> Vec<u8> {
    let mut out = Vec::new();
    out.extend_from_slice(b"ALZ\x01");
    out.extend_from_slice(&[0x0a, 0x00, 0x00, 0x00]);
    for name in NAMES {
        let content = if large { source(name) } else { small_source(name) };
        push_entry(&mut out, name, &content, packing, password);
    }
    out.extend_from_slice(b"CLZ\x01");
    out.extend_from_slice(&[0u8; 12]);
    out.extend_from_slice(b"CLZ\x02");
    out
}

/// Cuts a stream into volumes of `band` data bytes each, with an 8-byte
/// header on every volume but the first and a 16-byte trailer on every
/// volume but the last.
fn split(stream: &[u8], band: usize) -> Vec<Vec<u8>> {
    let pieces: Vec<&[u8]> = stream.chunks(band).collect();
    let count = pieces.len();
    let mut volumes = Vec::new();
    for (i, piece) in pieces.iter().enumerate() {
        let mut volume = Vec::new();
        if i > 0 {
            volume.extend_from_slice(&[0xaa; 8]);
        }
        volume.extend_from_slice(piece);
        if i + 1 < count {
            volume.extend_from_slice(&[0u8; 16]);
        }
        volumes.push(volume);
    }
    volumes
}

fn open(packing: Packing, password: Option<&str>) -> AlzArchive {
    AlzArchive::open(vec![build(packing, password, false)]).unwrap()
}

fn extract(packing: Packing, archive_password: Option<&str>, password: Option<&str>) -> Vec<ExtractedEntry> {
    let mut archive = open(packing, archive_password);
    extract_all(&mut archive, password).unwrap()
}

fn content_of<'a>(entries: &'a [ExtractedEntry], name: &str) -> &'a [u8] {
    &entries.iter().find(|e| e.name == name).unwrap().data
}

#[test]
fn store_list() {
    let archive = open(Packing::Store, None);
    assert_eq!(archive.entries.len(), 10);
    for entry in &archive.entries {
        assert_eq!(entry.compression_method, CompressionMethod::Store);
    }
}

#[test]
fn store_extract() {
    let out = extract(Packing::Store, None, None);
    assert_eq!(content_of(&out, "hello.txt"), source("hello.txt"));
    assert_eq!(content_of(&out, "binary.bin"), source("binary.bin"));
    assert_eq!(content_of(&out, "empty.txt"), source("empty.txt"));
    assert_eq!(content_of(&out, "repeated.txt"), source("repeated.txt"));
    assert_eq!(content_of(&out, "euckr_content.txt"), source("euckr_content.txt"));
    assert_eq!(content_of(&out, "한글파일.txt"), source("한글파일.txt"));
    assert_eq!(content_of(&out, "뷁테스트.txt"), source("뷁테스트.txt"));
    assert_eq!(content_of(&out, "subdir/inner.txt"), source("subdir/inner.txt"));
    assert_eq!(content_of(&out, "subdir/nested/deep.txt"), source("subdir/nested/deep.txt"));
}

#[test]
fn deflate_normal_list() {
    let archive = open(Packing::Deflate(6), None);
    assert_eq!(archive.entries.len(), 10);
    // empty.txt is Store, rest are Deflate
    let deflate_count = archive
        .entries
        .iter()
        .filter(|e| e.compression_method == CompressionMethod::Deflate)
        .count();
    assert!(deflate_count >= 9);
    assert_eq!(deflate_count, 9);
}

#[test]
fn deflate_normal_extract() {
    let out = extract(Packing::Deflate(6), None, None);
    assert_eq!(content_of(&out, "hello.txt"), source("hello.txt"));
    assert_eq!(content_of(&out, "binary.bin"), source("binary.bin"));
    assert_eq!(content_of(&out, "empty.txt"), source("empty.txt"));
}

#[test]
fn deflate_low_extract() {
    let out = extract(Packing::Deflate(1), None, None);
    assert_eq!(content_of(&out, "hello.txt"), source("hello.txt"));
    assert_eq!(content_of(&out, "binary.bin"), source("binary.bin"));
}

#[test]
fn deflate_payload_longer_than_one_buffer() {
    // repeated.txt inflates to 70000 bytes: more than two output buffers.
    let out = extract(Packing::Deflate(6), None, None);
    assert_eq!(content_of(&out, "repeated.txt"), source("repeated.txt"));
    // Stored without compression by the encoder, binary data of level 0 is
    // longer than its content and its payload still inflates.
    let out = extract(Packing::Deflate(0), None, None);
    assert_eq!(content_of(&out, "repeated.txt"), source("repeated.txt"));
    assert_eq!(content_of(&out, "binary.bin"), source("binary.bin"));
}

#[test]
fn encrypted_list() {
    let archive = open(Packing::Deflate(6), Some(PASSWORD));
    assert!(archive.is_encrypted);
    let encrypted_count = archive.entries.iter().filter(|e| e.is_encrypted()).count();
    // empty.txt is not encrypted (0 bytes), rest are
    assert!(encrypted_count >= 9);
    assert_eq!(encrypted_count, 9);
    for entry in &archive.entries {
        assert_eq!(entry.is_encrypted(), entry.enc_check.is_some());
    }
}

#[test]
fn encrypted_extract() {
    let out = extract(Packing::Deflate(6), Some(PASSWORD), Some("test1234"));
    assert_eq!(content_of(&out, "hello.txt"), source("hello.txt"));
    assert_eq!(content_of(&out, "binary.bin"), source("binary.bin"));
    assert_eq!(content_of(&out, "empty.txt"), source("empty.txt"));
    assert_eq!(content_of(&out, "한글파일.txt"), source("한글파일.txt"));
    assert_eq!(content_of(&out, "subdir/nested/deep.txt"), source("subdir/nested/deep.txt"));
}

#[test]
fn encrypted_stored_extract() {
    let out = extract(Packing::Store, Some(PASSWORD), Some("test1234"));
    assert_eq!(content_of(&out, "hello.txt"), source("hello.txt"));
    assert_eq!(content_of(&out, "repeated.txt"), source("repeated.txt"));
}

#[test]
fn encrypted_wrong_password() {
    let mut archive = open(Packing::Deflate(6), Some(PASSWORD));
    let result = extract_all(&mut archive, Some("wrong"));
    assert!(result.is_err());
    assert!(matches!(result, Err(AlzError::InvalidPassword)));
}

#[test]
fn encrypted_without_password() {
    let mut archive = open(Packing::Deflate(6), Some(PASSWORD));
    assert!(matches!(extract_all(&mut archive, None), Err(AlzError::PasswordNotSet)));
}

#[test]
fn split_list() {
    let stream = build(Packing::Deflate(6), None, true);
    let volumes = split(&stream, 4096);
    assert!(volumes.len() > 3);
    let archive = AlzArchive::open(volumes).unwrap();
    assert_eq!(archive.entries.len(), 10);
    // large.txt should be 10MB in split archive
    let large = archive.entries.iter().find(|e| e.file_name == "large.txt").unwrap();
    assert_eq!(large.uncompressed_size, 10485774);
}

#[test]
fn split_extract() {
    let stream = build(Packing::Deflate(6), None, true);
    let mut archive = AlzArchive::open(split(&stream, 4096)).unwrap();
    let out = extract_all(&mut archive, None).unwrap();
    // split archive has the full 10MB large.txt matching source
    assert_eq!(content_of(&out, "large.txt"), source("large.txt"));
    assert_eq!(content_of(&out, "hello.txt"), source("hello.txt"));
    assert_eq!(content_of(&out, "binary.bin"), source("binary.bin"));
}

#[test]
fn split_stored_extract_crosses_volumes() {
    // With 100-byte bands every entry of more than 100 bytes spans volumes.
    let stream = build(Packing::Store, None, false);
    let whole = extract(Packing::Store, None, None);
    let mut archive = AlzArchive::open(split(&stream, 100)).unwrap();
    let out = extract_all(&mut archive, None).unwrap();
    assert_eq!(out.len(), whole.len());
    for (a, b) in out.iter().zip(whole.iter()) {
        assert_eq!(a.name, b.name);
        assert_eq!(a.data, b.data);
    }
    assert_eq!(content_of(&out, "repeated.txt"), source("repeated.txt"));
}

#[test]
fn empty_file() {
    let out = extract(Packing::Store, None, None);
    let empty = content_of(&out, "empty.txt");
    assert!(empty.is_empty());
}

#[test]
fn cp949_extended_filename() {
    let archive = open(Packing::Store, None);
    // 뷁 is a CP949-only character not in EUC-KR
    assert!(archive.entries.iter().any(|e| e.file_name.contains("뷁")));
}

#[test]
fn nested_directories() {
    let out = extract(Packing::Store, None, None);
    assert!(out.iter().any(|e| e.name == "subdir/nested/deep.txt"));
    let deep = out.iter().find(|e| e.name == "subdir/nested/deep.txt").unwrap();
    assert_eq!(deep.kind, EntryKind::File);
}

#[test]
fn every_extracted_entry_has_its_declared_crc() {
    for packing in [Packing::Store, Packing::Deflate(6)] {
        for password in [None, Some(PASSWORD)] {
            let mut archive = open(packing, password);
            let out = extract_all(&mut archive, password).unwrap();
            assert_eq!(out.len(), archive.entries.len());
            for (x, entry) in out.iter().zip(archive.entries.iter()) {
                assert_eq!(crc_of(&x.data), entry.file_crc);
                assert_eq!(x.data.len() as u64, entry.uncompressed_size);
            }
        }
    }
}

#[test]
fn parsing_and_extracting_twice_agree() {
    let bytes = build(Packing::Deflate(6), Some(PASSWORD), false);
    let mut a = AlzArchive::from_bytes(bytes.clone()).unwrap();
    let mut b = AlzArchive::from_bytes(bytes).unwrap();
    assert_eq!(a.entries.len(), b.entries.len());
    for (x, y) in a.entries.iter().zip(b.entries.iter()) {
        assert_eq!(x.file_name, y.file_name);
        assert_eq!(x.file_attribute, y.file_attribute);
        assert_eq!(x.file_time_date, y.file_time_date);
        assert_eq!(x.file_descriptor, y.file_descriptor);
        assert_eq!(x.compression_method, y.compression_method);
        assert_eq!(x.file_crc, y.file_crc);
        assert_eq!(x.compressed_size, y.compressed_size);
        assert_eq!(x.uncompressed_size, y.uncompressed_size);
        assert_eq!(x.data_pos, y.data_pos);
        assert_eq!(x.enc_check, y.enc_check);
    }
    let first = extract_all(&mut a, Some(PASSWORD)).unwrap();
    let again = extract_all(&mut a, Some(PASSWORD)).unwrap();
    let other = extract_all(&mut b, Some(PASSWORD)).unwrap();
    for ((x, y), z) in first.iter().zip(again.iter()).zip(other.iter()) {
        assert_eq!(x.name, y.name);
        assert_eq!(x.data, y.data);
        assert_eq!(x.data, z.data);
    }
}
