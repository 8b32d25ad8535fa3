use unalz_rs::archive::{AlzArchive, AlzFileEntry, CompressionMethod};
use unalz_rs::crypto::ZipCrypto;
use unalz_rs::decompress::deflate::{extract_deflate, inflate_finished, InflateStatus};
use unalz_rs::decompress::bzip2::{after_decode_step, DecodeStatus, StepOutcome};
use unalz_rs::decompress::raw::extract_raw;
use unalz_rs::error::AlzError;
use unalz_rs::extract::{
    authenticate, check_entry_name, extract_all, extract_entry, extract_files,
    symlink_target_allowed, EntryKind,
};
use unalz_rs::multivolume::{MultiVolumeReader, SeekFrom};

const TIME: u32 = 0x4E8C2209;

fn entry(name: &str, method: CompressionMethod, data_pos: u64, size: u64, crc: u32) -> AlzFileEntry {
    AlzFileEntry {
        file_name: name.to_string(),
        file_attribute: 0x20,
        file_time_date: TIME,
        file_descriptor: 0x40,
        compression_method: method,
        file_crc: crc,
        compressed_size: size,
        uncompressed_size: size,
        data_pos,
        enc_check: None,
    }
}

fn archive_over(stream: &[u8]) -> AlzArchive {
    AlzArchive {
        reader: MultiVolumeReader::from_bytes(stream.to_vec()),
        entries: Vec::new(),
        is_encrypted: false,
        is_data_descr: false,
    }
}

fn encrypt(cipher: &mut ZipCrypto, data: &mut [u8]) {
    for b in data.iter_mut() {
        let plain = *b;
        *b = plain ^ cipher.decrypt_byte();
        cipher.update_keys(plain);
    }
}

/// An encrypted stored entry over its own stream: check header at 0,
/// payload at 12.
fn encrypted(content: &[u8], password: &str, data_descr: bool) -> (AlzArchive, AlzFileEntry) {
    let crc = crc32fast::hash(content);
    let mut header = [0x11u8; 12];
    header[11] = if data_descr { (TIME >> 8) as u8 } else { (crc >> 24) as u8 };
    let mut payload = content.to_vec();
    let mut cipher = ZipCrypto::new(password.as_bytes());
    encrypt(&mut cipher, &mut header);
    encrypt(&mut cipher, &mut payload);
    let mut stream = header.to_vec();
    stream.extend_from_slice(&payload);
    let mut e = entry("secret.txt", CompressionMethod::Store, 12, content.len() as u64, crc);
    e.file_descriptor = 0x41 | if data_descr { 0x08 } else { 0 };
    e.enc_check = Some(header);
    (archive_over(&stream), e)
}

#[test]
fn stored_entry_is_copied() {
    let mut archive = archive_over(b"...hello world...");
    let e = entry("a.txt", CompressionMethod::Store, 3, 11, 0x0d4a1185);
    let mut sink = b"> ".to_vec();
    let x = extract_entry(&mut archive, &e, &mut sink, None).unwrap();
    assert_eq!(x.name, "a.txt");
    assert_eq!(x.kind, EntryKind::File);
    assert_eq!(sink, b"> hello world");
}

#[test]
fn crc_mismatch_is_reported_and_leaves_the_sink() {
    let mut archive = archive_over(b"...hello world...");
    let e = entry("a.txt", CompressionMethod::Store, 3, 11, 0x12345678);
    let mut sink = b"> ".to_vec();
    match extract_entry(&mut archive, &e, &mut sink, None) {
        Err(AlzError::InvalidFileCrc { expected, got }) => {
            assert_eq!(expected, 0x12345678);
            assert_eq!(got, 0x0d4a1185);
        }
        _ => panic!("the mismatch went unnoticed"),
    }
    assert_eq!(sink, b"> ");
}

#[test]
fn payload_past_the_end_is_an_io_error() {
    let mut archive = archive_over(b"short");
    let e = entry("a.txt", CompressionMethod::Store, 2, 4, 0);
    let mut sink = vec![1];
    assert!(matches!(extract_entry(&mut archive, &e, &mut sink, None), Err(AlzError::Io(_))));
    assert_eq!(sink, vec![1]);
    let far = entry("a.txt", CompressionMethod::Store, 1000, 1, 0);
    assert!(matches!(extract_entry(&mut archive, &far, &mut sink, None), Err(AlzError::Io(_))));
    // An empty payload is read from anywhere.
    let nothing = entry("a.txt", CompressionMethod::Store, 1000, 0, 0);
    assert!(extract_entry(&mut archive, &nothing, &mut sink, None).is_ok());
    assert_eq!(sink, vec![1]);
}

#[test]
fn unknown_method_is_reported() {
    let mut archive = archive_over(b"data");
    let e = entry("a.txt", CompressionMethod::Unknown(7), 0, 4, 0);
    let mut sink = Vec::new();
    match extract_entry(&mut archive, &e, &mut sink, None) {
        Err(AlzError::UnknownCompressionMethod(n)) => assert_eq!(n, 7),
        _ => panic!("the method was accepted"),
    }
}

#[test]
fn directory_has_no_content() {
    let mut archive = archive_over(b"data");
    let mut e = entry("dir\\sub", CompressionMethod::Unknown(9), 0, 4, 0x1234);
    e.file_attribute = 0x10;
    let mut sink = vec![5];
    let x = extract_entry(&mut archive, &e, &mut sink, None).unwrap();
    assert_eq!(x.kind, EntryKind::Directory);
    assert_eq!(x.name, "dir/sub");
    assert_eq!(sink, vec![5]);
    // Directory wins over symlink.
    e.file_attribute = 0x50;
    assert_eq!(extract_entry(&mut archive, &e, &mut sink, None).unwrap().kind, EntryKind::Directory);
}

#[test]
fn symlink_content_is_its_target() {
    let mut archive = archive_over(b"target/file");
    let mut e = entry("link", CompressionMethod::Store, 0, 11, crc32fast::hash(b"target/file"));
    e.file_attribute = 0x40;
    let mut sink = Vec::new();
    let x = extract_entry(&mut archive, &e, &mut sink, None).unwrap();
    assert_eq!(x.kind, EntryKind::Symlink);
    assert_eq!(sink, b"target/file");
}

#[test]
fn names_that_climb_are_refused() {
    for name in ["../etc/passwd", "a/../../b", "..\\windows", "a\\..\\b", "x/..\\y", "..../"] {
        match check_entry_name(name) {
            Err(AlzError::PathTraversal(p)) => assert_eq!(p, name.replace('\\', "/")),
            _ => panic!("{name} was accepted"),
        }
        let mut archive = archive_over(b"data");
        let e = entry(name, CompressionMethod::Store, 0, 0, 0);
        let mut sink = Vec::new();
        assert!(matches!(
            extract_entry(&mut archive, &e, &mut sink, None),
            Err(AlzError::PathTraversal(_))
        ));
    }
}

#[test]
fn names_that_do_not_climb_are_normalised() {
    assert_eq!(check_entry_name("a\\b\\c.txt").unwrap(), "a/b/c.txt");
    assert_eq!(check_entry_name("a/b").unwrap(), "a/b");
    assert_eq!(check_entry_name("").unwrap(), "");
    assert_eq!(check_entry_name("..").unwrap(), "..");
    assert_eq!(check_entry_name("a..b/c").unwrap(), "a..b/c");
    assert_eq!(check_entry_name("./a").unwrap(), "./a");
    assert_eq!(check_entry_name("한글\\파일..txt").unwrap(), "한글/파일..txt");
    assert_eq!(check_entry_name("/abs").unwrap(), "/abs");
}

#[test]
fn link_targets() {
    assert!(symlink_target_allowed("file"));
    assert!(symlink_target_allowed("dir/file"));
    assert!(symlink_target_allowed(""));
    assert!(symlink_target_allowed(".."));
    assert!(!symlink_target_allowed("../file"));
    assert!(!symlink_target_allowed("a/..\\b"));
    assert!(!symlink_target_allowed("/etc/passwd"));
    assert!(!symlink_target_allowed("/"));
}

#[test]
fn password_opens_an_encrypted_entry() {
    let (mut archive, e) = encrypted(b"top secret", "test1234", false);
    let mut sink = Vec::new();
    extract_entry(&mut archive, &e, &mut sink, Some("test1234")).unwrap();
    assert_eq!(sink, b"top secret");
}

#[test]
fn wrong_password_is_refused_before_any_output() {
    let (mut archive, e) = encrypted(b"top secret", "test1234", false);
    let mut sink = vec![0xaa];
    assert!(matches!(
        extract_entry(&mut archive, &e, &mut sink, Some("wrong")),
        Err(AlzError::InvalidPassword)
    ));
    assert_eq!(sink, vec![0xaa]);
    assert!(matches!(authenticate(&e, Some("wrong")), Err(AlzError::InvalidPassword)));
}

#[test]
fn encrypted_entry_needs_password_and_check_header() {
    let (mut archive, mut e) = encrypted(b"top secret", "test1234", false);
    let mut sink = Vec::new();
    assert!(matches!(
        extract_entry(&mut archive, &e, &mut sink, None),
        Err(AlzError::PasswordNotSet)
    ));
    e.enc_check = None;
    assert!(matches!(
        extract_entry(&mut archive, &e, &mut sink, Some("test1234")),
        Err(AlzError::PasswordNotSet)
    ));
}

#[test]
fn password_is_checked_before_the_name() {
    let (mut archive, mut e) = encrypted(b"top secret", "test1234", false);
    e.file_name = "../x".to_string();
    let mut sink = Vec::new();
    assert!(matches!(
        extract_entry(&mut archive, &e, &mut sink, Some("wrong")),
        Err(AlzError::InvalidPassword)
    ));
    assert!(matches!(
        extract_entry(&mut archive, &e, &mut sink, Some("test1234")),
        Err(AlzError::PathTraversal(_))
    ));
}

#[test]
fn data_descriptor_mode_checks_against_the_timestamp() {
    let (mut archive, mut e) = encrypted(b"top secret", "pw", true);
    let mut sink = Vec::new();
    extract_entry(&mut archive, &e, &mut sink, Some("pw")).unwrap();
    assert_eq!(sink, b"top secret");
    // Without the flag the same header is held against the CRC and fails,
    // unless the two bytes happen to agree.
    assert_ne!((TIME >> 8) as u8, (e.file_crc >> 24) as u8);
    e.file_descriptor &= !0x08;
    assert!(matches!(
        extract_entry(&mut archive, &e, &mut sink, Some("pw")),
        Err(AlzError::InvalidPassword)
    ));
}

#[test]
fn password_is_ignored_for_an_entry_that_is_not_encrypted() {
    let mut archive = archive_over(b"hello world");
    let e = entry("a.txt", CompressionMethod::Store, 0, 11, 0x0d4a1185);
    let mut sink = Vec::new();
    extract_entry(&mut archive, &e, &mut sink, Some("whatever")).unwrap();
    assert_eq!(sink, b"hello world");
    assert!(authenticate(&e, None).unwrap().is_none());
}

#[test]
fn authenticate_leaves_the_cipher_at_the_first_payload_byte() {
    let (archive, e) = encrypted(b"top secret", "test1234", false);
    let cipher = authenticate(&e, Some("test1234")).unwrap().unwrap();
    let mut by_hand = ZipCrypto::new(b"test1234");
    let mut header = e.enc_check.unwrap();
    by_hand.decrypt(&mut header);
    assert_eq!(cipher.key, by_hand.key);
    assert_eq!(archive.reader.total_size(), 22);
}

#[test]
fn check_header_tells_whether_the_last_byte_fits() {
    let (_, e) = encrypted(b"top secret", "test1234", false);
    let header = e.enc_check.unwrap();
    let mut cipher = ZipCrypto::new(b"test1234");
    assert!(cipher.check_header(&header, e.file_crc, TIME, false));
    let mut again = ZipCrypto::new(b"test1234");
    assert!(!again.check_header(&header, e.file_crc ^ 0x0100_0000, TIME, false));
    // The check advances the keys over the header, whatever it finds.
    assert_eq!(cipher.key, again.key);
    assert_ne!(cipher.key, ZipCrypto::new(b"test1234").key);
}

#[test]
fn raw_extraction_with_cipher_decrypts() {
    let (mut archive, e) = encrypted(b"top secret", "test1234", false);
    let mut cipher = authenticate(&e, Some("test1234")).unwrap().unwrap();
    archive.reader.seek(SeekFrom::Start(12)).unwrap();
    let mut out = Vec::new();
    let crc = extract_raw(&mut archive.reader, &mut out, 10, Some(&mut cipher)).unwrap();
    assert_eq!(out, b"top secret");
    assert_eq!(crc, e.file_crc);
}

#[test]
fn raw_extraction_in_several_steps() {
    let content: Vec<u8> = (0..100_000u32).map(|i| (i * 7 + i / 251) as u8).collect();
    let (mut archive, e) = encrypted(&content, "pw", false);
    let mut sink = Vec::new();
    extract_entry(&mut archive, &e, &mut sink, Some("pw")).unwrap();
    assert_eq!(sink, content);
    // Of a stream that ends early, what was read before stays with the
    // codec's caller but not with the entry's.
    let mut reader = MultiVolumeReader::from_bytes(content.clone());
    let mut out = Vec::new();
    assert!(matches!(extract_raw(&mut reader, &mut out, 100_001, None), Err(AlzError::Io(_))));
    assert_eq!(out.len(), 3 * 32768);
    assert_eq!(out[..], content[..3 * 32768]);
}

#[test]
fn raw_extraction_of_nothing() {
    let mut reader = MultiVolumeReader::from_bytes(Vec::new());
    let mut out = vec![1];
    assert_eq!(extract_raw(&mut reader, &mut out, 0, None).unwrap(), 0);
    assert_eq!(out, vec![1]);
}

#[test]
fn corrupt_deflate_data_fails() {
    let mut reader = MultiVolumeReader::from_bytes(vec![0xff; 64]);
    let mut out = Vec::new();
    match extract_deflate(&mut reader, &mut out, 64, None) {
        Err(AlzError::InflateFailed(_)) => {}
        _ => panic!("garbage was inflated"),
    }
}

#[test]
fn deflate_payload_past_the_end_is_an_io_error() {
    let mut reader = MultiVolumeReader::from_bytes(vec![0x33, 0x31, 0x02, 0x00]);
    let mut out = Vec::new();
    assert!(matches!(extract_deflate(&mut reader, &mut out, 5, None), Err(AlzError::Io(_))));
}

#[test]
fn deflate_stops_at_the_end_of_its_stream() {
    // "42" deflated, followed by bytes that belong to something else.
    let mut reader = MultiVolumeReader::from_bytes(vec![0x33, 0x31, 0x02, 0x00, 9, 9, 9, 9]);
    let mut out = Vec::new();
    let crc = extract_deflate(&mut reader, &mut out, 8, None).unwrap();
    assert_eq!(out, b"42");
    assert_eq!(crc, 0x3224b088);
}

#[test]
fn truncated_deflate_stream_gives_what_it_holds() {
    // The first three bytes of "42" deflated: no end of stream is met, and
    // the caller's CRC check tells.
    let mut archive = archive_over(&[0x33, 0x31, 0x02]);
    let e = entry("t.txt", CompressionMethod::Deflate, 0, 3, 0x3224b088);
    let mut sink = Vec::new();
    let r = extract_entry(&mut archive, &e, &mut sink, None);
    assert!(r.is_ok() || matches!(r, Err(AlzError::InvalidFileCrc { .. })));
    if r.is_ok() {
        assert_eq!(sink, b"42");
    } else {
        assert!(sink.is_empty());
    }
}

#[test]
fn inflate_loop_ends() {
    assert!(inflate_finished(InflateStatus::StreamEnd, 5, 5, 3, 10));
    assert!(inflate_finished(InflateStatus::StreamEnd, 0, 0, 0, 0));
    assert!(inflate_finished(InflateStatus::Running, 4, 0, 0, 0));
    assert!(inflate_finished(InflateStatus::BufError, 0, 0, 3, 10));
    assert!(!inflate_finished(InflateStatus::Running, 4, 0, 0, 1));
    assert!(!inflate_finished(InflateStatus::Running, 4, 0, 1, 0));
    assert!(!inflate_finished(InflateStatus::Running, 0, 1, 0, 0));
    assert!(!inflate_finished(InflateStatus::BufError, 1, 0, 1, 0));
}

#[test]
fn decode_loop_ends() {
    assert_eq!(after_decode_step(DecodeStatus::Failed, 10, 0, 0), StepOutcome::Fail);
    assert_eq!(after_decode_step(DecodeStatus::Failed, 10, 5, 5), StepOutcome::Finish);
    assert_eq!(after_decode_step(DecodeStatus::Failed, 0, 0, 1), StepOutcome::Finish);
    assert_eq!(after_decode_step(DecodeStatus::StreamEnd, 0, 0, 0), StepOutcome::Finish);
    assert_eq!(after_decode_step(DecodeStatus::StreamEnd, 3, 4, 4), StepOutcome::Finish);
    for status in [DecodeStatus::Running, DecodeStatus::FlushOk, DecodeStatus::RunOk, DecodeStatus::FinishOk, DecodeStatus::MemNeeded] {
        assert_eq!(after_decode_step(status, 0, 0, 7), StepOutcome::Finish);
        assert_eq!(after_decode_step(status, 1, 0, 7), StepOutcome::Continue);
        assert_eq!(after_decode_step(status, 0, 1, 7), StepOutcome::Continue);
    }
}

#[test]
fn extract_all_stops_at_the_first_failure() {
    let mut archive = archive_over(b"hello world");
    archive.entries.push(entry("good", CompressionMethod::Store, 0, 5, crc32fast::hash(b"hello")));
    archive.entries.push(entry("bad", CompressionMethod::Store, 6, 5, 1));
    archive.entries.push(entry("unknown", CompressionMethod::Unknown(3), 0, 0, 0));
    assert!(matches!(extract_all(&mut archive, None), Err(AlzError::InvalidFileCrc { .. })));
    archive.entries.remove(1);
    assert!(matches!(
        extract_all(&mut archive, None),
        Err(AlzError::UnknownCompressionMethod(3))
    ));
    archive.entries.remove(1);
    let out = extract_all(&mut archive, None).unwrap();
    assert_eq!(out.len(), 1);
    assert_eq!(out[0].data, b"hello");
    let mut empty = archive_over(b"");
    assert!(extract_all(&mut empty, None).unwrap().is_empty());
}

#[test]
fn extract_files_takes_the_first_entry_of_each_name() {
    let mut archive = archive_over(b"hello world");
    archive.entries.push(entry("a", CompressionMethod::Store, 0, 5, crc32fast::hash(b"hello")));
    archive.entries.push(entry("b", CompressionMethod::Store, 6, 5, crc32fast::hash(b"world")));
    archive.entries.push(entry("a", CompressionMethod::Store, 0, 11, 0x0d4a1185));
    let names: Vec<String> = ["b", "missing", "a", "b"].iter().map(|s| s.to_string()).collect();
    let out = extract_files(&mut archive, &names, None).unwrap();
    assert_eq!(out.len(), 3);
    assert_eq!(out[0].name, "b");
    assert_eq!(out[0].data, b"world");
    assert_eq!(out[1].name, "a");
    assert_eq!(out[1].data, b"hello");
    assert_eq!(out[2].data, b"world");
    assert!(extract_files(&mut archive, &[], None).unwrap().is_empty());
    // Names are matched as the archive spells them.
    let other: Vec<String> = vec!["A".to_string()];
    assert!(extract_files(&mut archive, &other, None).unwrap().is_empty());
}

#[test]
fn extract_files_reports_the_failure_of_a_selected_entry_only() {
    let mut archive = archive_over(b"hello world");
    archive.entries.push(entry("bad", CompressionMethod::Store, 0, 5, 1));
    archive.entries.push(entry("good", CompressionMethod::Store, 6, 5, crc32fast::hash(b"world")));
    let good: Vec<String> = vec!["good".to_string()];
    assert_eq!(extract_files(&mut archive, &good, None).unwrap().len(), 1);
    let both: Vec<String> = vec!["good".to_string(), "bad".to_string()];
    assert!(matches!(
        extract_files(&mut archive, &both, None),
        Err(AlzError::InvalidFileCrc { .. })
    ));
}

#[test]
fn unknown_method_is_reported_by_extract_all_too() {
    let mut archive = archive_over(b"data");
    archive.entries.push(entry("a.txt", CompressionMethod::Unknown(7), 0, 4, 0));
    assert!(matches!(
        extract_all(&mut archive, None),
        Err(AlzError::UnknownCompressionMethod(7))
    ));
}

#[test]
fn refused_name_is_reported_with_slashes() {
    let mut archive = archive_over(b"data");
    archive.entries.push(entry("a\\..\\b", CompressionMethod::Store, 0, 0, 0));
    match extract_all(&mut archive, None) {
        Err(AlzError::PathTraversal(name)) => assert_eq!(name, "a/../b"),
        _ => panic!("the name was accepted"),
    }
    archive.entries[0].file_name = "../etc/passwd".to_string();
    match extract_all(&mut archive, None) {
        Err(AlzError::PathTraversal(name)) => assert_eq!(name, "../etc/passwd"),
        _ => panic!("the name was accepted"),
    }
}

#[test]
fn extract_all_reports_the_first_failure() {
    let mut archive = archive_over(b"hello world");
    archive.entries.push(entry("good", CompressionMethod::Store, 0, 5, crc32fast::hash(b"hello")));
    archive.entries.push(entry("first", CompressionMethod::Unknown(9), 0, 0, 0));
    archive.entries.push(entry("second", CompressionMethod::Store, 6, 5, 1));
    assert!(matches!(
        extract_all(&mut archive, None),
        Err(AlzError::UnknownCompressionMethod(9))
    ));
    let names: Vec<String> = ["second", "first"].iter().map(|s| s.to_string()).collect();
    assert!(matches!(
        extract_files(&mut archive, &names, None),
        Err(AlzError::InvalidFileCrc { expected: 1, .. })
    ));
}

#[test]
fn two_extractions_of_one_entry_agree() {
    // "42" deflated; the second extraction starts where the first left the
    // reader.
    let mut archive = archive_over(&[0x33, 0x31, 0x02, 0x00]);
    let good = entry("t.txt", CompressionMethod::Deflate, 0, 4, 0x3224b088);
    let bad = entry("t.txt", CompressionMethod::Deflate, 0, 4, 0x11111111);
    for _ in 0..2 {
        let mut sink = Vec::new();
        extract_entry(&mut archive, &good, &mut sink, None).unwrap();
        assert_eq!(sink, b"42");
        match extract_entry(&mut archive, &bad, &mut sink, None) {
            Err(AlzError::InvalidFileCrc { expected, got }) => {
                assert_eq!(expected, 0x11111111);
                assert_eq!(got, 0x3224b088);
            }
            _ => panic!("the mismatch went unnoticed"),
        }
        assert_eq!(sink, b"42");
    }
}

#[test]
fn deflate_leaves_the_cursor_after_what_it_read() {
    let mut stream = vec![0x33, 0x31, 0x02, 0x00];
    stream.extend_from_slice(&[9; 100]);
    let mut reader = MultiVolumeReader::from_bytes(stream);
    let mut out = Vec::new();
    extract_deflate(&mut reader, &mut out, 50, None).unwrap();
    assert_eq!(out, b"42");
    assert_eq!(reader.stream_position(), 50);
}

#[test]
fn refusal_at_a_gate_leaves_the_cursor() {
    let (mut archive, mut e) = encrypted(b"top secret", "test1234", false);
    archive.reader.seek(SeekFrom::Start(7)).unwrap();
    let mut sink = Vec::new();
    assert!(extract_entry(&mut archive, &e, &mut sink, Some("wrong")).is_err());
    assert_eq!(archive.reader.stream_position(), 7);
    assert!(extract_entry(&mut archive, &e, &mut sink, None).is_err());
    assert_eq!(archive.reader.stream_position(), 7);
    e.file_name = "../x".to_string();
    assert!(extract_entry(&mut archive, &e, &mut sink, Some("test1234")).is_err());
    assert_eq!(archive.reader.stream_position(), 7);
    // A directory is not read either; any other entry is.
    e.file_name = "dir".to_string();
    e.file_attribute = 0x10;
    extract_entry(&mut archive, &e, &mut sink, Some("test1234")).unwrap();
    assert_eq!(archive.reader.stream_position(), 7);
    e.file_attribute = 0x20;
    extract_entry(&mut archive, &e, &mut sink, Some("test1234")).unwrap();
    assert_eq!(archive.reader.stream_position(), 22);
}

#[test]
fn cursor_after_failures_past_the_gates() {
    let mut archive = archive_over(b"hello world");
    let mut sink = Vec::new();
    let unknown = entry("u", CompressionMethod::Unknown(4), 3, 2, 0);
    assert!(extract_entry(&mut archive, &unknown, &mut sink, None).is_err());
    assert_eq!(archive.reader.stream_position(), 3);
    let short = entry("s", CompressionMethod::Store, 5, 100, 0);
    assert!(matches!(extract_entry(&mut archive, &short, &mut sink, None), Err(AlzError::Io(_))));
    assert_eq!(archive.reader.stream_position(), 11);
    let far = entry("f", CompressionMethod::Store, 50, 1, 0);
    assert!(matches!(extract_entry(&mut archive, &far, &mut sink, None), Err(AlzError::Io(_))));
    assert_eq!(archive.reader.stream_position(), 50);
    let wrong = entry("w", CompressionMethod::Store, 0, 5, 1);
    assert!(extract_entry(&mut archive, &wrong, &mut sink, None).is_err());
    assert_eq!(archive.reader.stream_position(), 5);
    assert!(sink.is_empty());
}

#[test]
fn stored_copy_that_fails_keeps_its_whole_steps() {
    let content: Vec<u8> = (0..70_000u32).map(|i| (i % 251) as u8).collect();
    let mut plain = content.clone();
    let mut cipher = ZipCrypto::new(b"pw");
    encrypt(&mut cipher, &mut plain);
    let mut reader = MultiVolumeReader::from_bytes(plain);
    let mut out = vec![7u8];
    let mut cipher = ZipCrypto::new(b"pw");
    let r = extract_raw(&mut reader, &mut out, 70_001, Some(&mut cipher));
    assert!(matches!(r, Err(AlzError::Io(_))));
    assert_eq!(out.len(), 1 + 2 * 32768);
    assert_eq!(out[1..], content[..2 * 32768]);
    assert_eq!(reader.stream_position(), 70_000);
    let mut by_hand = ZipCrypto::new(b"pw");
    for &b in &content[..2 * 32768] {
        by_hand.update_keys(b);
    }
    assert_eq!(cipher.key, by_hand.key);
}
