use unalz_rs::archive::{AlzArchive, CompressionMethod};
use unalz_rs::error::AlzError;

const HEADER: [u8; 8] = [0x41, 0x4c, 0x5a, 0x01, 0x0a, 0x00, 0x00, 0x00];
const END: [u8; 4] = [0x43, 0x4c, 0x5a, 0x02];

/// A local file record with size fields of `width` bytes.
fn record(name: &[u8], descriptor: u8, width: usize, method: u8, payload: &[u8]) -> Vec<u8> {
    let mut out = b"BLZ\x01".to_vec();
    out.extend_from_slice(&(name.len() as u16).to_le_bytes());
    out.push(0x20);
    out.extend_from_slice(&0x4E8C2209u32.to_le_bytes());
    out.push(descriptor);
    out.push(0x77);
    if width > 0 {
        out.push(method);
        out.push(0x99);
        out.extend_from_slice(&0xdeadbeefu32.to_le_bytes());
        out.extend_from_slice(&(payload.len() as u64).to_le_bytes()[..width]);
        out.extend_from_slice(&0x0102030405060708u64.to_le_bytes()[..width]);
    }
    out.extend_from_slice(name);
    if descriptor & 1 != 0 {
        out.extend_from_slice(&[0xc0, 0xc1, 0xc2, 0xc3, 0xc4, 0xc5, 0xc6, 0xc7, 0xc8, 0xc9, 0xca, 0xcb]);
    }
    out.extend_from_slice(payload);
    out
}

fn archive_of(records: &[Vec<u8>]) -> Vec<u8> {
    let mut out = HEADER.to_vec();
    for r in records {
        out.extend_from_slice(r);
    }
    out.extend_from_slice(&END);
    out
}

fn parse(bytes: Vec<u8>) -> Result<AlzArchive, AlzError> {
    AlzArchive::from_bytes(bytes)
}

fn failure(bytes: Vec<u8>) -> AlzError {
    match parse(bytes) {
        Ok(_) => panic!("the archive was accepted"),
        Err(e) => e,
    }
}

#[test]
fn empty_input_has_no_entries() {
    assert_eq!(parse(Vec::new()).unwrap().entries.len(), 0);
    assert_eq!(parse(vec![0x41, 0x4c, 0x5a]).unwrap().entries.len(), 0);
    assert_eq!(parse(HEADER.to_vec()).unwrap().entries.len(), 0);
    assert_eq!(parse(archive_of(&[])).unwrap().entries.len(), 0);
}

#[test]
fn unknown_signature_before_the_header_is_no_alz_file() {
    assert!(matches!(failure(b"PK\x03\x04....".to_vec()), AlzError::NotAlzFile));
    assert!(matches!(failure(vec![0, 0, 0, 0]), AlzError::NotAlzFile));
    // A record of this format does not make a header.
    let mut bytes = b"CLZ\x03".to_vec();
    bytes.extend_from_slice(b"junk");
    assert!(matches!(failure(bytes), AlzError::NotAlzFile));
}

#[test]
fn unknown_signature_after_the_header_is_corruption() {
    let mut bytes = HEADER.to_vec();
    bytes.extend_from_slice(b"junk");
    assert!(matches!(failure(bytes), AlzError::CorruptedFile));
}

#[test]
fn nothing_after_the_end_record_is_read() {
    let mut bytes = archive_of(&[record(b"a", 0x10, 1, 0, b"x")]);
    bytes.extend_from_slice(b"junk that is no record");
    let archive = parse(bytes).unwrap();
    assert_eq!(archive.entries.len(), 1);
}

#[test]
fn size_fields_of_every_width() {
    for (descriptor, width) in [(0x10u8, 1usize), (0x20, 2), (0x40, 4), (0x80, 8)] {
        let payload = [0x55u8; 5];
        let archive = parse(archive_of(&[record(b"name", descriptor, width, 2, &payload)])).unwrap();
        let entry = &archive.entries[0];
        assert_eq!(entry.file_name, "name");
        assert_eq!(entry.compression_method, CompressionMethod::Deflate);
        assert_eq!(entry.file_crc, 0xdeadbeef);
        assert_eq!(entry.compressed_size, 5);
        let expected = 0x0102030405060708u64 & (u64::MAX >> (64 - 8 * width));
        assert_eq!(entry.uncompressed_size, expected);
        assert_eq!(entry.data_pos as usize, 8 + 4 + 9 + 6 + 2 * width + 4);
        assert_eq!(entry.file_descriptor, descriptor);
    }
}

#[test]
fn record_without_size_fields_is_stored_and_empty() {
    let archive = parse(archive_of(&[record(b"dir", 0x00, 0, 0, b"")])).unwrap();
    let entry = &archive.entries[0];
    assert_eq!(entry.compression_method, CompressionMethod::Store);
    assert_eq!(entry.file_crc, 0);
    assert_eq!(entry.compressed_size, 0);
    assert_eq!(entry.uncompressed_size, 0);
    assert_eq!(entry.data_pos, 8 + 4 + 9 + 3);
}

#[test]
fn other_width_nibbles_are_refused() {
    for nibble in [0x30u8, 0x50, 0x60, 0x70, 0x90, 0xa0, 0xc0, 0xf0] {
        let bytes = archive_of(&[record(b"name", nibble | 0x01, 0, 0, b"")]);
        match failure(bytes) {
            AlzError::InvalidSizeFieldWidth(v) => assert_eq!(v, nibble),
            other => panic!("unexpected error: {}", other.to_string()),
        }
    }
}

#[test]
fn method_bytes() {
    for (byte, method) in [
        (0u8, CompressionMethod::Store),
        (1, CompressionMethod::Bzip2),
        (2, CompressionMethod::Deflate),
        (3, CompressionMethod::Unknown(3)),
        (255, CompressionMethod::Unknown(255)),
    ] {
        let archive = parse(archive_of(&[record(b"n", 0x10, 1, byte, b"")])).unwrap();
        assert_eq!(archive.entries[0].compression_method, method);
        assert_eq!(CompressionMethod::from_byte(byte), method);
    }
}

#[test]
fn name_length_must_be_between_1_and_4096() {
    assert!(matches!(
        failure(archive_of(&[record(b"", 0x10, 1, 0, b"")])),
        AlzError::InvalidFilenameLength
    ));
    let longest = vec![b'a'; 4096];
    let archive = parse(archive_of(&[record(&longest, 0x10, 1, 0, b"")])).unwrap();
    assert_eq!(archive.entries[0].file_name.len(), 4096);
    let too_long = vec![b'a'; 4097];
    assert!(matches!(
        failure(archive_of(&[record(&too_long, 0x10, 1, 0, b"")])),
        AlzError::InvalidFilenameLength
    ));
}

#[test]
fn name_length_is_checked_after_the_size_fields_are_read() {
    // Name length 0 and a record that ends inside the size fields: the end
    // of the stream is met first.
    let mut bytes = HEADER.to_vec();
    let r = record(b"", 0x40, 4, 0, b"");
    bytes.extend_from_slice(&r[..r.len() - 3]);
    assert!(matches!(failure(bytes), AlzError::Io(_)));
}

#[test]
fn encrypted_record_carries_a_check_header() {
    let archive = parse(archive_of(&[
        record(b"plain", 0x10, 1, 0, b"abc"),
        record(b"secret", 0x11, 1, 0, b"abc"),
    ]))
    .unwrap();
    assert!(archive.is_encrypted);
    assert!(!archive.is_data_descr);
    assert!(!archive.entries[0].is_encrypted());
    assert_eq!(archive.entries[0].enc_check, None);
    assert!(archive.entries[1].is_encrypted());
    assert_eq!(
        archive.entries[1].enc_check,
        Some([0xc0, 0xc1, 0xc2, 0xc3, 0xc4, 0xc5, 0xc6, 0xc7, 0xc8, 0xc9, 0xca, 0xcb])
    );
    assert_eq!(archive.entries[1].data_pos, archive.entries[0].data_pos + 3 + 4 + 9 + 8 + 6 + 12);
}

#[test]
fn data_descriptor_flag_is_summarised() {
    let archive = parse(archive_of(&[record(b"n", 0x18, 1, 0, b"")])).unwrap();
    assert!(archive.is_data_descr);
    assert!(!archive.is_encrypted);
    assert!(archive.entries[0].has_data_descriptor());
}

#[test]
fn truncated_records_end_the_parse_with_an_io_error() {
    let whole = archive_of(&[record(b"name", 0x11, 1, 0, b"payload")]);
    let record_start = 8;
    let data_pos = 8 + 4 + 9 + 8 + 4 + 12;
    for cut in record_start + 4..data_pos {
        let e = failure(whole[..cut].to_vec());
        assert!(matches!(e, AlzError::Io(_)), "cut at {cut}");
    }
    // Inside the payload the record claims more than the stream holds.
    for cut in data_pos..data_pos + 7 {
        assert!(matches!(failure(whole[..cut].to_vec()), AlzError::CorruptedFile), "cut at {cut}");
    }
    // Cut inside a signature, the rest is ignored.
    assert_eq!(parse(whole[..data_pos + 7 + 2].to_vec()).unwrap().entries.len(), 1);
    assert_eq!(parse(whole[..record_start + 3].to_vec()).unwrap().entries.len(), 0);
}

#[test]
fn truncated_file_header_and_central_directory() {
    assert!(matches!(failure(HEADER[..6].to_vec()), AlzError::Io(_)));
    let mut bytes = HEADER.to_vec();
    bytes.extend_from_slice(b"CLZ\x01");
    bytes.extend_from_slice(&[0; 11]);
    assert!(matches!(failure(bytes), AlzError::Io(_)));
}

#[test]
fn payload_size_that_no_seek_can_cover_is_corruption() {
    let mut r = record(b"n", 0x80, 8, 0, b"");
    // compressed size: 2^63, more than a signed offset holds
    let at = 4 + 9 + 6;
    r[at..at + 8].copy_from_slice(&(1u64 << 63).to_le_bytes());
    assert!(matches!(failure(archive_of(&[r])), AlzError::CorruptedFile));
}

#[test]
fn split_markers_and_central_directories_are_passed_over() {
    let mut bytes = HEADER.to_vec();
    bytes.extend_from_slice(b"CLZ\x03");
    bytes.extend_from_slice(&record(b"one", 0x10, 1, 0, b"1"));
    bytes.extend_from_slice(b"CLZ\x01");
    bytes.extend_from_slice(&[0xab; 12]);
    bytes.extend_from_slice(b"CLZ\x03");
    bytes.extend_from_slice(&record(b"two", 0x10, 1, 0, b"2"));
    bytes.extend_from_slice(&HEADER);
    bytes.extend_from_slice(&END);
    let archive = parse(bytes).unwrap();
    assert_eq!(archive.entries.len(), 2);
    assert_eq!(archive.entries[0].file_name, "one");
    assert_eq!(archive.entries[1].file_name, "two");
}

#[test]
fn comment_is_skipped_by_the_length_in_the_end_info() {
    // The last 16 bytes of the image say how long the comment record is.
    let comment = b"a comment of 23 bytes..";
    let mut bytes = HEADER.to_vec();
    bytes.extend_from_slice(&record(b"one", 0x10, 1, 0, b"1"));
    bytes.extend_from_slice(b"ELZ\x01");
    bytes.extend_from_slice(comment);
    bytes.extend_from_slice(&record(b"two", 0x10, 1, 0, b"2"));
    bytes.extend_from_slice(&END);
    let mut tail = [0u8; 16];
    tail[4..8].copy_from_slice(&(comment.len() as u32 + 4).to_le_bytes());
    bytes.extend_from_slice(&tail);
    let archive = parse(bytes).unwrap();
    assert_eq!(archive.entries.len(), 2);
    assert_eq!(archive.entries[1].file_name, "two");
}

#[test]
fn comment_of_at_most_four_bytes_is_only_its_signature() {
    for declared in 0u32..=4 {
        let mut bytes = HEADER.to_vec();
        bytes.extend_from_slice(b"ELZ\x01");
        bytes.extend_from_slice(&record(b"one", 0x10, 1, 0, b"1"));
        bytes.extend_from_slice(&END);
        let mut tail = [0u8; 16];
        tail[4..8].copy_from_slice(&declared.to_le_bytes());
        bytes.extend_from_slice(&tail);
        assert_eq!(parse(bytes).unwrap().entries.len(), 1);
    }
}

#[test]
fn comment_that_runs_past_the_end_is_corruption() {
    let mut bytes = HEADER.to_vec();
    bytes.extend_from_slice(b"ELZ\x01");
    let mut tail = [0u8; 16];
    tail[4..8].copy_from_slice(&21u32.to_le_bytes());
    bytes.extend_from_slice(&tail);
    assert!(matches!(failure(bytes.clone()), AlzError::CorruptedFile));
    // One byte less reaches the end exactly.
    let at = bytes.len() - 12;
    bytes[at..at + 4].copy_from_slice(&20u32.to_le_bytes());
    assert_eq!(parse(bytes).unwrap().entries.len(), 0);
}

#[test]
fn reserved_bytes_may_hold_anything() {
    let mut a = record(b"n", 0x10, 1, 0, b"x");
    let mut b = a.clone();
    a[4 + 8] = 0x00;
    a[4 + 10] = 0x00;
    b[4 + 8] = 0xff;
    b[4 + 10] = 0xff;
    let x = parse(archive_of(&[a])).unwrap();
    let y = parse(archive_of(&[b])).unwrap();
    assert_eq!(x.entries[0].file_name, y.entries[0].file_name);
    assert_eq!(x.entries[0].compressed_size, y.entries[0].compressed_size);
    assert_eq!(x.entries[0].compression_method, y.entries[0].compression_method);
}

#[test]
fn names_are_decoded_as_utf8_or_cp949() {
    let archive = parse(archive_of(&[
        record("테스트.txt".as_bytes(), 0x10, 1, 0, b""),
        record(b"\xbf\xee\xbf\xb5", 0x10, 1, 0, b""),
    ]))
    .unwrap();
    assert_eq!(archive.entries[0].file_name, "테스트.txt");
    assert_eq!(archive.entries[1].file_name, "운영");
}

#[test]
fn open_reports_what_the_reader_reports() {
    assert!(matches!(AlzArchive::open(Vec::new()), Err(AlzError::CantOpenFile(_))));
    assert!(matches!(
        AlzArchive::open(vec![vec![0; 3], vec![0; 30]]),
        Err(AlzError::CorruptedFile)
    ));
}
