use unalz_rs::error::AlzError;
use unalz_rs::multivolume::{volume_path, MultiVolumeReader, SeekFrom};

/// Three volumes whose data bands are 0..10, 10..25 and 25..30; headers are
/// filled with 0xEE and trailers with 0xFF.
fn three_volumes() -> Vec<Vec<u8>> {
    let mut first: Vec<u8> = (0..10).collect();
    first.extend_from_slice(&[0xff; 16]);
    let mut second = vec![0xee; 8];
    second.extend(10..25u8);
    second.extend_from_slice(&[0xff; 16]);
    let mut third = vec![0xee; 8];
    third.extend(25..30u8);
    vec![first, second, third]
}

fn read_all(reader: &mut MultiVolumeReader, step: usize) -> Vec<u8> {
    let mut out = Vec::new();
    let mut buf = vec![0u8; step];
    loop {
        let n = reader.read(&mut buf);
        if n == 0 {
            break;
        }
        out.extend_from_slice(&buf[..n]);
    }
    out
}

#[test]
fn total_size_counts_data_bands_only() {
    let reader = MultiVolumeReader::open(three_volumes()).unwrap();
    assert_eq!(reader.total_size(), 30);
    let single = MultiVolumeReader::from_bytes(vec![1, 2, 3]);
    assert_eq!(single.total_size(), 3);
    let empty = MultiVolumeReader::from_bytes(Vec::new());
    assert_eq!(empty.total_size(), 0);
}

#[test]
fn reading_skips_headers_and_trailers() {
    let expected: Vec<u8> = (0..30).collect();
    for step in [1, 2, 7, 10, 11, 30, 64] {
        let mut reader = MultiVolumeReader::open(three_volumes()).unwrap();
        assert_eq!(read_all(&mut reader, step), expected);
        assert_eq!(reader.stream_position(), 30);
    }
}

#[test]
fn virtual_range_is_physical_ranges_joined() {
    // Bytes [8, 27) lie in all three volumes.
    let volumes = three_volumes();
    let mut reader = MultiVolumeReader::open(volumes.clone()).unwrap();
    assert_eq!(reader.seek(SeekFrom::Start(8)).unwrap(), 8);
    let mut buf = vec![0u8; 19];
    assert_eq!(reader.read(&mut buf), 19);
    let mut joined = Vec::new();
    joined.extend_from_slice(&volumes[0][8..10]);
    joined.extend_from_slice(&volumes[1][8..23]);
    joined.extend_from_slice(&volumes[2][8..10]);
    assert_eq!(buf, joined);
    assert_eq!(reader.stream_position(), 27);
}

#[test]
fn read_stops_at_the_end() {
    let mut reader = MultiVolumeReader::open(three_volumes()).unwrap();
    reader.seek(SeekFrom::Start(28)).unwrap();
    let mut buf = [9u8; 5];
    assert_eq!(reader.read(&mut buf), 2);
    assert_eq!(buf, [28, 29, 9, 9, 9]);
    assert_eq!(reader.read(&mut buf), 0);
    assert_eq!(reader.read(&mut []), 0);
}

#[test]
fn read_exact_fills_or_fails() {
    let mut reader = MultiVolumeReader::open(three_volumes()).unwrap();
    let mut buf = [0u8; 12];
    reader.read_exact(&mut buf).unwrap();
    assert_eq!(buf, [0, 1, 2, 3, 4, 5, 6, 7, 8, 9, 10, 11]);
    reader.seek(SeekFrom::Start(20)).unwrap();
    let err = reader.read_exact(&mut buf).unwrap_err();
    assert_eq!(err.kind(), std::io::ErrorKind::UnexpectedEof);
    assert_eq!(reader.stream_position(), 30);
    reader.read_exact(&mut []).unwrap();
}

#[test]
fn seeks_from_start_end_and_current() {
    let mut reader = MultiVolumeReader::open(three_volumes()).unwrap();
    assert_eq!(reader.seek(SeekFrom::Start(10)).unwrap(), 10);
    assert_eq!(reader.seek(SeekFrom::Current(5)).unwrap(), 15);
    assert_eq!(reader.seek(SeekFrom::Current(-15)).unwrap(), 0);
    assert_eq!(reader.seek(SeekFrom::End(0)).unwrap(), 30);
    assert_eq!(reader.seek(SeekFrom::End(-30)).unwrap(), 0);
    assert_eq!(reader.seek(SeekFrom::End(-5)).unwrap(), 25);
    let mut buf = [0u8; 1];
    assert_eq!(reader.read(&mut buf), 1);
    assert_eq!(buf[0], 25);
}

#[test]
fn seek_past_the_end_is_silent() {
    let mut reader = MultiVolumeReader::open(three_volumes()).unwrap();
    assert_eq!(reader.seek(SeekFrom::Start(1000)).unwrap(), 1000);
    assert_eq!(reader.stream_position(), 1000);
    let mut buf = [7u8; 4];
    assert_eq!(reader.read(&mut buf), 0);
    assert_eq!(buf, [7; 4]);
    assert_eq!(reader.seek(SeekFrom::End(3)).unwrap(), 33);
    assert_eq!(reader.seek(SeekFrom::Start(u64::MAX)).unwrap(), u64::MAX);
}

#[test]
fn seek_before_the_start_fails() {
    let mut reader = MultiVolumeReader::open(three_volumes()).unwrap();
    reader.seek(SeekFrom::Start(3)).unwrap();
    let err = reader.seek(SeekFrom::Current(-4)).unwrap_err();
    assert_eq!(err.kind(), std::io::ErrorKind::InvalidInput);
    assert_eq!(reader.stream_position(), 3);
    assert!(reader.seek(SeekFrom::End(-31)).is_err());
    assert!(reader.seek(SeekFrom::Current(i64::MIN)).is_err());
    reader.seek(SeekFrom::Start(u64::MAX)).unwrap();
    assert!(reader.seek(SeekFrom::Current(1)).is_err());
    assert_eq!(reader.stream_position(), u64::MAX);
}

#[test]
fn tail_is_the_end_of_the_first_volume() {
    let reader = MultiVolumeReader::open(three_volumes()).unwrap();
    assert_eq!(reader.tail(), &[0xff; 16]);
    let data: Vec<u8> = (0..40).collect();
    let single = MultiVolumeReader::from_bytes(data);
    let expected: Vec<u8> = (24..40).collect();
    assert_eq!(&single.tail()[..], &expected[..]);
    let short = MultiVolumeReader::from_bytes(vec![1, 2, 3]);
    assert_eq!(short.tail(), &[0u8; 16]);
}

#[test]
fn open_needs_a_first_volume() {
    let err = MultiVolumeReader::open(Vec::new()).err().unwrap();
    match err {
        AlzError::CantOpenFile(e) => assert_eq!(e.kind(), std::io::ErrorKind::NotFound),
        other => panic!("unexpected error: {}", other.to_string()),
    }
}

#[test]
fn open_refuses_a_volume_without_room_for_header_and_trailer() {
    // The first of two volumes needs 16 bytes of trailer.
    assert!(matches!(
        MultiVolumeReader::open(vec![vec![0; 15], vec![0; 8]]),
        Err(AlzError::CorruptedFile)
    ));
    // The last volume needs 8 bytes of header.
    assert!(matches!(
        MultiVolumeReader::open(vec![vec![0; 16], vec![0; 7]]),
        Err(AlzError::CorruptedFile)
    ));
    // A middle volume needs both.
    assert!(matches!(
        MultiVolumeReader::open(vec![vec![0; 16], vec![0; 23], vec![0; 8]]),
        Err(AlzError::CorruptedFile)
    ));
    let reader = MultiVolumeReader::open(vec![vec![0; 16], vec![0; 24], vec![0; 8]]).unwrap();
    assert_eq!(reader.total_size(), 0);
    // A single volume has neither.
    assert_eq!(MultiVolumeReader::open(vec![Vec::new()]).unwrap().total_size(), 0);
}

#[test]
fn open_uses_at_most_a_thousand_volumes() {
    let mut volumes = Vec::new();
    volumes.push(vec![1u8; 17]);
    for _ in 1..1005 {
        volumes.push(vec![2u8; 25]);
    }
    let reader = MultiVolumeReader::open(volumes).unwrap();
    // 1 byte from the first, 1 from each of 998, and 17 from the last one
    // that is used, which keeps its last 16 bytes as data.
    assert_eq!(reader.total_size(), 1 + 998 + 17);
}

#[test]
fn volume_names_follow_the_archive_name() {
    assert_eq!(volume_path("dir/name.alz", 0).unwrap(), "dir/name.alz");
    assert_eq!(volume_path("dir/name.alz", 1).unwrap(), "dir/name.a00");
    assert_eq!(volume_path("dir/name.alz", 2).unwrap(), "dir/name.a01");
    assert_eq!(volume_path("dir/name.alz", 100).unwrap(), "dir/name.a99");
    assert_eq!(volume_path("dir/name.alz", 101).unwrap(), "dir/name.b00");
    assert_eq!(volume_path("dir/name.alz", 999).unwrap(), "dir/name.j98");
    assert_eq!(volume_path("한글.alz", 3).unwrap(), "한글.a02");
    assert_eq!(volume_path("a.al", 1).unwrap(), "aa00");
}

#[test]
fn volume_names_need_four_characters() {
    assert!(matches!(volume_path("alz", 0), Err(AlzError::CantOpenFile(_))));
    assert!(matches!(volume_path("", 5), Err(AlzError::CantOpenFile(_))));
    match volume_path("x", 1) {
        Err(AlzError::CantOpenFile(e)) => assert_eq!(e.kind(), std::io::ErrorKind::InvalidInput),
        _ => panic!("a short path was accepted"),
    }
}
