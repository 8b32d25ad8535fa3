//! The ALZ container: a sequence of records, each introduced by a 32-bit
//! little-endian signature.
//!
//! Parsing walks the records from the start of the virtual stream and
//! collects one entry per local file record. Payloads are not read: the
//! parser notes where each one starts and steps over it.

use crate::crypto::ENCR_HEADER_LEN;
use crate::encoding::{cp949_to_utf8, name_text};
use crate::error::{AlzError, AlzResult};
use crate::multivolume::{
    chain_of, end_info, images_of, virtual_stream, volumes_fit, MultiVolumeReader, SeekFrom,
};
use crate::text::{decimal_digits, push_decimal};
use vstd::prelude::*;
use vstd::slice::slice_subrange;
use vstd::string::StringExecFns;

verus! {

/// Signature of the file header, `ALZ\x01`.
pub const SIG_ALZ_FILE_HEADER: u32 = 0x015a4c41;

/// Signature of a local file record, `BLZ\x01`.
pub const SIG_LOCAL_FILE_HEADER: u32 = 0x015a4c42;

/// Signature of a central directory record, `CLZ\x01`.
pub const SIG_CENTRAL_DIRECTORY: u32 = 0x015a4c43;

/// Signature of the end record, `CLZ\x02`.
pub const SIG_END_OF_CENTRAL_DIR: u32 = 0x025a4c43;

/// Signature of a comment record, `ELZ\x01`.
pub const SIG_COMMENT: u32 = 0x015a4c45;

/// Signature of a split marker, `CLZ\x03`.
pub const SIG_SPLIT_MARKER: u32 = 0x035a4c43;

/// Descriptor bit: the entry is encrypted.
pub const DESC_ENCRYPTED: u8 = 0x01;

/// Descriptor bit: the password check goes against the timestamp.
pub const DESC_DATA_DESCR: u8 = 0x08;

/// Attribute bit: read-only.
pub const ATTR_READONLY: u8 = 0x01;

/// Attribute bit: hidden.
pub const ATTR_HIDDEN: u8 = 0x02;

/// Attribute bit: system file.
pub const ATTR_SYSTEM: u8 = 0x04;

/// Attribute bit: directory.
pub const ATTR_DIRECTORY: u8 = 0x10;

/// Attribute bit: archive.
pub const ATTR_ARCHIVE: u8 = 0x20;

/// Attribute bit: symbolic link.
pub const ATTR_SYMLINK: u8 = 0x40;

/// The longest entry name, in bytes.
pub const MAX_NAME_LENGTH: usize = 4096;

/// 256 to the power `n`.
pub open spec fn pow256(n: nat) -> nat
    decreases n,
{
    if n == 0 {
        1
    } else {
        256 * pow256((n - 1) as nat)
    }
}

/// The number that `bytes` spell in little-endian order.
pub open spec fn le_value(bytes: Seq<u8>) -> nat
    decreases bytes.len(),
{
    if bytes.len() == 0 {
        0
    } else {
        bytes[0] as nat + 256 * le_value(bytes.drop_first())
    }
}

/// A little-endian number of `n` bytes is below 256 to the `n`.
pub proof fn lemma_le_value_bound(bytes: Seq<u8>)
    ensures
        le_value(bytes) < pow256(bytes.len()),
    decreases bytes.len(),
{
    if bytes.len() > 0 {
        lemma_le_value_bound(bytes.drop_first());
    }
}

/// The powers of 256 that bound the integers of the format.
pub proof fn lemma_pow256_values()
    ensures
        pow256(0) == 1,
        pow256(1) == 0x100,
        pow256(2) == 0x1_0000,
        pow256(4) == 0x1_0000_0000,
        pow256(8) == 0x1_0000_0000_0000_0000,
{
    reveal_with_fuel(pow256, 9);
}

/// Reads up to eight bytes as a little-endian number.
fn le_bytes_value(bytes: &[u8]) -> (v: u64)
    requires
        bytes@.len() <= 8,
    ensures
        v == le_value(bytes@),
{
    let n = bytes.len();
    let mut v: u64 = 0;
    let mut i: usize = n;
    while i > 0
        invariant
            i <= n,
            n == bytes@.len(),
            n <= 8,
            v == le_value(bytes@.subrange(i as int, n as int)),
        decreases i,
    {
        proof {
            lemma_le_value_bound(bytes@.subrange(i as int, n as int));
            reveal_with_fuel(pow256, 9);
            assert(bytes@.subrange(i - 1, n as int).drop_first() =~= bytes@.subrange(
                i as int,
                n as int,
            ));
            lemma_le_value_bound(bytes@.subrange(i - 1, n as int));
        }
        i -= 1;
        v = v * 256 + bytes[i] as u64;
    }
    proof {
        assert(bytes@.subrange(0, n as int) =~= bytes@);
    }
    v
}

/// How the payload of an entry is packed.
#[derive(Debug, Clone, Copy, PartialEq, Eq, Structural)]
pub enum CompressionMethod {
    Store,
    Bzip2,
    Deflate,
    Unknown(u8),
}

/// The method that a method byte names.
pub open spec fn method_of(b: u8) -> CompressionMethod {
    if b == 0 {
        CompressionMethod::Store
    } else if b == 1 {
        CompressionMethod::Bzip2
    } else if b == 2 {
        CompressionMethod::Deflate
    } else {
        CompressionMethod::Unknown(b)
    }
}

/// The name of a method, as listings show it.
pub open spec fn method_text(m: CompressionMethod) -> Seq<char> {
    match m {
        CompressionMethod::Store => "Store"@,
        CompressionMethod::Bzip2 => "BZip2"@,
        CompressionMethod::Deflate => "Deflate"@,
        CompressionMethod::Unknown(n) => "Unknown("@ + decimal_digits(n as nat) + ")"@,
    }
}

impl CompressionMethod {
    /// The name of the method.
    pub fn to_string(&self) -> (s: String)
        ensures
            s@ == method_text(*self),
    {
        let mut s = String::new();
        match self {
            CompressionMethod::Store => {
                s.append("Store");
            },
            CompressionMethod::Bzip2 => {
                s.append("BZip2");
            },
            CompressionMethod::Deflate => {
                s.append("Deflate");
            },
            CompressionMethod::Unknown(n) => {
                s.append("Unknown(");
                push_decimal(&mut s, *n as u64);
                s.append(")");
            },
        }
        proof {
            assert(s@ =~= method_text(*self));
        }
        s
    }

    /// The method that a method byte names.
    pub fn from_byte(b: u8) -> (m: Self)
        ensures
            m == method_of(b),
    {
        match b {
            0 => Self::Store,
            1 => Self::Bzip2,
            2 => Self::Deflate,
            n => Self::Unknown(n),
        }
    }
}

/// Whether a descriptor byte marks its entry as encrypted.
pub open spec fn descriptor_encrypted(descriptor: u8) -> bool {
    descriptor & DESC_ENCRYPTED != 0
}

/// Whether a descriptor byte puts the password check on the timestamp.
pub open spec fn descriptor_data_descr(descriptor: u8) -> bool {
    descriptor & DESC_DATA_DESCR != 0
}

/// The width in bytes of the two size fields, from the high nibble of the
/// descriptor; `None` for a nibble that names no width.
pub open spec fn size_field_width(descriptor: u8) -> Option<nat> {
    let nibble = descriptor & 0xF0;
    if nibble == 0x00 {
        Some(0nat)
    } else if nibble == 0x10 {
        Some(1nat)
    } else if nibble == 0x20 {
        Some(2nat)
    } else if nibble == 0x40 {
        Some(4nat)
    } else if nibble == 0x80 {
        Some(8nat)
    } else {
        None
    }
}

/// One entry of an archive, as its local file record describes it.
#[derive(Debug, Clone)]
pub struct AlzFileEntry {
    pub file_name: String,
    pub file_attribute: u8,
    pub file_time_date: u32,
    pub file_descriptor: u8,
    pub compression_method: CompressionMethod,
    pub file_crc: u32,
    pub compressed_size: u64,
    pub uncompressed_size: u64,
    pub data_pos: u64,
    pub enc_check: Option<[u8; ENCR_HEADER_LEN]>,
}

/// An entry as a mathematical value.
pub struct EntryView {
    pub file_name: Seq<char>,
    pub file_attribute: u8,
    pub file_time_date: u32,
    pub file_descriptor: u8,
    pub compression_method: CompressionMethod,
    pub file_crc: u32,
    pub compressed_size: u64,
    pub uncompressed_size: u64,
    pub data_pos: u64,
    pub enc_check: Option<Seq<u8>>,
}

impl View for AlzFileEntry {
    type V = EntryView;

    open spec fn view(&self) -> EntryView {
        EntryView {
            file_name: self.file_name@,
            file_attribute: self.file_attribute,
            file_time_date: self.file_time_date,
            file_descriptor: self.file_descriptor,
            compression_method: self.compression_method,
            file_crc: self.file_crc,
            compressed_size: self.compressed_size,
            uncompressed_size: self.uncompressed_size,
            data_pos: self.data_pos,
            enc_check: match self.enc_check {
                Some(h) => Some(h@),
                None => None,
            },
        }
    }
}

impl AlzFileEntry {
    /// Whether the payload is encrypted.
    pub fn is_encrypted(&self) -> (b: bool)
        ensures
            b == descriptor_encrypted(self.file_descriptor),
    {
        self.file_descriptor & DESC_ENCRYPTED != 0
    }

    /// Whether the entry is a directory.
    pub fn is_directory(&self) -> (b: bool)
        ensures
            b == (self.file_attribute & ATTR_DIRECTORY != 0),
    {
        self.file_attribute & ATTR_DIRECTORY != 0
    }

    /// Whether the entry is a symbolic link.
    pub fn is_symlink(&self) -> (b: bool)
        ensures
            b == (self.file_attribute & ATTR_SYMLINK != 0),
    {
        self.file_attribute & ATTR_SYMLINK != 0
    }

    /// Whether the password check goes against the timestamp.
    pub fn has_data_descriptor(&self) -> (b: bool)
        ensures
            b == descriptor_data_descr(self.file_descriptor),
    {
        self.file_descriptor & DESC_DATA_DESCR != 0
    }
}

/// The ways in which a stream fails to parse.
pub enum ParseFailure {
    /// An unknown signature before any file header.
    NotAlzFile,
    /// An unknown signature after a file header, or a record that claims
    /// more bytes than the stream holds.
    CorruptedFile,
    InvalidFilenameLength,
    InvalidSizeFieldWidth(u8),
    /// The stream ends inside a record.
    UnexpectedEof,
}

/// The parse failure that an error value reports, if it reports one.
pub open spec fn parse_failure_of(e: AlzError) -> Option<ParseFailure> {
    match e {
        AlzError::NotAlzFile => Some(ParseFailure::NotAlzFile),
        AlzError::CorruptedFile => Some(ParseFailure::CorruptedFile),
        AlzError::InvalidFilenameLength => Some(ParseFailure::InvalidFilenameLength),
        AlzError::InvalidSizeFieldWidth(b) => Some(ParseFailure::InvalidSizeFieldWidth(b)),
        AlzError::Io(_) => Some(ParseFailure::UnexpectedEof),
        _ => None,
    }
}

/// Where the parts of a local file record lie, for a record whose fixed
/// part starts at `p`, right after the signature, and whose size fields
/// are `width` bytes wide.
pub struct RecordLayout {
    /// Length of the name in bytes.
    pub name_len: nat,
    /// End of the fixed part and of the size fields: start of the name.
    pub name_start: int,
    /// Start of the payload, after the name and the check header.
    pub data_pos: int,
    /// Length of the payload.
    pub compressed_size: nat,
}

/// The layout of the local file record at `p`.
pub open spec fn record_layout(s: Seq<u8>, p: int, width: nat) -> RecordLayout {
    let name_len = le_value(s.subrange(p, p + 2));
    let name_start = if width > 0 {
        p + 15 + 2 * width
    } else {
        p + 9
    };
    RecordLayout {
        name_len,
        name_start,
        data_pos: if descriptor_encrypted(s[p + 7]) {
            name_start + name_len + ENCR_HEADER_LEN
        } else {
            name_start + name_len
        },
        compressed_size: if width > 0 {
            le_value(s.subrange(p + 15, p + 15 + width))
        } else {
            0
        },
    }
}

/// The entry that the local file record at `p` describes, where the record
/// lies inside the stream.
pub open spec fn record_entry(s: Seq<u8>, p: int, width: nat) -> EntryView {
    let layout = record_layout(s, p, width);
    let name_end = layout.name_start + layout.name_len;
    EntryView {
        file_name: name_text(s.subrange(layout.name_start, name_end)),
        file_attribute: s[p + 2],
        file_time_date: le_value(s.subrange(p + 3, p + 7)) as u32,
        file_descriptor: s[p + 7],
        compression_method: if width > 0 {
            method_of(s[p + 9])
        } else {
            CompressionMethod::Store
        },
        file_crc: if width > 0 {
            le_value(s.subrange(p + 11, p + 15)) as u32
        } else {
            0
        },
        compressed_size: layout.compressed_size as u64,
        uncompressed_size: if width > 0 {
            le_value(s.subrange(p + 15 + width, p + 15 + 2 * width)) as u64
        } else {
            0
        },
        data_pos: layout.data_pos as u64,
        enc_check: if descriptor_encrypted(s[p + 7]) {
            Some(s.subrange(name_end, layout.data_pos))
        } else {
            None
        },
    }
}

/// The local file record whose fixed part starts at `p`, right after the
/// signature: the entry it describes and the number of bytes from `p` to
/// the end of its payload. The checks come in the order in which the record
/// is read: the fixed part, the size width, the size fields, the name
/// length, the name, the check header, and last the payload, which must lie
/// inside the stream and be no longer than a signed 64-bit offset.
#[verifier::opaque]
pub open spec fn local_header_spec(s: Seq<u8>, p: int) -> Result<(EntryView, nat), ParseFailure> {
    if p + 9 > s.len() {
        Err(ParseFailure::UnexpectedEof)
    } else if size_field_width(s[p + 7]) is None {
        Err(ParseFailure::InvalidSizeFieldWidth(s[p + 7] & 0xF0))
    } else {
        let width = size_field_width(s[p + 7])->Some_0;
        let layout = record_layout(s, p, width);
        if layout.name_start > s.len() {
            Err(ParseFailure::UnexpectedEof)
        } else if layout.name_len == 0 || layout.name_len > MAX_NAME_LENGTH {
            Err(ParseFailure::InvalidFilenameLength)
        } else if layout.data_pos > s.len() {
            Err(ParseFailure::UnexpectedEof)
        } else if layout.compressed_size > i64::MAX || layout.data_pos + layout.compressed_size
            > s.len() {
            Err(ParseFailure::CorruptedFile)
        } else {
            Ok(
                (
                    record_entry(s, p, width),
                    (layout.data_pos + layout.compressed_size - p) as nat,
                ),
            )
        }
    }
}

/// The records of `s` from position `p` on, where `seen_header` tells
/// whether a file header came before and `found` holds the entries so far:
/// all entries up to the end record or the end of the stream, or the first
/// failure. `comment_len` is the length that the end-info block gives for a
/// comment record, its signature included.
pub open spec fn scan_records(
    s: Seq<u8>,
    comment_len: nat,
    p: int,
    seen_header: bool,
    found: Seq<EntryView>,
) -> Result<Seq<EntryView>, ParseFailure>
    decreases
            (if p < s.len() {
                s.len() - p
            } else {
                0
            }),
{
    if p < 0 || p + 4 > s.len() {
        Ok(found)
    } else {
        let sig = le_value(s.subrange(p, p + 4));
        let q = p + 4;
        if sig == SIG_ALZ_FILE_HEADER {
            if q + 4 > s.len() {
                Err(ParseFailure::UnexpectedEof)
            } else {
                scan_records(s, comment_len, q + 4, true, found)
            }
        } else if sig == SIG_LOCAL_FILE_HEADER {
            let record = local_header_spec(s, q);
            if record is Err {
                Err(record->Err_0)
            } else {
                scan_records(
                    s,
                    comment_len,
                    q + record->Ok_0.1,
                    seen_header,
                    found.push(record->Ok_0.0),
                )
            }
        } else if sig == SIG_CENTRAL_DIRECTORY {
            if q + 12 > s.len() {
                Err(ParseFailure::UnexpectedEof)
            } else {
                scan_records(s, comment_len, q + 12, seen_header, found)
            }
        } else if sig == SIG_END_OF_CENTRAL_DIR {
            Ok(found)
        } else if sig == SIG_COMMENT {
            if comment_len > 4 {
                if q + comment_len - 4 > s.len() {
                    Err(ParseFailure::CorruptedFile)
                } else {
                    scan_records(s, comment_len, q + comment_len - 4, seen_header, found)
                }
            } else {
                scan_records(s, comment_len, q, seen_header, found)
            }
        } else if sig == SIG_SPLIT_MARKER {
            scan_records(s, comment_len, q, seen_header, found)
        } else if seen_header {
            Err(ParseFailure::CorruptedFile)
        } else {
            Err(ParseFailure::NotAlzFile)
        }
    }
}

/// What holds of every entry of a parsed stream of `total` bytes: its size
/// width is one of the five, an entry without size fields is stored,
/// empty and has checksum zero, a check header of twelve bytes is there
/// exactly where the entry is encrypted, and the payload lies inside the
/// stream.
pub open spec fn entry_well_formed(entry: EntryView, total: nat) -> bool {
    &&& size_field_width(entry.file_descriptor) is Some
    &&& size_field_width(entry.file_descriptor) == Some(0nat) ==> entry.compressed_size == 0
        && entry.uncompressed_size == 0 && entry.compression_method == CompressionMethod::Store
        && entry.file_crc == 0
    &&& descriptor_encrypted(entry.file_descriptor) <==> entry.enc_check is Some
    &&& entry.enc_check matches Some(header) ==> header.len() == ENCR_HEADER_LEN
    &&& entry.data_pos + entry.compressed_size <= total
}

/// The entry of a local file record is well formed.
pub proof fn lemma_local_header_well_formed(s: Seq<u8>, p: int)
    requires
        0 <= p,
        s.len() <= u64::MAX,
    ensures
        local_header_spec(s, p) matches Ok(record) ==> entry_well_formed(record.0, s.len()),
{
    reveal(local_header_spec);
    if local_header_spec(s, p) is Ok {
        let w = size_field_width(s[p + 7])->Some_0;
        if w > 0 {
            lemma_le_value_bound(s.subrange(p + 15, p + 15 + w));
            reveal_with_fuel(pow256, 9);
        }
    }
}

/// Scanning adds only well-formed entries to those found before.
pub proof fn lemma_scan_well_formed(
    s: Seq<u8>,
    comment_len: nat,
    p: int,
    seen_header: bool,
    found: Seq<EntryView>,
)
    requires
        s.len() <= u64::MAX,
        forall|i: int| 0 <= i < found.len() ==> entry_well_formed(#[trigger] found[i], s.len()),
    ensures
        scan_records(s, comment_len, p, seen_header, found) matches Ok(entries) ==> forall|i: int|
            0 <= i < entries.len() ==> entry_well_formed(#[trigger] entries[i], s.len()),
    decreases
            (if p < s.len() {
                s.len() - p
            } else {
                0
            }),
{
    if !(p < 0 || p + 4 > s.len()) {
        let sig = le_value(s.subrange(p, p + 4));
        let q = p + 4;
        if sig == SIG_ALZ_FILE_HEADER {
            if q + 4 <= s.len() {
                lemma_scan_well_formed(s, comment_len, q + 4, true, found);
            }
        } else if sig == SIG_LOCAL_FILE_HEADER {
            let record = local_header_spec(s, q);
            if record is Ok {
                lemma_local_header_well_formed(s, q);
                let next = found.push(record->Ok_0.0);
                assert forall|i: int| 0 <= i < next.len() implies entry_well_formed(
                    #[trigger] next[i],
                    s.len(),
                ) by {
                    if i < found.len() {
                        assert(next[i] == found[i]);
                    }
                }
                lemma_scan_well_formed(s, comment_len, q + record->Ok_0.1, seen_header, next);
            }
        } else if sig == SIG_CENTRAL_DIRECTORY {
            if q + 12 <= s.len() {
                lemma_scan_well_formed(s, comment_len, q + 12, seen_header, found);
            }
        } else if sig == SIG_END_OF_CENTRAL_DIR {
        } else if sig == SIG_COMMENT {
            if comment_len > 4 {
                if q + comment_len - 4 <= s.len() {
                    lemma_scan_well_formed(s, comment_len, q + comment_len - 4, seen_header, found);
                }
            } else {
                lemma_scan_well_formed(s, comment_len, q, seen_header, found);
            }
        } else if sig == SIG_SPLIT_MARKER {
            lemma_scan_well_formed(s, comment_len, q, seen_header, found);
        }
    }
}

/// Whether the payloads of `entries` start at strictly increasing
/// positions, all of them at or before `limit`.
pub open spec fn payloads_in_order(entries: Seq<EntryView>, limit: int) -> bool {
    &&& forall|i: int, j: int|
        0 <= i < j < entries.len() ==> (#[trigger] entries[i]).data_pos < (
        #[trigger] entries[j]).data_pos
    &&& forall|i: int| 0 <= i < entries.len() ==> (#[trigger] entries[i]).data_pos <= limit
}

/// The payload of a local file record starts after the record's start and
/// ends where the record ends.
pub proof fn lemma_local_header_payload_position(s: Seq<u8>, p: int)
    requires
        0 <= p,
        s.len() <= u64::MAX,
    ensures
        local_header_spec(s, p) matches Ok(record) ==> p < record.0.data_pos <= p + record.1
            <= s.len(),
{
    reveal(local_header_spec);
    if local_header_spec(s, p) is Ok {
        let w = size_field_width(s[p + 7])->Some_0;
        if w > 0 {
            lemma_le_value_bound(s.subrange(p + 15, p + 15 + w));
            reveal_with_fuel(pow256, 9);
        }
    }
}

/// Scanning keeps the payloads in the order of the records.
pub proof fn lemma_scan_in_order(
    s: Seq<u8>,
    comment_len: nat,
    p: int,
    seen_header: bool,
    found: Seq<EntryView>,
)
    requires
        s.len() <= u64::MAX,
        0 <= p <= s.len(),
        payloads_in_order(found, p),
    ensures
        scan_records(s, comment_len, p, seen_header, found) matches Ok(entries)
            ==> payloads_in_order(entries, s.len() as int),
    decreases
            (if p < s.len() {
                s.len() - p
            } else {
                0
            }),
{
    if p < 0 || p + 4 > s.len() {
        if found.len() > 0 {
            assert(found[0].data_pos <= p);
        }
        assert(payloads_in_order(found, s.len() as int)) by {
            assert forall|i: int| 0 <= i < found.len() implies (#[trigger] found[i]).data_pos
                <= s.len() by {
                assert(found[i].data_pos <= p);
                assert(found[i].data_pos >= 0);
            }
        }
    } else {
        let sig = le_value(s.subrange(p, p + 4));
        let q = p + 4;
        if sig == SIG_ALZ_FILE_HEADER {
            if q + 4 <= s.len() {
                lemma_scan_in_order(s, comment_len, q + 4, true, found);
            }
        } else if sig == SIG_LOCAL_FILE_HEADER {
            let record = local_header_spec(s, q);
            if record is Ok {
                lemma_local_header_payload_position(s, q);
                let next = found.push(record->Ok_0.0);
                assert(payloads_in_order(next, q + record->Ok_0.1)) by {
                    assert forall|i: int, j: int| 0 <= i < j < next.len() implies (
                    #[trigger] next[i]).data_pos < (#[trigger] next[j]).data_pos by {
                        if j < found.len() {
                            assert(next[i] == found[i] && next[j] == found[j]);
                        } else {
                            assert(next[i] == found[i]);
                            assert(found[i].data_pos <= p);
                        }
                    }
                    assert forall|i: int| 0 <= i < next.len() implies (
                    #[trigger] next[i]).data_pos <= q + record->Ok_0.1 by {
                        if i < found.len() {
                            assert(next[i] == found[i]);
                            assert(found[i].data_pos <= p);
                        }
                    }
                }
                lemma_scan_in_order(s, comment_len, q + record->Ok_0.1, seen_header, next);
            }
        } else if sig == SIG_CENTRAL_DIRECTORY {
            if q + 12 <= s.len() {
                lemma_scan_in_order(s, comment_len, q + 12, seen_header, found);
            }
        } else if sig == SIG_END_OF_CENTRAL_DIR {
            assert forall|i: int| 0 <= i < found.len() implies (#[trigger] found[i]).data_pos
                <= s.len() by {
                assert(found[i].data_pos <= p);
            }
        } else if sig == SIG_COMMENT {
            if comment_len > 4 {
                if q + comment_len - 4 <= s.len() {
                    lemma_scan_in_order(s, comment_len, q + comment_len - 4, seen_header, found);
                }
            } else {
                lemma_scan_in_order(s, comment_len, q, seen_header, found);
            }
        } else if sig == SIG_SPLIT_MARKER {
            lemma_scan_in_order(s, comment_len, q, seen_header, found);
        }
    }
}

/// The entries of a parsed archive stand in the order of the container:
/// their payloads start at strictly increasing positions.
pub proof fn lemma_parsed_entries_in_order(files: Seq<Seq<u8>>)
    requires
        virtual_stream(files).len() <= u64::MAX,
    ensures
        parse_images(files) matches Ok(entries) ==> forall|i: int, j: int|
            0 <= i < j < entries.len() ==> (#[trigger] entries[i]).data_pos < (
            #[trigger] entries[j]).data_pos,
{
    lemma_scan_in_order(
        virtual_stream(files),
        comment_length(end_info(files[0])),
        0,
        false,
        Seq::empty(),
    );
}

/// Every entry of a parsed archive is well formed.
pub proof fn lemma_parsed_entries_well_formed(files: Seq<Seq<u8>>)
    requires
        virtual_stream(files).len() <= u64::MAX,
    ensures
        parse_images(files) matches Ok(entries) ==> forall|i: int|
            0 <= i < entries.len() ==> entry_well_formed(
                #[trigger] entries[i],
                virtual_stream(files).len(),
            ),
{
    lemma_scan_well_formed(
        virtual_stream(files),
        comment_length(end_info(files[0])),
        0,
        false,
        Seq::empty(),
    );
}

/// The comment length that an end-info block declares.
pub open spec fn comment_length(tail: Seq<u8>) -> nat {
    le_value(tail.subrange(4, 8))
}

/// The entry table of a virtual stream with end-info block `tail`.
pub open spec fn parse_stream(stream: Seq<u8>, tail: Seq<u8>) -> Result<
    Seq<EntryView>,
    ParseFailure,
> {
    scan_records(stream, comment_length(tail), 0, false, Seq::empty())
}

/// The entry table of a chain of volume images.
pub open spec fn parse_images(files: Seq<Seq<u8>>) -> Result<Seq<EntryView>, ParseFailure> {
    parse_stream(virtual_stream(files), end_info(files[0]))
}

/// The views of a sequence of entries.
pub open spec fn entry_views(entries: Seq<AlzFileEntry>) -> Seq<EntryView> {
    entries.map_values(|e: AlzFileEntry| e@)
}

/// Whether any of the entries is encrypted.
pub open spec fn any_encrypted(entries: Seq<EntryView>) -> bool {
    exists|i: int| 0 <= i < entries.len() && descriptor_encrypted(#[trigger] entries[i].file_descriptor)
}

/// Whether any of the entries puts the password check on the timestamp.
pub open spec fn any_data_descr(entries: Seq<EntryView>) -> bool {
    exists|i: int|
        0 <= i < entries.len() && descriptor_data_descr(#[trigger] entries[i].file_descriptor)
}

/// The fields of a local file record that are present only where the size
/// width is not zero.
struct SizedFields {
    method: CompressionMethod,
    crc: u32,
    compressed_size: u64,
    uncompressed_size: u64,
}

/// A parsed archive: the reader over its volumes, the entry table in the
/// order of the records, and whether any entry is encrypted or puts the
/// password check on the timestamp.
pub struct AlzArchive {
    pub reader: MultiVolumeReader,
    pub entries: Vec<AlzFileEntry>,
    pub is_encrypted: bool,
    pub is_data_descr: bool,
}

/// Parsing is repeatable: two archives that hold the table of the same
/// volume images have equal entry tables and equal summary flags.
pub proof fn lemma_same_images_same_table(a: AlzArchive, b: AlzArchive, files: Seq<Seq<u8>>)
    requires
        a.holds_table_of(files),
        b.holds_table_of(files),
    ensures
        entry_views(a.entries@) == entry_views(b.entries@),
        a.is_encrypted == b.is_encrypted,
        a.is_data_descr == b.is_data_descr,
        a.reader.stream() == b.reader.stream(),
{
}

impl AlzArchive {
    /// What a successful parse leaves behind: the reader over the same
    /// chain, the entry table of its stream, and the two summary flags.
    pub open spec fn holds_table_of(&self, files: Seq<Seq<u8>>) -> bool {
        &&& self.reader.wf()
        &&& self.reader.files() == files
        &&& parse_images(files) == Ok::<Seq<EntryView>, ParseFailure>(entry_views(self.entries@))
        &&& self.is_encrypted == any_encrypted(entry_views(self.entries@))
        &&& self.is_data_descr == any_data_descr(entry_views(self.entries@))
    }

    /// Opens the archive held by a chain of volume images, first volume
    /// first, and parses its entry table.
    pub fn open(images: Vec<Vec<u8>>) -> (r: AlzResult<Self>)
        ensures
            r matches Ok(a) ==> a.holds_table_of(chain_of(images_of(images@))),
            r is Ok <==> images@.len() > 0 && volumes_fit(chain_of(images_of(images@)))
                && virtual_stream(chain_of(images_of(images@))).len() <= u64::MAX && parse_images(
                chain_of(images_of(images@)),
            ) is Ok,
            r matches Err(e) ==> {
                let chain = chain_of(images_of(images@));
                if images@.len() == 0 {
                    e is CantOpenFile
                } else if !volumes_fit(chain) || virtual_stream(chain).len() > u64::MAX {
                    e is CorruptedFile
                } else {
                    parse_images(chain) is Err && parse_failure_of(e) == Some(
                        parse_images(chain)->Err_0,
                    )
                }
            },
    {
        let reader = match MultiVolumeReader::open(images) {
            Ok(reader) => reader,
            Err(e) => {
                return Err(e);
            },
        };
        let mut archive = AlzArchive {
            reader,
            entries: Vec::new(),
            is_encrypted: false,
            is_data_descr: false,
        };
        match archive.parse() {
            Ok(()) => Ok(archive),
            Err(e) => Err(e),
        }
    }

    /// Parses the archive held by a single in-memory image.
    pub fn from_bytes(data: Vec<u8>) -> (r: AlzResult<Self>)
        ensures
            r matches Ok(a) ==> a.holds_table_of(seq![data@]) && a.reader.stream() == data@,
            r is Ok <==> parse_stream(data@, end_info(data@)) is Ok,
            r matches Err(e) ==> parse_stream(data@, end_info(data@)) is Err && parse_failure_of(e)
                == Some(parse_stream(data@, end_info(data@))->Err_0),
    {
        let reader = MultiVolumeReader::from_bytes(data);
        let mut archive = AlzArchive {
            reader,
            entries: Vec::new(),
            is_encrypted: false,
            is_data_descr: false,
        };
        match archive.parse() {
            Ok(()) => Ok(archive),
            Err(e) => Err(e),
        }
    }

    /// Walks the records from the start of the stream.
    fn parse(&mut self) -> (r: AlzResult<()>)
        requires
            old(self).reader.wf(),
            old(self).reader.position() == 0,
            old(self).entries@.len() == 0,
            !old(self).is_encrypted,
            !old(self).is_data_descr,
        ensures
            final(self).reader.wf(),
            final(self).reader.files() == old(self).reader.files(),
            r is Ok ==> final(self).holds_table_of(old(self).reader.files()),
            r is Ok <==> parse_images(old(self).reader.files()) is Ok,
            r matches Err(e) ==> parse_failure_of(e) == Some(
                parse_images(old(self).reader.files())->Err_0,
            ),
    {
        let ghost files = self.reader.files();
        let ghost stream = self.reader.stream();
        proof {
            self.reader.lemma_wf_facts();
        }
        let tail = *self.reader.tail();
        let comment_section_size = le_bytes_value(slice_subrange(tail.as_slice(), 4, 8));
        let ghost clen = comment_length(end_info(files[0]));
        let ghost goal = parse_images(files);
        let mut seen_alz_header = false;
        assert(entry_views(self.entries@) =~= Seq::<EntryView>::empty());
        loop
            invariant
                self.reader.wf(),
                self.reader.files() == files,
                files == old(self).reader.files(),
                stream == virtual_stream(files),
                self.reader.position() <= stream.len(),
                comment_section_size == clen,
                goal == scan_records(
                    stream,
                    clen,
                    self.reader.position() as int,
                    seen_alz_header,
                    entry_views(self.entries@),
                ),
                goal == parse_images(files),
                self.is_encrypted == any_encrypted(entry_views(self.entries@)),
                self.is_data_descr == any_data_descr(entry_views(self.entries@)),
            decreases stream.len() - self.reader.position(),
        {
            let sig = match self.read_u32_le() {
                Ok(sig) => sig,
                Err(_) => {
                    return Ok(());
                },
            };
            if sig == SIG_ALZ_FILE_HEADER {
                match self.read_alz_header() {
                    Ok(()) => {},
                    Err(e) => {
                        return Err(e);
                    },
                }
                seen_alz_header = true;
            } else if sig == SIG_LOCAL_FILE_HEADER {
                match self.read_local_file_header() {
                    Ok(()) => {},
                    Err(e) => {
                        return Err(e);
                    },
                }
            } else if sig == SIG_CENTRAL_DIRECTORY {
                match self.read_central_directory() {
                    Ok(()) => {},
                    Err(e) => {
                        return Err(e);
                    },
                }
            } else if sig == SIG_END_OF_CENTRAL_DIR {
                return Ok(());
            } else if sig == SIG_COMMENT {
                match self.skip_comment_section(comment_section_size) {
                    Ok(()) => {},
                    Err(e) => {
                        return Err(e);
                    },
                }
            } else if sig == SIG_SPLIT_MARKER {
            } else {
                if seen_alz_header {
                    return Err(AlzError::CorruptedFile);
                } else {
                    return Err(AlzError::NotAlzFile);
                }
            }
        }
    }

    /// Reads `n` bytes at the cursor.
    fn read_block(&mut self, n: usize) -> (r: AlzResult<Vec<u8>>)
        requires
            old(self).reader.wf(),
            old(self).reader.position() <= old(self).reader.stream().len(),
        ensures
            final(self).reader.wf(),
            final(self).reader.files() == old(self).reader.files(),
            final(self).entries == old(self).entries,
            final(self).is_encrypted == old(self).is_encrypted,
            final(self).is_data_descr == old(self).is_data_descr,
            final(self).reader.position() <= old(self).reader.stream().len(),
            r is Ok <==> old(self).reader.position() + n <= old(self).reader.stream().len(),
            r matches Ok(block) ==> final(self).reader.position() == old(self).reader.position()
                + n && block@ == old(self).reader.stream().subrange(
                old(self).reader.position() as int,
                (old(self).reader.position() + n) as int,
            ),
            r matches Err(e) ==> e is Io,
    {
        let mut block: Vec<u8> = vec![0u8; n];
        match self.reader.read_exact(block.as_mut_slice()) {
            Ok(()) => {
                proof {
                    if n == 0 {
                        assert(block@ =~= old(self).reader.stream().subrange(
                            old(self).reader.position() as int,
                            (old(self).reader.position() + n) as int,
                        ));
                    }
                }
                Ok(block)
            },
            Err(e) => Err(AlzError::from(e)),
        }
    }

    /// The file header: two bytes of version and two of identifier.
    fn read_alz_header(&mut self) -> (r: AlzResult<()>)
        requires
            old(self).reader.wf(),
            old(self).reader.position() <= old(self).reader.stream().len(),
        ensures
            final(self).reader.wf(),
            final(self).reader.files() == old(self).reader.files(),
            final(self).entries == old(self).entries,
            final(self).is_encrypted == old(self).is_encrypted,
            final(self).is_data_descr == old(self).is_data_descr,
            r is Ok <==> old(self).reader.position() + 4 <= old(self).reader.stream().len(),
            r is Ok ==> final(self).reader.position() == old(self).reader.position() + 4,
            r matches Err(e) ==> e is Io,
    {
        match self.read_block(4) {
            Ok(_) => Ok(()),
            Err(e) => Err(e),
        }
    }

    /// The fields that follow the fixed part of a local file record where
    /// the size width is not zero: method, a reserved byte, the declared
    /// CRC and the two sizes, each `byte_len` bytes wide.
    fn read_sized_fields(&mut self, byte_len: usize) -> (r: AlzResult<SizedFields>)
        requires
            old(self).reader.wf(),
            old(self).reader.position() <= old(self).reader.stream().len(),
            0 < byte_len <= 8,
        ensures
            final(self).reader.wf(),
            final(self).reader.files() == old(self).reader.files(),
            final(self).entries == old(self).entries,
            final(self).is_encrypted == old(self).is_encrypted,
            final(self).is_data_descr == old(self).is_data_descr,
            r is Ok <==> old(self).reader.position() + 6 + 2 * byte_len <= old(
                self,
            ).reader.stream().len(),
            r matches Ok(f) ==> {
                let s = old(self).reader.stream();
                let q = old(self).reader.position() as int;
                &&& final(self).reader.position() == q + 6 + 2 * byte_len
                &&& f.method == method_of(s[q])
                &&& f.crc == le_value(s.subrange(q + 2, q + 6))
                &&& f.compressed_size == le_value(s.subrange(q + 6, q + 6 + byte_len))
                &&& f.uncompressed_size == le_value(
                    s.subrange(q + 6 + byte_len, q + 6 + 2 * byte_len),
                )
            },
            r matches Err(e) ==> e is Io,
    {
        let ghost s = self.reader.stream();
        let ghost q = self.reader.position() as int;
        let cm = match self.read_block(1) {
            Ok(cm) => cm,
            Err(e) => {
                return Err(e);
            },
        };
        let method = CompressionMethod::from_byte(cm[0]);
        match self.read_block(1) {
            Ok(_) => {},
            Err(e) => {
                return Err(e);
            },
        }
        let crc_buf = match self.read_block(4) {
            Ok(crc_buf) => crc_buf,
            Err(e) => {
                return Err(e);
            },
        };
        proof {
            lemma_le_value_bound(s.subrange(q + 2, q + 6));
            lemma_pow256_values();
        }
        let crc = le_bytes_value(crc_buf.as_slice()) as u32;
        let compressed_size = match self.read_var_int(byte_len) {
            Ok(v) => v,
            Err(e) => {
                return Err(e);
            },
        };
        let uncompressed_size = match self.read_var_int(byte_len) {
            Ok(v) => v,
            Err(e) => {
                return Err(e);
            },
        };
        Ok(SizedFields { method, crc, compressed_size, uncompressed_size })
    }

    /// The twelve bytes of an encryption check header.
    fn read_check_header(&mut self) -> (r: AlzResult<[u8; ENCR_HEADER_LEN]>)
        requires
            old(self).reader.wf(),
            old(self).reader.position() <= old(self).reader.stream().len(),
        ensures
            final(self).reader.wf(),
            final(self).reader.files() == old(self).reader.files(),
            final(self).entries == old(self).entries,
            final(self).is_encrypted == old(self).is_encrypted,
            final(self).is_data_descr == old(self).is_data_descr,
            r is Ok <==> old(self).reader.position() + ENCR_HEADER_LEN <= old(
                self,
            ).reader.stream().len(),
            r matches Ok(h) ==> final(self).reader.position() == old(self).reader.position()
                + ENCR_HEADER_LEN && h@ == old(self).reader.stream().subrange(
                old(self).reader.position() as int,
                old(self).reader.position() + ENCR_HEADER_LEN,
            ),
            r matches Err(e) ==> e is Io,
    {
        let block = match self.read_block(ENCR_HEADER_LEN) {
            Ok(block) => block,
            Err(e) => {
                return Err(e);
            },
        };
        let mut buf = [0u8; ENCR_HEADER_LEN];
        let mut k: usize = 0;
        while k < ENCR_HEADER_LEN
            invariant
                k <= ENCR_HEADER_LEN,
                block@.len() == ENCR_HEADER_LEN,
                forall|j: int| 0 <= j < k ==> buf@[j] == block@[j],
            decreases ENCR_HEADER_LEN - k,
        {
            buf[k] = block[k];
            k += 1;
        }
        assert(buf@ =~= block@);
        Ok(buf)
    }

    /// Appends an entry and folds its descriptor into the summary flags.
    fn push_entry(&mut self, entry: AlzFileEntry)
        requires
            old(self).is_encrypted == any_encrypted(entry_views(old(self).entries@)),
            old(self).is_data_descr == any_data_descr(entry_views(old(self).entries@)),
        ensures
            final(self).reader == old(self).reader,
            entry_views(final(self).entries@) == entry_views(old(self).entries@).push(entry@),
            final(self).is_encrypted == any_encrypted(entry_views(final(self).entries@)),
            final(self).is_data_descr == any_data_descr(entry_views(final(self).entries@)),
    {
        let ghost before = entry_views(self.entries@);
        let encrypted = entry.is_encrypted();
        let data_descr = entry.has_data_descriptor();
        if encrypted {
            self.is_encrypted = true;
        }
        if data_descr {
            self.is_data_descr = true;
        }
        let ghost view = entry@;
        self.entries.push(entry);
        proof {
            let after = entry_views(self.entries@);
            assert(after =~= before.push(view));
            assert(after[before.len() as int] == view);
            if encrypted {
                assert(descriptor_encrypted(after[before.len() as int].file_descriptor));
            }
            if data_descr {
                assert(descriptor_data_descr(after[before.len() as int].file_descriptor));
            }
            if any_encrypted(before) {
                let i = choose|i: int|
                    0 <= i < before.len() && descriptor_encrypted(
                        #[trigger] before[i].file_descriptor,
                    );
                assert(descriptor_encrypted(after[i].file_descriptor));
            }
            if any_data_descr(before) {
                let i = choose|i: int|
                    0 <= i < before.len() && descriptor_data_descr(
                        #[trigger] before[i].file_descriptor,
                    );
                assert(descriptor_data_descr(after[i].file_descriptor));
            }
            if any_encrypted(after) && !encrypted {
                let i = choose|i: int|
                    0 <= i < after.len() && descriptor_encrypted(
                        #[trigger] after[i].file_descriptor,
                    );
                assert(descriptor_encrypted(before[i].file_descriptor));
            }
            if any_data_descr(after) && !data_descr {
                let i = choose|i: int|
                    0 <= i < after.len() && descriptor_data_descr(
                        #[trigger] after[i].file_descriptor,
                    );
                assert(descriptor_data_descr(before[i].file_descriptor));
            }
        }
    }

    /// A local file record: reads the metadata, notes where the payload
    /// starts, steps over the payload and appends the entry.
    #[verifier::rlimit(40)]
    fn read_local_file_header(&mut self) -> (r: AlzResult<()>)
        requires
            old(self).reader.wf(),
            old(self).reader.position() <= old(self).reader.stream().len(),
            old(self).is_encrypted == any_encrypted(entry_views(old(self).entries@)),
            old(self).is_data_descr == any_data_descr(entry_views(old(self).entries@)),
        ensures
            final(self).reader.wf(),
            final(self).reader.files() == old(self).reader.files(),
            r is Ok <==> local_header_spec(
                old(self).reader.stream(),
                old(self).reader.position() as int,
            ) is Ok,
            r is Ok ==> {
                let (entry, len) = local_header_spec(
                    old(self).reader.stream(),
                    old(self).reader.position() as int,
                )->Ok_0;
                &&& final(self).reader.position() == old(self).reader.position() + len
                &&& final(self).reader.position() <= old(self).reader.stream().len()
                &&& entry_views(final(self).entries@) == entry_views(old(self).entries@).push(entry)
                &&& final(self).is_encrypted == any_encrypted(entry_views(final(self).entries@))
                &&& final(self).is_data_descr == any_data_descr(entry_views(final(self).entries@))
            },
            r matches Err(e) ==> parse_failure_of(e) == Some(
                local_header_spec(
                    old(self).reader.stream(),
                    old(self).reader.position() as int,
                )->Err_0,
            ),
            r is Err ==> final(self).entries@ == old(self).entries@,
            r is Err ==> final(self).is_encrypted == old(self).is_encrypted,
            r is Err ==> final(self).is_data_descr == old(self).is_data_descr,
    {
        let ghost s = self.reader.stream();
        let ghost p = self.reader.position() as int;
        proof {
            self.reader.lemma_wf_facts();
            lemma_pow256_values();
            reveal(local_header_spec);
        }
        let head = match self.read_block(9) {
            Ok(head) => head,
            Err(e) => {
                return Err(e);
            },
        };
        proof {
            assert(head@.subrange(0, 2) =~= s.subrange(p, p + 2));
            assert(head@.subrange(3, 7) =~= s.subrange(p + 3, p + 7));
            lemma_le_value_bound(s.subrange(p, p + 2));
            lemma_le_value_bound(s.subrange(p + 3, p + 7));
        }
        let file_name_length = le_bytes_value(slice_subrange(head.as_slice(), 0, 2)) as usize;
        let file_attribute = head[2];
        let file_time_date = le_bytes_value(slice_subrange(head.as_slice(), 3, 7)) as u32;
        let file_descriptor = head[7];
        let encrypted = file_descriptor & DESC_ENCRYPTED != 0;
        let nibble = file_descriptor & 0xF0;
        let byte_len: usize = if nibble == 0x00 {
            0
        } else if nibble == 0x10 {
            1
        } else if nibble == 0x20 {
            2
        } else if nibble == 0x40 {
            4
        } else if nibble == 0x80 {
            8
        } else {
            return Err(AlzError::InvalidSizeFieldWidth(nibble));
        };
        let sized = if byte_len > 0 {
            match self.read_sized_fields(byte_len) {
                Ok(sized) => sized,
                Err(e) => {
                    return Err(e);
                },
            }
        } else {
            SizedFields {
                method: CompressionMethod::Store,
                crc: 0,
                compressed_size: 0,
                uncompressed_size: 0,
            }
        };
        if file_name_length == 0 || file_name_length > MAX_NAME_LENGTH {
            return Err(AlzError::InvalidFilenameLength);
        }
        let name_buf = match self.read_block(file_name_length) {
            Ok(name_buf) => name_buf,
            Err(e) => {
                return Err(e);
            },
        };
        let file_name = cp949_to_utf8(name_buf.as_slice());
        let enc_check: Option<[u8; ENCR_HEADER_LEN]> = if encrypted {
            match self.read_check_header() {
                Ok(h) => Some(h),
                Err(e) => {
                    return Err(e);
                },
            }
        } else {
            None
        };
        let data_pos = self.reader.stream_position();
        let total = self.reader.total_size();
        if sized.compressed_size > i64::MAX as u64 || sized.compressed_size > total - data_pos {
            return Err(AlzError::CorruptedFile);
        }
        let ghost expected = local_header_spec(s, p);
        assert(expected is Ok);
        assert(data_pos as int - p + sized.compressed_size == expected->Ok_0.1);
        match self.reader.seek(SeekFrom::Current(sized.compressed_size as i64)) {
            Ok(_) => {},
            Err(e) => {
                return Err(AlzError::from(e));
            },
        }
        let entry = AlzFileEntry {
            file_name,
            file_attribute,
            file_time_date,
            file_descriptor,
            compression_method: sized.method,
            file_crc: sized.crc,
            compressed_size: sized.compressed_size,
            uncompressed_size: sized.uncompressed_size,
            data_pos,
            enc_check,
        };
        assert(entry@.file_name == expected->Ok_0.0.file_name);
        assert(entry@.enc_check == expected->Ok_0.0.enc_check);
        assert(entry@ == expected->Ok_0.0);
        self.push_entry(entry);
        Ok(())
    }

    /// A central directory record: twelve bytes, none of them used.
    fn read_central_directory(&mut self) -> (r: AlzResult<()>)
        requires
            old(self).reader.wf(),
            old(self).reader.position() <= old(self).reader.stream().len(),
        ensures
            final(self).reader.wf(),
            final(self).reader.files() == old(self).reader.files(),
            final(self).entries == old(self).entries,
            final(self).is_encrypted == old(self).is_encrypted,
            final(self).is_data_descr == old(self).is_data_descr,
            r is Ok <==> old(self).reader.position() + 12 <= old(self).reader.stream().len(),
            r is Ok ==> final(self).reader.position() == old(self).reader.position() + 12,
            r matches Err(e) ==> e is Io,
    {
        match self.read_block(12) {
            Ok(_) => Ok(()),
            Err(e) => Err(e),
        }
    }

    /// Steps over a comment record of `total_size` bytes, of which the
    /// signature has been read.
    fn skip_comment_section(&mut self, total_size: u64) -> (r: AlzResult<()>)
        requires
            old(self).reader.wf(),
            old(self).reader.position() <= old(self).reader.stream().len(),
        ensures
            final(self).reader.wf(),
            final(self).reader.files() == old(self).reader.files(),
            final(self).entries == old(self).entries,
            final(self).is_encrypted == old(self).is_encrypted,
            final(self).is_data_descr == old(self).is_data_descr,
            r is Ok <==> total_size <= 4 || old(self).reader.position() + total_size - 4 <= old(
                self,
            ).reader.stream().len(),
            r is Ok ==> final(self).reader.position() == if total_size > 4 {
                old(self).reader.position() + total_size - 4
            } else {
                old(self).reader.position() as int
            },
            r matches Err(e) ==> e is CorruptedFile,
    {
        if total_size > 4 {
            proof {
                self.reader.lemma_wf_facts();
            }
            let skip = total_size - 4;
            let position = self.reader.stream_position();
            let total = self.reader.total_size();
            if skip > total - position {
                return Err(AlzError::CorruptedFile);
            }
            match self.reader.seek(SeekFrom::Start(position + skip)) {
                Ok(_) => {},
                Err(_) => {
                    return Err(AlzError::CorruptedFile);
                },
            }
        }
        Ok(())
    }

    /// A 32-bit little-endian integer at the cursor.
    fn read_u32_le(&mut self) -> (r: AlzResult<u32>)
        requires
            old(self).reader.wf(),
            old(self).reader.position() <= old(self).reader.stream().len(),
        ensures
            final(self).reader.wf(),
            final(self).reader.files() == old(self).reader.files(),
            final(self).entries == old(self).entries,
            final(self).is_encrypted == old(self).is_encrypted,
            final(self).is_data_descr == old(self).is_data_descr,
            r is Ok <==> old(self).reader.position() + 4 <= old(self).reader.stream().len(),
            r matches Ok(v) ==> final(self).reader.position() == old(self).reader.position() + 4
                && v == le_value(
                old(self).reader.stream().subrange(
                    old(self).reader.position() as int,
                    (old(self).reader.position() + 4) as int,
                ),
            ),
            r matches Err(e) ==> e is Io,
    {
        match self.read_block(4) {
            Ok(buf) => {
                proof {
                    lemma_le_value_bound(buf@);
                    lemma_pow256_values();
                }
                Ok(le_bytes_value(buf.as_slice()) as u32)
            },
            Err(e) => Err(e),
        }
    }

    /// A little-endian integer of `byte_len` bytes at the cursor.
    fn read_var_int(&mut self, byte_len: usize) -> (r: AlzResult<u64>)
        requires
            old(self).reader.wf(),
            old(self).reader.position() <= old(self).reader.stream().len(),
            byte_len <= 8,
        ensures
            final(self).reader.wf(),
            final(self).reader.files() == old(self).reader.files(),
            final(self).entries == old(self).entries,
            final(self).is_encrypted == old(self).is_encrypted,
            final(self).is_data_descr == old(self).is_data_descr,
            r is Ok <==> old(self).reader.position() + byte_len <= old(
                self,
            ).reader.stream().len(),
            r matches Ok(v) ==> final(self).reader.position() == old(self).reader.position()
                + byte_len && v == le_value(
                old(self).reader.stream().subrange(
                    old(self).reader.position() as int,
                    (old(self).reader.position() + byte_len) as int,
                ),
            ),
            r matches Err(e) ==> e is Io,
    {
        match self.read_block(byte_len) {
            Ok(buf) => Ok(le_bytes_value(buf.as_slice())),
            Err(e) => Err(e),
        }
    }
}

} // verus!
