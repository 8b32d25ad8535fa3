//! Extraction of single entries and of whole archives.
//!
//! An entry passes two gates before any payload is read: the password must
//! open it where it is encrypted, and its name must not climb out of the
//! destination. Then the payload is decoded into the caller's buffer and
//! its CRC-32 is held against the one the entry declares.

use crate::archive::{
    descriptor_data_descr, descriptor_encrypted, AlzArchive, AlzFileEntry, CompressionMethod,
    EntryView, ATTR_DIRECTORY, ATTR_SYMLINK,
};
use crate::crc::crc32;
use crate::crypto::{
    decrypt_spec, expected_check_byte, keys_after, keys_from_password, KeyState, ZipCrypto,
    ENCR_HEADER_LEN,
};
use crate::decompress::bzip2::{
    bits_of, bz_outcome, bzip2_cursor, bzip2_result, decode_payload, reencode,
    reencode_failure_text, rewritten, size_limit_text, MAX_BZ2_COMPRESSED,
};
use crate::decompress::deflate::{
    deflate_cursor, deflate_result, inflate_outcome, inflate_payload, InflateEnd,
};
use crate::decompress::raw::copy_stored;
use crate::decompress::{available, payload_plain};
use crate::error::{is_io_failure, AlzError, AlzResult};
use crate::multivolume::{after_short_read, window, MultiVolumeReader, SeekFrom};
use vstd::prelude::*;
use vstd::string::StringSliceAdditionalSpecFns;

verus! {

/// Whether `needle` occurs in `hay`.
pub open spec fn occurs_in(hay: Seq<char>, needle: Seq<char>) -> bool {
    exists|i: int|
        0 <= i && i + needle.len() <= hay.len() && #[trigger] hay.subrange(i, i + needle.len())
            == needle
}

/// A name with every backslash turned into a slash.
pub open spec fn with_forward_slashes(name: Seq<char>) -> Seq<char> {
    name.map_values(
        |c: char|
            if c == '\\' {
                '/'
            } else {
                c
            },
    )
}

/// Whether a name holds a step to the parent directory, written with a
/// slash or with a backslash.
pub open spec fn climbs(name: Seq<char>) -> bool {
    occurs_in(name, seq!['.', '.', '/']) || occurs_in(name, seq!['.', '.', '\\'])
}

/// A name climbs exactly when `../` occurs in it once its backslashes are
/// slashes.
pub proof fn lemma_climbs_after_normalizing(name: Seq<char>)
    ensures
        climbs(name) <==> occurs_in(with_forward_slashes(name), seq!['.', '.', '/']),
{
    let normal = with_forward_slashes(name);
    let up = seq!['.', '.', '/'];
    let up_back = seq!['.', '.', '\\'];
    if climbs(name) {
        let i = if occurs_in(name, up) {
            choose|i: int| 0 <= i && i + 3 <= name.len() && #[trigger] name.subrange(i, i + 3) == up
        } else {
            choose|i: int|
                0 <= i && i + 3 <= name.len() && #[trigger] name.subrange(i, i + 3) == up_back
        };
        let found = name.subrange(i, i + 3);
        assert(found[0] == '.' && found[1] == '.' && (found[2] == '/' || found[2] == '\\'));
        assert(normal.subrange(i, i + 3) =~= up);
    }
    if occurs_in(normal, up) {
        let i = choose|i: int|
            0 <= i && i + 3 <= normal.len() && #[trigger] normal.subrange(i, i + 3) == up;
        let found = normal.subrange(i, i + 3);
        assert(found[0] == '.' && found[1] == '.' && found[2] == '/');
        assert(name[i] == '.' && name[i + 1] == '.');
        if name[i + 2] == '/' {
            assert(name.subrange(i, i + 3) =~= up);
        } else {
            assert(name[i + 2] == '\\');
            assert(name.subrange(i, i + 3) =~= up_back);
        }
    }
}

/// `str::contains` with a string pattern: whether `needle` occurs in `hay`.
#[verifier::external_body]
fn text_contains(hay: &str, needle: &str) -> (b: bool)
    ensures
        b == occurs_in(hay@, needle@),
{
    hay.contains(needle)
}

/// `str::replace` of the backslash by the slash: the same text with every
/// backslash turned into a slash.
#[verifier::external_body]
fn backslashes_replaced(name: &str) -> (s: String)
    ensures
        s@ == with_forward_slashes(name@),
{
    name.replace('\\', "/")
}

/// Turns the backslashes of an entry name into slashes and refuses the name
/// where it holds a step to the parent directory.
pub fn check_entry_name(name: &str) -> (r: AlzResult<String>)
    ensures
        r is Ok <==> !climbs(name@),
        r matches Ok(n) ==> n@ == with_forward_slashes(name@),
        r matches Err(e) ==> e matches AlzError::PathTraversal(p) && p@ == with_forward_slashes(
            name@,
        ),
{
    let file_name = backslashes_replaced(name);
    proof {
        lemma_climbs_after_normalizing(name@);
        reveal_strlit("../");
        reveal_strlit("..\\");
        assert("../"@ =~= seq!['.', '.', '/']);
        assert("..\\"@ =~= seq!['.', '.', '\\']);
        if occurs_in(file_name@, seq!['.', '.', '\\']) {
            let i = choose|i: int|
                0 <= i && i + 3 <= file_name@.len() && #[trigger] file_name@.subrange(i, i + 3)
                    == seq!['.', '.', '\\'];
            assert(file_name@.subrange(i, i + 3)[2] == '\\');
            assert(file_name@[i + 2] != '\\');
        }
    }
    if text_contains(file_name.as_str(), "../") || text_contains(file_name.as_str(), "..\\") {
        return Err(AlzError::PathTraversal(file_name));
    }
    Ok(file_name)
}

/// Whether a link target stays below the directory of its link: it holds no
/// step to the parent directory and does not start at the root.
pub open spec fn target_stays_below(target: Seq<char>) -> bool {
    !climbs(target) && !(target.len() > 0 && target[0] == '/')
}

/// Tells whether a symbolic link may point to `target`.
pub fn symlink_target_allowed(target: &str) -> (ok: bool)
    ensures
        ok == target_stays_below(target@),
{
    proof {
        reveal_strlit("../");
        reveal_strlit("..\\");
        reveal_strlit("/");
        assert("../"@ =~= seq!['.', '.', '/']);
        assert("..\\"@ =~= seq!['.', '.', '\\']);
    }
    if text_contains(target, "../") || text_contains(target, "..\\") {
        return false;
    }
    let rooted = target.unicode_len() > 0 && target.get_char(0) == '/';
    !rooted
}

/// Why an entry is refused before its payload is read.
pub enum GateFailure {
    PasswordNotSet,
    InvalidPassword,
    PathTraversal,
}

/// The cipher state at the first payload byte of an entry opened with
/// `password`: nothing where the entry is not encrypted, otherwise the key
/// schedule of the password advanced over the decrypted check header. An
/// encrypted entry needs a password and a check header, and the header must
/// decrypt to the byte that the entry's metadata calls for.
pub open spec fn entry_keys(entry: EntryView, password: Option<Seq<u8>>) -> Result<
    Option<KeyState>,
    GateFailure,
> {
    if !descriptor_encrypted(entry.file_descriptor) {
        Ok(None)
    } else if password is None || entry.enc_check is None {
        Err(GateFailure::PasswordNotSet)
    } else {
        let keys = keys_from_password(password->Some_0);
        let header = decrypt_spec(keys, entry.enc_check->Some_0);
        if header.last() == expected_check_byte(
            entry.file_crc,
            entry.file_time_date,
            descriptor_data_descr(entry.file_descriptor),
        ) {
            Ok(Some(keys_after(keys, header)))
        } else {
            Err(GateFailure::InvalidPassword)
        }
    }
}

/// The two gates in order: first the password, then the name.
pub open spec fn entry_gate(entry: EntryView, password: Option<Seq<u8>>) -> Result<
    Option<KeyState>,
    GateFailure,
> {
    match entry_keys(entry, password) {
        Err(f) => Err(f),
        Ok(keys) => if climbs(entry.file_name) {
            Err(GateFailure::PathTraversal)
        } else {
            Ok(keys)
        },
    }
}

/// The error value that reports a gate failure of an entry named `name`. A
/// refused name is reported with its backslashes turned into slashes.
pub open spec fn reports(e: AlzError, f: GateFailure, name: Seq<char>) -> bool {
    match f {
        GateFailure::PasswordNotSet => e is PasswordNotSet,
        GateFailure::InvalidPassword => e is InvalidPassword,
        GateFailure::PathTraversal => e matches AlzError::PathTraversal(p) && p@
            == with_forward_slashes(name),
    }
}

/// The bytes of a password, if there is one.
pub open spec fn password_bytes(password: Option<&str>) -> Option<Seq<u8>> {
    match password {
        Some(p) => Some(p.spec_bytes()),
        None => None,
    }
}

/// The key state of a cipher, if there is one.
pub open spec fn cipher_keys(cipher: Option<ZipCrypto>) -> Option<KeyState> {
    match cipher {
        Some(c) => Some(c@),
        None => None,
    }
}

/// Checks the password against an entry's check header and prepares the
/// cipher for its payload. The cipher is built afresh from the password and
/// run over the header once more, so that it stands at the first payload
/// byte.
pub fn authenticate(entry: &AlzFileEntry, password: Option<&str>) -> (r: AlzResult<
    Option<ZipCrypto>,
>)
    ensures
        r is Ok <==> entry_keys(entry@, password_bytes(password)) is Ok,
        r matches Ok(cipher) ==> cipher_keys(cipher) == entry_keys(
            entry@,
            password_bytes(password),
        )->Ok_0,
        r matches Err(e) ==> reports(
            e,
            entry_keys(entry@, password_bytes(password))->Err_0,
            entry@.file_name,
        ),
{
    if !entry.is_encrypted() {
        return Ok(None);
    }
    let pwd = match password {
        Some(pwd) => pwd,
        None => {
            return Err(AlzError::PasswordNotSet);
        },
    };
    let enc_chk = match &entry.enc_check {
        Some(enc_chk) => enc_chk,
        None => {
            return Err(AlzError::PasswordNotSet);
        },
    };
    let mut probe = ZipCrypto::new(pwd.as_bytes());
    if !probe.check_header(
        enc_chk,
        entry.file_crc,
        entry.file_time_date,
        entry.has_data_descriptor(),
    ) {
        return Err(AlzError::InvalidPassword);
    }
    let mut cipher = ZipCrypto::new(pwd.as_bytes());
    let mut header: Vec<u8> = Vec::new();
    let mut k: usize = 0;
    while k < ENCR_HEADER_LEN
        invariant
            k <= ENCR_HEADER_LEN,
            enc_chk@.len() == ENCR_HEADER_LEN,
            header@ == enc_chk@.subrange(0, k as int),
        decreases ENCR_HEADER_LEN - k,
    {
        header.push(enc_chk[k]);
        proof {
            assert(header@ =~= enc_chk@.subrange(0, k + 1));
        }
        k += 1;
    }
    proof {
        assert(header@ =~= enc_chk@);
    }
    cipher.decrypt(header.as_mut_slice());
    Ok(Some(cipher))
}

/// What an entry is extracted as.
#[derive(Clone, Copy, Debug, PartialEq, Eq, Structural)]
pub enum EntryKind {
    /// A directory: there is no content.
    Directory,
    /// A symbolic link: the content is the target path.
    Symlink,
    /// A regular file.
    File,
}

/// The kind that an attribute byte gives an entry.
pub open spec fn entry_kind(attribute: u8) -> EntryKind {
    if attribute & ATTR_DIRECTORY != 0 {
        EntryKind::Directory
    } else if attribute & ATTR_SYMLINK != 0 {
        EntryKind::Symlink
    } else {
        EntryKind::File
    }
}

/// The name and kind under which an entry was extracted.
#[derive(Debug)]
pub struct Extracted {
    pub name: String,
    pub kind: EntryKind,
}

/// An extracted entry with its content.
#[derive(Debug)]
pub struct ExtractedEntry {
    pub name: String,
    pub kind: EntryKind,
    pub data: Vec<u8>,
}

/// Whether the stream holds the payload of an entry whole.
pub open spec fn payload_in_stream(entry: EntryView, stream: Seq<u8>) -> bool {
    available(stream, entry.data_pos as nat, entry.compressed_size as nat) == entry.compressed_size
}

/// The payload of an entry whose cipher state at the first payload byte is
/// `keys`, decrypted; nothing where the stream does not hold it whole.
pub open spec fn entry_plain(entry: EntryView, keys: Option<KeyState>, stream: Seq<u8>) -> Seq<
    u8,
> {
    payload_plain(
        keys is Some,
        cipher_start(keys),
        window(stream, entry.data_pos as nat, entry.compressed_size as nat),
    )
}

/// As much of the payload of an entry as the stream holds, decrypted.
pub open spec fn entry_plain_held(entry: EntryView, keys: Option<KeyState>, stream: Seq<u8>) -> Seq<
    u8,
> {
    payload_plain(
        keys is Some,
        cipher_start(keys),
        window(
            stream,
            entry.data_pos as nat,
            available(stream, entry.data_pos as nat, entry.compressed_size as nat),
        ),
    )
}

/// The key state that the payload is decrypted from; of no account where
/// the entry is not encrypted.
pub open spec fn cipher_start(keys: Option<KeyState>) -> KeyState {
    match keys {
        Some(k) => k,
        None => crate::crypto::initial_keys(),
    }
}

/// How the result of decoding a payload of `size` bytes at `pos` by
/// `method`, and what was appended, follow from the stream.
///
/// A stored payload that the stream holds whole is appended as it
/// decrypts, and the result is its CRC-32; one that the stream does not
/// hold whole is an `Io` failure. DEFLATE and BZIP2 payloads follow their
/// codecs. An unknown method is reported with its number, and nothing is
/// appended.
pub open spec fn codec_result(
    method: CompressionMethod,
    size: u64,
    encrypted: bool,
    keys: KeyState,
    stream: Seq<u8>,
    pos: nat,
    appended: Seq<u8>,
    r: AlzResult<u32>,
) -> bool {
    let held = available(stream, pos, size as nat) == size;
    let plain = payload_plain(encrypted, keys, window(stream, pos, size as nat));
    match method {
        CompressionMethod::Store => if held {
            r == Ok::<u32, AlzError>(crc32(plain)) && appended == plain
        } else {
            is_io_failure(r)
        },
        CompressionMethod::Deflate => deflate_result(
            payload_plain(
                encrypted,
                keys,
                window(stream, pos, available(stream, pos, size as nat)),
            ),
            size as nat,
            appended,
            r,
        ),
        CompressionMethod::Bzip2 => bzip2_result(plain, held, size as nat, appended, r),
        CompressionMethod::Unknown(n) => r matches Err(AlzError::UnknownCompressionMethod(m)) && m
            == n && appended.len() == 0,
    }
}

/// Where the cursor stands after a payload of `size` bytes at `pos` was
/// decoded by `method`: after the payload for a stored or BZIP2 payload
/// that the stream holds whole, after what was read for a DEFLATE payload,
/// where it stood for an unknown method or a BZIP2 payload that is too
/// long, and where a short read leaves it otherwise.
pub open spec fn codec_cursor(
    method: CompressionMethod,
    size: u64,
    encrypted: bool,
    keys: KeyState,
    stream: Seq<u8>,
    pos: nat,
) -> nat {
    match method {
        CompressionMethod::Store => if available(stream, pos, size as nat) == size {
            pos + size as nat
        } else {
            after_short_read(stream, pos)
        },
        CompressionMethod::Deflate => deflate_cursor(encrypted, keys, stream, pos, size as nat),
        CompressionMethod::Bzip2 => bzip2_cursor(stream, pos, size as nat),
        CompressionMethod::Unknown(_) => pos,
    }
}

/// Where the cursor stands after the extraction of an entry, when it stood
/// at `before`: where it stood, for an entry that is stopped at a gate and
/// for a directory; otherwise where the decoding of the payload leaves it.
pub open spec fn cursor_after(
    entry: EntryView,
    password: Option<Seq<u8>>,
    stream: Seq<u8>,
    before: nat,
) -> nat {
    if entry_gate(entry, password) is Err || entry_kind(entry.file_attribute)
        == EntryKind::Directory {
        before
    } else {
        codec_cursor(
            entry.compression_method,
            entry.compressed_size,
            entry_gate(entry, password)->Ok_0 is Some,
            cipher_start(entry_gate(entry, password)->Ok_0),
            stream,
            entry.data_pos as nat,
        )
    }
}

/// What the payload of an entry decodes to, where its codec gets done: a
/// stored payload that the stream holds whole, as it decrypts; what the
/// inflater puts out, where the inflating is done; what the decoder puts
/// out for the rewritten stream, where the payload is not too long, the
/// stream holds it whole and it can be rewritten. Nothing where the codec
/// fails or the method is unknown.
pub open spec fn decoded(entry: EntryView, keys: Option<KeyState>, stream: Seq<u8>) -> Option<
    Seq<u8>,
> {
    match entry.compression_method {
        CompressionMethod::Store => if payload_in_stream(entry, stream) {
            Some(entry_plain(entry, keys, stream))
        } else {
            None
        },
        CompressionMethod::Deflate => {
            let run = inflate_outcome(
                entry_plain_held(entry, keys, stream),
                entry.compressed_size as nat,
            );
            if run.0 == InflateEnd::Done {
                Some(run.1)
            } else {
                None
            }
        },
        CompressionMethod::Bzip2 => if entry.compressed_size <= MAX_BZ2_COMPRESSED
            && payload_in_stream(entry, stream) && reencode(
            bits_of(entry_plain(entry, keys, stream)),
        ) is Ok {
            bz_outcome(rewritten(entry_plain(entry, keys, stream)))
        } else {
            None
        },
        CompressionMethod::Unknown(_) => None,
    }
}

/// Whether an error is the failure of the codec of an entry whose payload
/// does not decode.
pub open spec fn codec_failure(
    entry: EntryView,
    keys: Option<KeyState>,
    stream: Seq<u8>,
    e: AlzError,
) -> bool {
    match entry.compression_method {
        CompressionMethod::Unknown(n) => e matches AlzError::UnknownCompressionMethod(m) && m == n,
        CompressionMethod::Store => e is Io,
        CompressionMethod::Deflate => if inflate_outcome(
            entry_plain_held(entry, keys, stream),
            entry.compressed_size as nat,
        ).0 == InflateEnd::Refused {
            e is InflateFailed
        } else {
            e is Io
        },
        CompressionMethod::Bzip2 => if entry.compressed_size > MAX_BZ2_COMPRESSED {
            e matches AlzError::Bzip2Failed(m) && m@ == size_limit_text(entry.compressed_size)
        } else if !payload_in_stream(entry, stream) {
            e is Io
        } else if reencode(bits_of(entry_plain(entry, keys, stream))) is Err {
            e matches AlzError::Bzip2Failed(m) && m@ == reencode_failure_text(
                reencode(bits_of(entry_plain(entry, keys, stream)))->Err_0,
            )
        } else {
            e matches AlzError::Bzip2Failed(m) && m@ == "bzip2 decompression failed"@
        },
    }
}

/// Whether extraction of an entry succeeds: it passes the gates, and it is
/// a directory or its payload decodes to bytes of the declared CRC-32.
pub open spec fn extracts(entry: EntryView, password: Option<Seq<u8>>, stream: Seq<u8>) -> bool {
    &&& entry_gate(entry, password) is Ok
    &&& entry_kind(entry.file_attribute) == EntryKind::Directory || (decoded(
        entry,
        entry_gate(entry, password)->Ok_0,
        stream,
    ) matches Some(out) && crc32(out) == entry.file_crc)
}

/// The content of an entry that is extracted: nothing for a directory, and
/// for any other entry what its payload decodes to.
pub open spec fn content(entry: EntryView, password: Option<Seq<u8>>, stream: Seq<u8>) -> Seq<
    u8,
> {
    if entry_kind(entry.file_attribute) == EntryKind::Directory {
        Seq::empty()
    } else {
        decoded(entry, entry_gate(entry, password)->Ok_0, stream)->Some_0
    }
}

/// Whether `e` is the failure of extracting an entry that is not
/// extracted: the failure of the first gate that stops it; or where the
/// payload decodes, the mismatch of its CRC-32 with the declared one; or
/// the failure of its codec.
pub open spec fn failure_fits(
    entry: EntryView,
    password: Option<Seq<u8>>,
    stream: Seq<u8>,
    e: AlzError,
) -> bool {
    match entry_gate(entry, password) {
        Err(f) => reports(e, f, entry.file_name),
        Ok(keys) => match decoded(entry, keys, stream) {
            Some(out) => e matches AlzError::InvalidFileCrc { expected, got } && expected
                == entry.file_crc && got == crc32(out),
            None => codec_failure(entry, keys, stream, e),
        },
    }
}

/// How the result of extracting an entry, and what was appended to the
/// buffer, follow from the entry, the password and the stream. The result
/// is `Ok` exactly where the entry is extracted; then it tells the name and
/// kind, and the content is what was appended. Otherwise nothing is
/// appended and the error is the entry's failure.
pub open spec fn extraction_matches(
    entry: EntryView,
    password: Option<Seq<u8>>,
    stream: Seq<u8>,
    appended: Seq<u8>,
    r: AlzResult<Extracted>,
) -> bool {
    &&& r is Ok <==> extracts(entry, password, stream)
    &&& r matches Ok(x) ==> {
        &&& x.name@ == with_forward_slashes(entry.file_name)
        &&& x.kind == entry_kind(entry.file_attribute)
        &&& appended == content(entry, password, stream)
    }
    &&& r matches Err(e) ==> appended.len() == 0 && failure_fits(entry, password, stream, e)
}

/// Decodes the payload at the reader's cursor by the entry's method.
fn decompress_to(
    reader: &mut MultiVolumeReader,
    writer: &mut Vec<u8>,
    entry: &AlzFileEntry,
    cipher: &mut ZipCrypto,
    encrypted: bool,
) -> (r: AlzResult<u32>)
    requires
        old(reader).wf(),
    ensures
        final(reader).wf(),
        final(reader).files() == old(reader).files(),
        old(writer)@.is_prefix_of(final(writer)@),
        codec_result(
            entry.compression_method,
            entry.compressed_size,
            encrypted,
            old(cipher)@,
            old(reader).stream(),
            old(reader).position(),
            final(writer)@.skip(old(writer)@.len() as int),
            r,
        ),
        final(reader).position() == codec_cursor(
            entry.compression_method,
            entry.compressed_size,
            encrypted,
            old(cipher)@,
            old(reader).stream(),
            old(reader).position(),
        ),
{
    match entry.compression_method {
        CompressionMethod::Store => {
            let r = copy_stored(reader, writer, entry.compressed_size, cipher, encrypted);
            proof {
                if r is Ok {
                    let payload = window(
                        old(reader).stream(),
                        old(reader).position(),
                        entry.compressed_size as nat,
                    );
                    let plain = payload_plain(encrypted, old(cipher)@, payload);
                    assert(writer@.skip(old(writer)@.len() as int) =~= plain);
                }
            }
            r
        },
        CompressionMethod::Deflate => inflate_payload(
            reader,
            writer,
            entry.compressed_size,
            cipher,
            encrypted,
        ),
        CompressionMethod::Bzip2 => decode_payload(
            reader,
            writer,
            entry.compressed_size,
            cipher,
            encrypted,
        ),
        CompressionMethod::Unknown(n) => {
            proof {
                assert(writer@.skip(old(writer)@.len() as int) =~= Seq::<u8>::empty());
            }
            Err(AlzError::UnknownCompressionMethod(n))
        },
    }
}

/// The two gates, then the payload: seeks to the entry's payload, decodes
/// it by the entry's method into `sink` and holds its CRC-32 against the
/// declared one. Whatever fails, `sink` is left as it was.
fn extract_from(
    reader: &mut MultiVolumeReader,
    entry: &AlzFileEntry,
    sink: &mut Vec<u8>,
    password: Option<&str>,
) -> (r: AlzResult<Extracted>)
    requires
        old(reader).wf(),
    ensures
        final(reader).wf(),
        final(reader).files() == old(reader).files(),
        old(sink)@.is_prefix_of(final(sink)@),
        extraction_matches(
            entry@,
            password_bytes(password),
            old(reader).stream(),
            final(sink)@.skip(old(sink)@.len() as int),
            r,
        ),
        final(reader).position() == cursor_after(
            entry@,
            password_bytes(password),
            old(reader).stream(),
            old(reader).position(),
        ),
{
    let ghost stream = reader.stream();
    let ghost before = sink@;
    let start = sink.len();
    proof {
        assert(sink@.skip(start as int) =~= Seq::<u8>::empty());
    }
    let auth = match authenticate(entry, password) {
        Ok(auth) => auth,
        Err(e) => {
            return Err(e);
        },
    };
    let name = match check_entry_name(entry.file_name.as_str()) {
        Ok(name) => name,
        Err(e) => {
            return Err(e);
        },
    };
    if entry.is_directory() {
        return Ok(Extracted { name, kind: EntryKind::Directory });
    }
    proof {
        reader.lemma_wf_facts();
    }
    match reader.seek(SeekFrom::Start(entry.data_pos)) {
        Ok(_) => {},
        Err(e) => {
            return Err(AlzError::from(e));
        },
    }
    let ghost keys = cipher_keys(auth);
    let encrypted = auth.is_some();
    let mut cipher = match auth {
        Some(cipher) => cipher,
        None => ZipCrypto::new(&[]),
    };
    proof {
        if !encrypted {
            assert(payload_plain(false, cipher@, window(stream, entry.data_pos as nat, 0))
                == payload_plain(false, cipher_start(keys), window(stream, entry.data_pos as nat, 0)));
        }
    }
    let decoding = decompress_to(reader, sink, entry, &mut cipher, encrypted);
    let ghost came = sink@.skip(start as int);
    let crc = match decoding {
        Ok(crc) => crc,
        Err(e) => {
            sink.truncate(start);
            proof {
                assert(sink@ =~= before);
                assert(sink@.skip(start as int) =~= Seq::<u8>::empty());
            }
            return Err(e);
        },
    };
    proof {
        assert(decoded(entry@, keys, stream) == Some(came));
    }
    if crc != entry.file_crc {
        sink.truncate(start);
        proof {
            assert(sink@ =~= before);
            assert(sink@.skip(start as int) =~= Seq::<u8>::empty());
        }
        return Err(AlzError::InvalidFileCrc { expected: entry.file_crc, got: crc });
    }
    let kind = if entry.is_symlink() {
        EntryKind::Symlink
    } else {
        EntryKind::File
    };
    Ok(Extracted { name, kind })
}

/// Extracts one entry of an archive into `sink`.
///
/// An encrypted entry needs the right password. A name that climbs to a
/// parent directory is refused. A directory has no content. Of any other
/// entry the payload is decoded by the entry's method and appended to
/// `sink`, and its CRC-32 must be the declared one. On success the result
/// tells the entry's name, with slashes for backslashes, and its kind; for
/// a symbolic link the content is the link's target. On failure `sink` is
/// left as it was.
pub fn extract_entry(
    archive: &mut AlzArchive,
    entry: &AlzFileEntry,
    sink: &mut Vec<u8>,
    password: Option<&str>,
) -> (r: AlzResult<Extracted>)
    requires
        old(archive).reader.wf(),
    ensures
        final(archive).reader.wf(),
        final(archive).reader.files() == old(archive).reader.files(),
        final(archive).entries == old(archive).entries,
        final(archive).is_encrypted == old(archive).is_encrypted,
        final(archive).is_data_descr == old(archive).is_data_descr,
        old(sink)@.is_prefix_of(final(sink)@),
        extraction_matches(
            entry@,
            password_bytes(password),
            old(archive).reader.stream(),
            final(sink)@.skip(old(sink)@.len() as int),
            r,
        ),
        final(archive).reader.position() == cursor_after(
            entry@,
            password_bytes(password),
            old(archive).reader.stream(),
            old(archive).reader.position(),
        ),
{
    extract_from(&mut archive.reader, entry, sink, password)
}

/// Whether an extracted entry is what extraction of `entry` gives.
pub open spec fn extracted_matches(
    entry: EntryView,
    password: Option<Seq<u8>>,
    stream: Seq<u8>,
    x: ExtractedEntry,
) -> bool {
    &&& extracts(entry, password, stream)
    &&& x.name@ == with_forward_slashes(entry.file_name)
    &&& x.kind == entry_kind(entry.file_attribute)
    &&& x.data@ == content(entry, password, stream)
}

/// Where the cursor stands after the first `n` of `entries` were taken in
/// order, when it stood at `before`.
pub open spec fn cursor_through(
    entries: Seq<AlzFileEntry>,
    n: int,
    password: Option<Seq<u8>>,
    stream: Seq<u8>,
    before: nat,
) -> nat
    decreases n,
{
    if n <= 0 {
        before
    } else {
        cursor_after(
            entries[n - 1]@,
            password,
            stream,
            cursor_through(entries, n - 1, password, stream, before),
        )
    }
}

/// Where the cursor stands after the first `n` of the selected entries were
/// taken in order, when it stood at `before`.
pub open spec fn cursor_through_selected(
    entries: Seq<AlzFileEntry>,
    chosen: Seq<int>,
    n: int,
    password: Option<Seq<u8>>,
    stream: Seq<u8>,
    before: nat,
) -> nat
    decreases n,
{
    if n <= 0 {
        before
    } else {
        cursor_after(
            entries[chosen[n - 1]]@,
            password,
            stream,
            cursor_through_selected(entries, chosen, n - 1, password, stream, before),
        )
    }
}

/// Whether entry `i` is the first of `entries` that is not extracted, and
/// `e` is its failure.
pub open spec fn first_failure(
    entries: Seq<AlzFileEntry>,
    password: Option<Seq<u8>>,
    stream: Seq<u8>,
    i: int,
    e: AlzError,
) -> bool {
    &&& 0 <= i < entries.len()
    &&& !extracts(entries[i]@, password, stream)
    &&& failure_fits(entries[i]@, password, stream, e)
    &&& forall|j: int| 0 <= j < i ==> extracts((#[trigger] entries[j])@, password, stream)
}

/// Extracts every entry of an archive, in the order of the entry table.
/// Stops at the first entry that is not extracted, with that entry's
/// failure.
pub fn extract_all(archive: &mut AlzArchive, password: Option<&str>) -> (r: AlzResult<
    Vec<ExtractedEntry>,
>)
    requires
        old(archive).reader.wf(),
    ensures
        final(archive).reader.wf(),
        final(archive).reader.files() == old(archive).reader.files(),
        final(archive).entries == old(archive).entries,
        final(archive).is_encrypted == old(archive).is_encrypted,
        final(archive).is_data_descr == old(archive).is_data_descr,
        r is Ok <==> forall|i: int|
            0 <= i < old(archive).entries@.len() ==> extracts(
                (#[trigger] old(archive).entries@[i])@,
                password_bytes(password),
                old(archive).reader.stream(),
            ),
        r matches Ok(v) ==> v@.len() == old(archive).entries@.len() && forall|i: int|
            0 <= i < v@.len() ==> extracted_matches(
                (#[trigger] old(archive).entries@[i])@,
                password_bytes(password),
                old(archive).reader.stream(),
                v@[i],
            ),
        r matches Err(e) ==> exists|i: int|
            #[trigger] first_failure(
                old(archive).entries@,
                password_bytes(password),
                old(archive).reader.stream(),
                i,
                e,
            ) && final(archive).reader.position() == cursor_through(
                old(archive).entries@,
                i + 1,
                password_bytes(password),
                old(archive).reader.stream(),
                old(archive).reader.position(),
            ),
        r is Ok ==> final(archive).reader.position() == cursor_through(
            old(archive).entries@,
            old(archive).entries@.len() as int,
            password_bytes(password),
            old(archive).reader.stream(),
            old(archive).reader.position(),
        ),
{
    let ghost stream = archive.reader.stream();
    let count = archive.entries.len();
    let mut out: Vec<ExtractedEntry> = Vec::new();
    let mut i: usize = 0;
    while i < count
        invariant
            archive.reader.wf(),
            archive.reader.files() == old(archive).reader.files(),
            archive.entries == old(archive).entries,
            archive.is_encrypted == old(archive).is_encrypted,
            archive.is_data_descr == old(archive).is_data_descr,
            stream == old(archive).reader.stream(),
            stream == archive.reader.stream(),
            count == archive.entries@.len(),
            i <= count,
            out@.len() == i,
            archive.reader.position() == cursor_through(
                archive.entries@,
                i as int,
                password_bytes(password),
                stream,
                old(archive).reader.position(),
            ),
            forall|j: int|
                0 <= j < i ==> extracted_matches(
                    (#[trigger] archive.entries@[j])@,
                    password_bytes(password),
                    stream,
                    out@[j],
                ),
        decreases count - i,
    {
        let mut data: Vec<u8> = Vec::new();
        let x = match extract_from(&mut archive.reader, &archive.entries[i], &mut data, password) {
            Ok(x) => x,
            Err(e) => {
                proof {
                    assert(first_failure(
                        archive.entries@,
                        password_bytes(password),
                        stream,
                        i as int,
                        e,
                    ));
                }
                return Err(e);
            },
        };
        proof {
            assert(data@.skip(0) =~= data@);
        }
        out.push(ExtractedEntry { name: x.name, kind: x.kind, data });
        i += 1;
    }
    Ok(out)
}

/// The index of the first entry at or after `from` whose name is `name`.
pub open spec fn first_named(entries: Seq<AlzFileEntry>, name: Seq<char>, from: int) -> Option<
    int,
>
    decreases entries.len() - from,
{
    if from < 0 || from >= entries.len() {
        None
    } else if entries[from].file_name@ == name {
        Some(from)
    } else {
        first_named(entries, name, from + 1)
    }
}

/// The entries that a list of names selects, in the order of the names: for
/// each name the first entry of that name, and nothing for a name that no
/// entry has.
pub open spec fn selected(entries: Seq<AlzFileEntry>, names: Seq<String>) -> Seq<int>
    decreases names.len(),
{
    if names.len() == 0 {
        Seq::empty()
    } else {
        let before = selected(entries, names.drop_last());
        match first_named(entries, names.last()@, 0) {
            Some(i) => before.push(i),
            None => before,
        }
    }
}

/// A selected index names an entry.
pub proof fn lemma_first_named_in_range(entries: Seq<AlzFileEntry>, name: Seq<char>, from: int)
    ensures
        first_named(entries, name, from) matches Some(i) ==> from <= i < entries.len()
            && entries[i].file_name@ == name,
    decreases entries.len() - from,
{
    if 0 <= from < entries.len() && entries[from].file_name@ != name {
        lemma_first_named_in_range(entries, name, from + 1);
    }
}

/// Finds the first entry of a given name.
pub fn find_entry(entries: &Vec<AlzFileEntry>, name: &String) -> (r: Option<usize>)
    ensures
        r matches Some(i) ==> first_named(entries@, name@, 0) == Some(i as int) && i
            < entries@.len(),
        r is None ==> first_named(entries@, name@, 0) is None,
{
    let count = entries.len();
    let mut i: usize = 0;
    while i < count
        invariant
            i <= count,
            count == entries@.len(),
            first_named(entries@, name@, 0) == first_named(entries@, name@, i as int),
        decreases count - i,
    {
        if entries[i].file_name == *name {
            return Some(i);
        }
        i += 1;
    }
    None
}

/// Whether the `k`-th selected entry is the first selected entry that is
/// not extracted, and `e` is its failure.
pub open spec fn first_selected_failure(
    entries: Seq<AlzFileEntry>,
    chosen: Seq<int>,
    password: Option<Seq<u8>>,
    stream: Seq<u8>,
    k: int,
    e: AlzError,
) -> bool {
    &&& 0 <= k < chosen.len()
    &&& 0 <= chosen[k] < entries.len()
    &&& !extracts(entries[chosen[k]]@, password, stream)
    &&& failure_fits(entries[chosen[k]]@, password, stream, e)
    &&& forall|j: int| 0 <= j < k ==> extracts(entries[#[trigger] chosen[j]]@, password, stream)
}

/// Extracts the entries that `file_names` names, in the order of the names.
/// A name that no entry has is passed over. Stops at the first selected
/// entry that is not extracted, with that entry's failure.
pub fn extract_files(
    archive: &mut AlzArchive,
    file_names: &[String],
    password: Option<&str>,
) -> (r: AlzResult<Vec<ExtractedEntry>>)
    requires
        old(archive).reader.wf(),
    ensures
        final(archive).reader.wf(),
        final(archive).reader.files() == old(archive).reader.files(),
        final(archive).entries == old(archive).entries,
        final(archive).is_encrypted == old(archive).is_encrypted,
        final(archive).is_data_descr == old(archive).is_data_descr,
        r is Ok <==> forall|k: int|
            0 <= k < selected(old(archive).entries@, file_names@).len() ==> extracts(
                old(archive).entries@[#[trigger] selected(
                    old(archive).entries@,
                    file_names@,
                )[k]]@,
                password_bytes(password),
                old(archive).reader.stream(),
            ),
        r matches Ok(v) ==> {
            let chosen = selected(old(archive).entries@, file_names@);
            &&& v@.len() == chosen.len()
            &&& forall|k: int|
                0 <= k < v@.len() ==> 0 <= #[trigger] chosen[k] < old(archive).entries@.len()
                    && extracted_matches(
                    old(archive).entries@[chosen[k]]@,
                    password_bytes(password),
                    old(archive).reader.stream(),
                    v@[k],
                )
        },
        r matches Err(e) ==> exists|k: int|
            #[trigger] first_selected_failure(
                old(archive).entries@,
                selected(old(archive).entries@, file_names@),
                password_bytes(password),
                old(archive).reader.stream(),
                k,
                e,
            ) && final(archive).reader.position() == cursor_through_selected(
                old(archive).entries@,
                selected(old(archive).entries@, file_names@),
                k + 1,
                password_bytes(password),
                old(archive).reader.stream(),
                old(archive).reader.position(),
            ),
        r is Ok ==> final(archive).reader.position() == cursor_through_selected(
            old(archive).entries@,
            selected(old(archive).entries@, file_names@),
            selected(old(archive).entries@, file_names@).len() as int,
            password_bytes(password),
            old(archive).reader.stream(),
            old(archive).reader.position(),
        ),
{
    let ghost stream = archive.reader.stream();
    let ghost entries = archive.entries@;
    let ghost all = selected(entries, file_names@);
    let count = file_names.len();
    let mut out: Vec<ExtractedEntry> = Vec::new();
    let mut n: usize = 0;
    proof {
        assert(file_names@.subrange(0, 0) =~= Seq::<String>::empty());
    }
    while n < count
        invariant
            archive.reader.wf(),
            archive.reader.files() == old(archive).reader.files(),
            archive.entries == old(archive).entries,
            archive.is_encrypted == old(archive).is_encrypted,
            archive.is_data_descr == old(archive).is_data_descr,
            entries == archive.entries@,
            entries == old(archive).entries@,
            all == selected(entries, file_names@),
            stream == old(archive).reader.stream(),
            stream == archive.reader.stream(),
            count == file_names@.len(),
            n <= count,
            out@.len() == selected(entries, file_names@.subrange(0, n as int)).len(),
            selected(entries, file_names@.subrange(0, n as int)).is_prefix_of(all),
            archive.reader.position() == cursor_through_selected(
                entries,
                all,
                out@.len() as int,
                password_bytes(password),
                stream,
                old(archive).reader.position(),
            ),
            forall|k: int|
                0 <= k < out@.len() ==> 0 <= #[trigger] all[k] < entries.len()
                    && extracted_matches(
                    entries[all[k]]@,
                    password_bytes(password),
                    stream,
                    out@[k],
                ),
        decreases count - n,
    {
        let ghost sofar = selected(entries, file_names@.subrange(0, n as int));
        let ghost next = selected(entries, file_names@.subrange(0, n + 1));
        proof {
            assert(file_names@.subrange(0, n + 1).drop_last() =~= file_names@.subrange(
                0,
                n as int,
            ));
            assert(file_names@.subrange(0, n + 1).last() == file_names@[n as int]);
            lemma_selected_prefix(entries, file_names@, n + 1);
        }
        match find_entry(&archive.entries, &file_names[n]) {
            Some(i) => {
                proof {
                    assert(next == sofar.push(i as int));
                    assert(next[sofar.len() as int] == i);
                    assert(all[sofar.len() as int] == i);
                }
                let mut data: Vec<u8> = Vec::new();
                let x = match extract_from(
                    &mut archive.reader,
                    &archive.entries[i],
                    &mut data,
                    password,
                ) {
                    Ok(x) => x,
                    Err(e) => {
                        proof {
                            assert(first_selected_failure(
                                entries,
                                all,
                                password_bytes(password),
                                stream,
                                sofar.len() as int,
                                e,
                            ));
                        }
                        return Err(e);
                    },
                };
                proof {
                    assert(data@.skip(0) =~= data@);
                }
                out.push(ExtractedEntry { name: x.name, kind: x.kind, data });
            },
            None => {
                proof {
                    assert(next == sofar);
                }
            },
        }
        n += 1;
    }
    proof {
        assert(file_names@.subrange(0, count as int) =~= file_names@);
    }
    Ok(out)
}

/// What the first `n` names select is the start of what all names select.
pub proof fn lemma_selected_prefix(entries: Seq<AlzFileEntry>, names: Seq<String>, n: int)
    requires
        0 <= n <= names.len(),
    ensures
        selected(entries, names.subrange(0, n)).is_prefix_of(selected(entries, names)),
    decreases names.len() - n,
{
    if n == names.len() {
        assert(names.subrange(0, n) =~= names);
    } else {
        lemma_selected_prefix(entries, names, n + 1);
        let longer = names.subrange(0, n + 1);
        assert(longer.drop_last() =~= names.subrange(0, n));
    }
}

/// Extraction is repeatable: two extractions of one entry, with one
/// password and from one stream, both succeed or both fail. Where they
/// succeed they give the same name, kind and content; where they fail,
/// nothing is appended and each error is the entry's failure.
pub proof fn lemma_extraction_repeatable(
    entry: EntryView,
    password: Option<Seq<u8>>,
    stream: Seq<u8>,
    first: Seq<u8>,
    first_result: AlzResult<Extracted>,
    second: Seq<u8>,
    second_result: AlzResult<Extracted>,
)
    requires
        extraction_matches(entry, password, stream, first, first_result),
        extraction_matches(entry, password, stream, second, second_result),
    ensures
        first_result is Ok <==> second_result is Ok,
        first == second,
        first_result is Ok ==> first_result->Ok_0.name@ == second_result->Ok_0.name@
            && first_result->Ok_0.kind == second_result->Ok_0.kind,
        first_result is Err ==> failure_fits(entry, password, stream, first_result->Err_0)
            && failure_fits(entry, password, stream, second_result->Err_0),
{
    if first_result is Err {
        assert(first =~= second);
    }
}

/// What is extracted has the checksum that its entry declares.
pub proof fn lemma_extracted_crc(
    entry: EntryView,
    password: Option<Seq<u8>>,
    stream: Seq<u8>,
    appended: Seq<u8>,
    r: AlzResult<Extracted>,
)
    requires
        extraction_matches(entry, password, stream, appended, r),
        r is Ok,
        entry_kind(entry.file_attribute) != EntryKind::Directory,
    ensures
        crc32(appended) == entry.file_crc,
{
}

/// Content fidelity of stored entries: where the payload of a stored entry
/// is `source` itself, or for an encrypted entry the encryption of `source`
/// from the key state that the check header leaves, a successful extraction
/// gives `source` exactly.
pub proof fn lemma_stored_content_is_source(
    entry: EntryView,
    password: Option<Seq<u8>>,
    stream: Seq<u8>,
    source: Seq<u8>,
    appended: Seq<u8>,
    r: AlzResult<Extracted>,
)
    requires
        extraction_matches(entry, password, stream, appended, r),
        r is Ok,
        entry_kind(entry.file_attribute) != EntryKind::Directory,
        entry.compression_method == CompressionMethod::Store,
        window(stream, entry.data_pos as nat, entry.compressed_size as nat) == match entry_gate(
            entry,
            password,
        )->Ok_0 {
            Some(keys) => crate::crypto::encrypt_spec(keys, source),
            None => source,
        },
    ensures
        appended == source,
{
    match entry_gate(entry, password)->Ok_0 {
        Some(keys) => {
            crate::crypto::lemma_decrypt_encrypt(keys, source);
        },
        None => {},
    }
}

/// Content of packed entries: a DEFLATE entry that is extracted gives what
/// the inflater puts out for its decrypted payload, and a BZIP2 entry what
/// the decoder puts out for the rewritten stream of its decrypted payload,
/// whether the entry is encrypted or not.
pub proof fn lemma_packed_content(
    entry: EntryView,
    password: Option<Seq<u8>>,
    stream: Seq<u8>,
    appended: Seq<u8>,
    r: AlzResult<Extracted>,
)
    requires
        extraction_matches(entry, password, stream, appended, r),
        r is Ok,
        entry_kind(entry.file_attribute) != EntryKind::Directory,
    ensures
        entry.compression_method == CompressionMethod::Deflate ==> appended == inflate_outcome(
            entry_plain_held(entry, entry_gate(entry, password)->Ok_0, stream),
            entry.compressed_size as nat,
        ).1,
        entry.compression_method == CompressionMethod::Bzip2 ==> Some(appended) == bz_outcome(
            rewritten(entry_plain(entry, entry_gate(entry, password)->Ok_0, stream)),
        ),
        !(entry.compression_method is Unknown),
{
}

/// Encryption is transparent: where the stream holds the payload of an
/// encrypted entry whole, and the payload is the encryption of `packed` from
/// the key state that the check header leaves, the codec is handed `packed`.
/// What the entry is extracted to is then what `packed` decodes to.
pub proof fn lemma_payload_decrypts(
    entry: EntryView,
    keys: KeyState,
    stream: Seq<u8>,
    packed: Seq<u8>,
)
    requires
        payload_in_stream(entry, stream),
        window(stream, entry.data_pos as nat, entry.compressed_size as nat)
            == crate::crypto::encrypt_spec(keys, packed),
    ensures
        entry_plain(entry, Some(keys), stream) == packed,
        entry_plain_held(entry, Some(keys), stream) == packed,
{
    crate::crypto::lemma_decrypt_encrypt(keys, packed);
}

/// An entry of unknown method that passes the gates and is no directory
/// fails with `UnknownCompressionMethod` and the method's number, and
/// nothing is appended.
pub proof fn lemma_unknown_method_reported(
    entry: EntryView,
    password: Option<Seq<u8>>,
    stream: Seq<u8>,
    appended: Seq<u8>,
    r: AlzResult<Extracted>,
    n: u8,
)
    requires
        extraction_matches(entry, password, stream, appended, r),
        entry.compression_method == CompressionMethod::Unknown(n),
        entry_gate(entry, password) is Ok,
        entry_kind(entry.file_attribute) != EntryKind::Directory,
    ensures
        r matches Err(AlzError::UnknownCompressionMethod(m)) && m == n,
        appended.len() == 0,
{
}

/// A name that holds `../` or `..\` is refused, whatever else holds of the
/// entry: no extraction of such an entry succeeds, nothing is appended, and
/// where the password gate is passed the error is `PathTraversal` with the
/// name, its backslashes turned into slashes.
pub proof fn lemma_climbing_name_refused(
    entry: EntryView,
    password: Option<Seq<u8>>,
    stream: Seq<u8>,
    appended: Seq<u8>,
    r: AlzResult<Extracted>,
)
    requires
        extraction_matches(entry, password, stream, appended, r),
        climbs(entry.file_name),
    ensures
        r is Err,
        appended.len() == 0,
        entry_keys(entry, password) is Ok ==> reports(
            r->Err_0,
            GateFailure::PathTraversal,
            entry.file_name,
        ),
{
}

} // verus!
