//! Payload codecs: stored, DEFLATE and the ALZ dialect of BZIP2.
//!
//! Every codec reads an entry's payload from the archive reader, which the
//! caller has placed at the payload's first byte, decrypts it where the
//! entry is encrypted, appends the decoded bytes to the caller's buffer and
//! returns their CRC-32.

use crate::crc::crc32_extend;
use crate::crypto::{decrypt_spec, keys_after, KeyState, ZipCrypto};
use crate::multivolume::{after_short_read, window, MultiVolumeReader};
use vstd::prelude::*;

pub mod bzip2;
pub mod deflate;
pub mod raw;

verus! {

/// Bytes moved per step between the archive and a codec.
pub const BUF_SIZE: usize = 32768;

/// What a payload decrypts to: itself where the entry is not encrypted.
pub open spec fn payload_plain(encrypted: bool, keys: KeyState, payload: Seq<u8>) -> Seq<u8> {
    if encrypted {
        decrypt_spec(keys, payload)
    } else {
        payload
    }
}

/// The key state after a payload has passed through the cipher.
pub open spec fn payload_keys(encrypted: bool, keys: KeyState, payload: Seq<u8>) -> KeyState {
    if encrypted {
        keys_after(keys, decrypt_spec(keys, payload))
    } else {
        keys
    }
}

/// Decrypting a payload in two parts is decrypting the whole.
pub proof fn lemma_payload_concat(encrypted: bool, keys: KeyState, a: Seq<u8>, b: Seq<u8>)
    ensures
        payload_plain(encrypted, keys, a + b) == payload_plain(encrypted, keys, a) + payload_plain(
            encrypted,
            payload_keys(encrypted, keys, a),
            b,
        ),
        payload_keys(encrypted, keys, a + b) == payload_keys(
            encrypted,
            payload_keys(encrypted, keys, a),
            b,
        ),
        payload_plain(encrypted, keys, a).len() == a.len(),
{
    if encrypted {
        crate::crypto::lemma_decrypt_concat(keys, a, b);
        crate::crypto::lemma_decrypt_len(keys, a);
    }
}

/// How many bytes of a payload of `size` bytes at `pos` the stream holds.
pub open spec fn available(stream: Seq<u8>, pos: nat, size: nat) -> nat {
    if pos >= stream.len() {
        0
    } else if stream.len() - pos < size {
        (stream.len() - pos) as nat
    } else {
        size
    }
}

/// How many bytes of a payload are read before a read fails, where the
/// stream holds only `held` bytes of it: the whole steps that the stream
/// holds.
pub open spec fn whole_steps(held: nat) -> nat {
    (held / (BUF_SIZE as nat)) * (BUF_SIZE as nat)
}

/// The part of a payload from `i` to `j` decrypts, from the key state that
/// the part before `i` leaves, to the same part of the decrypted payload.
pub proof fn lemma_payload_slice(
    encrypted: bool,
    keys: KeyState,
    whole: Seq<u8>,
    i: int,
    j: int,
)
    requires
        0 <= i <= j <= whole.len(),
    ensures
        payload_plain(encrypted, keys, whole).len() == whole.len(),
        payload_plain(encrypted, payload_keys(encrypted, keys, whole.subrange(0, i)), whole.subrange(i, j))
            == payload_plain(encrypted, keys, whole).subrange(i, j),
        payload_keys(encrypted, payload_keys(encrypted, keys, whole.subrange(0, i)), whole.subrange(i, j))
            == payload_keys(encrypted, keys, whole.subrange(0, j)),
        payload_plain(encrypted, keys, whole.subrange(0, i)) == payload_plain(
            encrypted,
            keys,
            whole,
        ).subrange(0, i),
{
    let a = whole.subrange(0, i);
    let b = whole.subrange(i, j);
    let c = whole.subrange(j, whole.len() as int);
    assert(a + b =~= whole.subrange(0, j));
    assert((a + b) + c =~= whole);
    lemma_payload_concat(encrypted, keys, a, b);
    lemma_payload_concat(encrypted, keys, a + b, c);
    lemma_payload_concat(encrypted, payload_keys(encrypted, keys, a), b, Seq::<u8>::empty());
    lemma_payload_concat(encrypted, payload_keys(encrypted, keys, a + b), c, Seq::<u8>::empty());
    let pa = payload_plain(encrypted, keys, a);
    let pb = payload_plain(encrypted, payload_keys(encrypted, keys, a), b);
    let pc = payload_plain(encrypted, payload_keys(encrypted, keys, a + b), c);
    assert(payload_plain(encrypted, keys, whole) == (pa + pb) + pc);
    assert(((pa + pb) + pc).subrange(i, j) =~= pb);
    assert(((pa + pb) + pc).subrange(0, i) =~= pa);
}

/// Reads the next `n` bytes of a payload into the front of `buf` and
/// decrypts them there where `encrypted` is set.
pub(crate) fn fill_input(
    reader: &mut MultiVolumeReader,
    buf: &mut Vec<u8>,
    n: usize,
    cipher: &mut ZipCrypto,
    encrypted: bool,
) -> (r: Result<(), std::io::Error>)
    requires
        old(reader).wf(),
        0 < n <= old(buf)@.len(),
    ensures
        final(reader).wf(),
        final(reader).files() == old(reader).files(),
        final(buf)@.len() == old(buf)@.len(),
        r is Ok <==> old(reader).position() + n <= old(reader).stream().len(),
        r is Ok ==> {
            let chunk = window(old(reader).stream(), old(reader).position(), n as nat);
            &&& final(reader).position() == old(reader).position() + n
            &&& final(buf)@.subrange(0, n as int) == payload_plain(encrypted, old(cipher)@, chunk)
            &&& final(cipher)@ == payload_keys(encrypted, old(cipher)@, chunk)
        },
        r is Err ==> final(cipher)@ == old(cipher)@,
        r is Err ==> final(reader).position() == after_short_read(
            old(reader).stream(),
            old(reader).position(),
        ),
{
    let (data, _rest) = buf.as_mut_slice().split_at_mut(n);
    match reader.read_exact(data) {
        Ok(()) => {},
        Err(e) => {
            return Err(e);
        },
    }
    if encrypted {
        cipher.decrypt(data);
    }
    Ok(())
}

/// `crc32fast::Hasher`, started from the checksum `crc` of what came before
/// and fed `data`: the CRC-32 (IEEE) of the whole.
#[verifier::external_body]
pub(crate) fn crc32_update(crc: u32, data: &[u8]) -> (r: u32)
    ensures
        r == crc32_extend(crc, data@),
{
    let mut hasher = crc32fast::Hasher::new_with_initial(crc);
    hasher.update(data);
    hasher.finalize()
}

} // verus!
