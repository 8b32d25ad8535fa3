//! Stored entries: the payload is the content.

use crate::crc::{crc32, lemma_crc32_extend_concat, lemma_crc32_extend_empty};
use crate::crypto::ZipCrypto;
use crate::decompress::{
    available, crc32_update, fill_input, lemma_payload_concat, payload_keys, payload_plain,
    whole_steps, BUF_SIZE,
};
use crate::error::{AlzError, AlzResult};
use crate::multivolume::{after_short_read, window, MultiVolumeReader};
use vstd::prelude::*;
use vstd::slice::slice_subrange;

verus! {

/// Copies `size` stored bytes from the reader to `writer`, through `cipher`
/// where `encrypted` is set.
pub(crate) fn copy_stored(
    reader: &mut MultiVolumeReader,
    writer: &mut Vec<u8>,
    size: u64,
    cipher: &mut ZipCrypto,
    encrypted: bool,
) -> (r: AlzResult<u32>)
    requires
        old(reader).wf(),
    ensures
        final(reader).wf(),
        final(reader).files() == old(reader).files(),
        r is Ok <==> size == 0 || old(reader).position() + size <= old(reader).stream().len(),
        r matches Ok(crc) ==> {
            let payload = window(old(reader).stream(), old(reader).position(), size as nat);
            &&& final(writer)@ == old(writer)@ + payload_plain(encrypted, old(cipher)@, payload)
            &&& crc == crc32(payload_plain(encrypted, old(cipher)@, payload))
            &&& final(cipher)@ == payload_keys(encrypted, old(cipher)@, payload)
            &&& final(reader).position() == old(reader).position() + size
        },
        r matches Err(e) ==> {
            let read = whole_steps(
                available(old(reader).stream(), old(reader).position(), size as nat),
            );
            let payload = window(old(reader).stream(), old(reader).position(), read);
            &&& e is Io
            &&& final(writer)@ == old(writer)@ + payload_plain(encrypted, old(cipher)@, payload)
            &&& final(cipher)@ == payload_keys(encrypted, old(cipher)@, payload)
            &&& final(reader).position() == after_short_read(
                old(reader).stream(),
                old(reader).position(),
            )
        },
{
    let ghost stream = reader.stream();
    let ghost pos = reader.position();
    let ghost written = writer@;
    let ghost keys = cipher@;
    let mut crc: u32 = 0;
    let mut buf: Vec<u8> = vec![0u8; BUF_SIZE];
    let mut remaining: u64 = size;
    proof {
        lemma_crc32_extend_empty(0);
        assert(window(stream, pos, 0) =~= Seq::<u8>::empty());
        assert(written + Seq::<u8>::empty() =~= written);
        if encrypted {
            assert(payload_plain(encrypted, keys, Seq::<u8>::empty()) =~= Seq::<u8>::empty());
        }
    }
    while remaining > 0
        invariant
            reader.wf(),
            reader.files() == old(reader).files(),
            stream == reader.stream(),
            stream == old(reader).stream(),
            pos == old(reader).position(),
            written == old(writer)@,
            keys == old(cipher)@,
            buf@.len() == BUF_SIZE,
            remaining <= size,
            remaining < size ==> pos + (size - remaining) <= stream.len(),
            remaining > 0 ==> (size - remaining) % (BUF_SIZE as int) == 0,
            reader.position() == pos + (size - remaining),
            writer@ == written + payload_plain(
                encrypted,
                keys,
                window(stream, pos, (size - remaining) as nat),
            ),
            crc == crc32(
                payload_plain(encrypted, keys, window(stream, pos, (size - remaining) as nat)),
            ),
            cipher@ == payload_keys(
                encrypted,
                keys,
                window(stream, pos, (size - remaining) as nat),
            ),
        decreases remaining,
    {
        let to_read: usize = if remaining > BUF_SIZE as u64 {
            BUF_SIZE
        } else {
            remaining as usize
        };
        let ghost done = (size - remaining) as nat;
        let ghost before = window(stream, pos, done);
        let ghost plain_before = payload_plain(encrypted, keys, before);
        match fill_input(reader, &mut buf, to_read, cipher, encrypted) {
            Ok(()) => {},
            Err(e) => {
                proof {
                    let held = available(stream, pos, size as nat);
                    assert(done + to_read > held);
                    assert(done <= held);
                    assert(done == whole_steps(held)) by {
                        let b = BUF_SIZE as int;
                        assert(done as int % b == 0);
                        assert(held - done < b);
                        assert(done as int == (done as int / b) * b);
                        assert(held as int / b == done as int / b) by (nonlinear_arith)
                            requires
                                b > 0,
                                done as int % b == 0,
                                0 <= held - done < b,
                                done <= held,
                        ;
                    }
                }
                return Err(AlzError::from(e));
            },
        }
        let data = slice_subrange(buf.as_slice(), 0, to_read);
        crc = crc32_update(crc, data);
        writer.extend_from_slice(data);
        proof {
            let chunk = window(stream, (pos + done) as nat, to_read as nat);
            assert(window(stream, pos, done + to_read as nat) =~= before + chunk);
            lemma_payload_concat(encrypted, keys, before, chunk);
            lemma_crc32_extend_concat(0, plain_before, data@);
            assert(writer@ =~= written + (plain_before + data@));
        }
        remaining = remaining - to_read as u64;
    }
    Ok(crc)
}

/// Extracts a stored payload of `size` bytes: reads it from the reader's
/// cursor on, decrypts it where a cipher is given, appends it to `writer`
/// and returns its CRC-32. Fails where the stream ends before `size` bytes.
pub fn extract_raw(
    reader: &mut MultiVolumeReader,
    writer: &mut Vec<u8>,
    size: u64,
    crypto: Option<&mut ZipCrypto>,
) -> (r: AlzResult<u32>)
    requires
        old(reader).wf(),
    ensures
        final(reader).wf(),
        final(reader).files() == old(reader).files(),
        r is Ok <==> size == 0 || old(reader).position() + size <= old(reader).stream().len(),
        r matches Ok(crc) ==> {
            let payload = window(old(reader).stream(), old(reader).position(), size as nat);
            let plain = match crypto {
                Some(c) => payload_plain(true, c@, payload),
                None => payload,
            };
            &&& final(writer)@ == old(writer)@ + plain
            &&& crc == crc32(plain)
            &&& final(reader).position() == old(reader).position() + size
            &&& crypto matches Some(c) ==> final(c)@ == payload_keys(true, c@, payload)
        },
        old(writer)@.is_prefix_of(final(writer)@),
        r matches Err(e) ==> {
            let read = whole_steps(
                available(old(reader).stream(), old(reader).position(), size as nat),
            );
            let payload = window(old(reader).stream(), old(reader).position(), read);
            &&& e is Io
            &&& final(writer)@ == old(writer)@ + match crypto {
                Some(c) => payload_plain(true, c@, payload),
                None => payload,
            }
            &&& crypto matches Some(c) ==> final(c)@ == payload_keys(true, c@, payload)
            &&& final(reader).position() == after_short_read(
                old(reader).stream(),
                old(reader).position(),
            )
        },
{
    match crypto {
        Some(c) => copy_stored(reader, writer, size, c, true),
        None => {
            let mut idle = ZipCrypto::new(&[]);
            copy_stored(reader, writer, size, &mut idle, false)
        },
    }
}

} // verus!
