//! DEFLATE entries: a raw deflate stream, without zlib or gzip framing.
//!
//! The inflater is an outside state machine. What a call returns depends on
//! nothing but the calls made on that inflater since it was made, so the
//! outcome of a call has a name over the calls so far, and what a payload
//! inflates to is defined from that name by the steps that the extractor
//! takes.

use crate::crc::{crc32, lemma_crc32_extend_concat, lemma_crc32_extend_empty};
use crate::crypto::ZipCrypto;
use crate::decompress::{
    available, crc32_update, fill_input, lemma_payload_slice, payload_keys, payload_plain,
    BUF_SIZE,
};
use crate::error::{is_io_failure, AlzError, AlzResult};
use crate::multivolume::{after_short_read, window, MultiVolumeReader};
use vstd::prelude::*;
use vstd::slice::slice_subrange;

verus! {

/// `flate2::Decompress`, an inflater in progress. Nothing of its state is
/// visible but what is named below: its two counters and the calls that
/// were made on it.
#[verifier::external_type_specification]
#[verifier::external_body]
pub struct ExInflater(flate2::Decompress);

/// `flate2::DecompressError`, the reason for which the inflater refused its
/// input.
#[verifier::external_type_specification]
#[verifier::external_body]
pub struct ExInflateError(flate2::DecompressError);

/// The number of input bytes that an inflater has consumed since it was
/// made, as `flate2::Decompress::total_in` reports it.
pub uninterp spec fn inflater_total_in(inflater: flate2::Decompress) -> nat;

/// The number of output bytes that an inflater has produced since it was
/// made, as `flate2::Decompress::total_out` reports it.
pub uninterp spec fn inflater_total_out(inflater: flate2::Decompress) -> nat;

/// The calls of `decompress` that were made on an inflater since
/// `new_inflater` made it, in order: of each the input that was offered and the room that the
/// output buffer had.
pub uninterp spec fn inflater_calls(inflater: flate2::Decompress) -> Seq<(Seq<u8>, nat)>;

/// What a call of `decompress` does.
pub struct InflateOutcome {
    /// Whether the inflater refused the input.
    pub refused: bool,
    /// The status reported, where the input was not refused.
    pub status: InflateStatus,
    /// How many of the bytes offered were consumed.
    pub consumed: nat,
    /// The bytes written to the front of the output buffer.
    pub written: Seq<u8>,
}

/// What the last of `calls` does, when `calls` are the calls of
/// `flate2::Decompress::decompress`, with `FlushDecompress::Sync`, that
/// were made on an inflater since `new_inflater` made it for raw deflate.
/// The inflater reads nothing but its own state and the input it is
/// offered.
pub uninterp spec fn inflate_call(calls: Seq<(Seq<u8>, nat)>) -> InflateOutcome;

/// `flate2::Decompress::new` without the zlib header: a fresh inflater for
/// raw deflate, on which no call was made and which has consumed and
/// produced nothing. No other inflater is made here, so the calls that
/// `inflate_call` speaks of are always calls on an inflater for raw deflate.
#[verifier::external_body]
fn new_inflater() -> (inflater: flate2::Decompress)
    ensures
        inflater_total_in(inflater) == 0,
        inflater_total_out(inflater) == 0,
        inflater_calls(inflater) == Seq::<(Seq<u8>, nat)>::empty(),
{
    flate2::Decompress::new(false)
}

/// `flate2::Decompress::total_in`: the count of input bytes consumed.
pub assume_specification[ flate2::Decompress::total_in ](inflater: &flate2::Decompress) -> (n:
    u64)
    ensures
        n == inflater_total_in(*inflater),
;

/// `flate2::Decompress::total_out`: the count of output bytes produced.
pub assume_specification[ flate2::Decompress::total_out ](inflater: &flate2::Decompress) -> (n:
    u64)
    ensures
        n == inflater_total_out(*inflater),
;

/// How one step of the inflater ended.
#[derive(Clone, Copy, Debug, PartialEq, Eq, Structural)]
pub enum InflateStatus {
    /// The step went through; there may be more to do.
    Running,
    /// No progress was possible with the buffers given.
    BufError,
    /// The deflate stream has ended.
    StreamEnd,
}

/// `flate2::Decompress::decompress` with `FlushDecompress::Sync`, on an
/// inflater that `new_inflater` made: no other is made in verified code, as
/// no other constructor has a contract. The call joins the calls made on
/// the inflater, and does what `inflate_call` names
/// for them: it consumes a prefix of `input`, writes to the front of
/// `output`, and reports a status or refuses. The two counters grow by what
/// was consumed and written, which is never more than the buffers hold,
/// whether the input is refused or not.
#[verifier::external_body]
fn inflate_step(inflater: &mut flate2::Decompress, input: &[u8], output: &mut [u8]) -> (r: Result<
    InflateStatus,
    flate2::DecompressError,
>)
    ensures
        final(output)@.len() == old(output)@.len(),
        inflater_calls(*final(inflater)) == inflater_calls(*old(inflater)).push(
            (input@, old(output)@.len() as nat),
        ),
        inflate_call(inflater_calls(*final(inflater))).consumed <= input@.len(),
        inflate_call(inflater_calls(*final(inflater))).written.len() <= old(output)@.len(),
        inflater_total_in(*final(inflater)) == inflater_total_in(*old(inflater)) + inflate_call(
            inflater_calls(*final(inflater)),
        ).consumed,
        inflater_total_out(*final(inflater)) == inflater_total_out(*old(inflater)) + inflate_call(
            inflater_calls(*final(inflater)),
        ).written.len(),
        final(output)@.subrange(
            0,
            inflate_call(inflater_calls(*final(inflater))).written.len() as int,
        ) == inflate_call(inflater_calls(*final(inflater))).written,
        r is Err <==> inflate_call(inflater_calls(*final(inflater))).refused,
        r matches Ok(status) ==> status == inflate_call(inflater_calls(*final(inflater))).status,
{
    match inflater.decompress(input, output, flate2::FlushDecompress::Sync) {
        Ok(flate2::Status::Ok) => Ok(InflateStatus::Running),
        Ok(flate2::Status::BufError) => Ok(InflateStatus::BufError),
        Ok(flate2::Status::StreamEnd) => Ok(InflateStatus::StreamEnd),
        Err(e) => Err(e),
    }
}

/// The text of a `flate2::DecompressError`, as its `Display` gives it.
#[verifier::external_body]
fn inflate_error_text(e: &flate2::DecompressError) -> String {
    format!("{e}")
}

/// Whether the inflate loop ends after a step that reported `status`,
/// consumed `consumed` bytes and produced `produced`, leaving `in_avail`
/// bytes buffered and `remaining` bytes of payload unread. It ends at the
/// end of the deflate stream, when the payload is used up and nothing more
/// comes out, and when a step moves nothing at all.
pub fn inflate_finished(
    status: InflateStatus,
    consumed: usize,
    produced: usize,
    in_avail: usize,
    remaining: u64,
) -> (stop: bool)
    ensures
        stop == (status == InflateStatus::StreamEnd || (in_avail == 0 && remaining == 0 && produced
            == 0) || (consumed == 0 && produced == 0)),
{
    match status {
        InflateStatus::StreamEnd => true,
        _ => (in_avail == 0 && remaining == 0 && produced == 0) || (consumed == 0 && produced == 0),
    }
}

/// How the inflating of a payload ends.
#[derive(PartialEq, Eq, Structural)]
pub enum InflateEnd {
    /// The inflater reported the end of the deflate stream, or the payload
    /// was used up and nothing more came out, or a step moved nothing.
    Done,
    /// The inflater refused the payload.
    Refused,
    /// The stream ended before the payload did.
    Short,
}

/// How many bytes the next read takes of a payload of `size` bytes of which
/// `loaded` are read.
pub open spec fn next_step(size: nat, loaded: nat) -> nat {
    if size - loaded > BUF_SIZE {
        BUF_SIZE as nat
    } else {
        (size - loaded) as nat
    }
}

/// Whether the inflating ends after a step with this outcome, which left
/// `fed` bytes consumed of the `loaded` that are read of a payload of `size`
/// bytes.
pub open spec fn step_ends(o: InflateOutcome, fed: nat, loaded: nat, size: nat) -> bool {
    o.status == InflateStatus::StreamEnd || (fed == loaded && loaded == size && o.written.len()
        == 0) || (o.consumed == 0 && o.written.len() == 0)
}

/// The rest of the inflating of a payload of `size` bytes, of which the
/// stream holds the bytes that decrypt to `plain`: how it ends, what has
/// come out in all, and how many bytes of the payload were read. So far `calls` were made on the inflater, `fed` bytes
/// were consumed of the `loaded` that were read, and `out` has come out.
///
/// A step reads on when all that was read is consumed: at most `BUF_SIZE`
/// bytes, and the run is `Short` where the stream does not hold them. Then
/// it offers the inflater what is read and not consumed, with room for
/// `BUF_SIZE` bytes, and appends what the inflater writes.
pub open spec fn inflate_run(
    plain: Seq<u8>,
    size: nat,
    calls: Seq<(Seq<u8>, nat)>,
    fed: nat,
    loaded: nat,
    out: Seq<u8>,
) -> (InflateEnd, Seq<u8>, nat)
    decreases
            (if fed < size {
                size - fed
            } else {
                0
            }),
            (if out.len() < u64::MAX {
                u64::MAX - out.len()
            } else {
                0
            }),
{
    let refill = loaded == fed && loaded < size;
    if refill && loaded + next_step(size, loaded) > plain.len() {
        (InflateEnd::Short, out, loaded)
    } else {
        let now_loaded = if refill {
            loaded + next_step(size, loaded)
        } else {
            loaded
        };
        let now = calls.push((plain.subrange(fed as int, now_loaded as int), BUF_SIZE as nat));
        let o = inflate_call(now);
        if o.refused {
            (InflateEnd::Refused, out, now_loaded)
        } else if fed + o.consumed > now_loaded || now_loaded > size || out.len() + o.written.len()
            > u64::MAX {
            // No inflater consumes more than it is offered or counts past
            // what its counter holds.
            (InflateEnd::Done, out, now_loaded)
        } else if step_ends(o, fed + o.consumed, now_loaded, size) {
            (InflateEnd::Done, out + o.written, now_loaded)
        } else {
            inflate_run(plain, size, now, fed + o.consumed, now_loaded, out + o.written)
        }
    }
}

/// How the inflating of a payload of `size` bytes ends, of which the stream
/// holds the bytes that decrypt to `plain`, what comes out, and how many
/// bytes of the payload are read.
pub open spec fn inflate_outcome(plain: Seq<u8>, size: nat) -> (InflateEnd, Seq<u8>, nat) {
    inflate_run(plain, size, Seq::empty(), 0, 0, Seq::empty())
}

/// What a payload that decrypts to `plain` inflates to: all that the
/// inflater puts out before the inflating ends.
pub open spec fn inflated(plain: Seq<u8>) -> Seq<u8> {
    inflate_outcome(plain, plain.len()).1
}

/// Whether the inflater refuses a payload that decrypts to `plain`.
pub open spec fn inflate_refused(plain: Seq<u8>) -> bool {
    inflate_outcome(plain, plain.len()).0 == InflateEnd::Refused
}

/// A payload that the stream holds whole is never `Short`.
pub proof fn lemma_whole_payload_not_short(
    plain: Seq<u8>,
    calls: Seq<(Seq<u8>, nat)>,
    fed: nat,
    loaded: nat,
    out: Seq<u8>,
)
    requires
        loaded <= plain.len(),
    ensures
        inflate_run(plain, plain.len(), calls, fed, loaded, out).0 != InflateEnd::Short,
    decreases
            (if fed < plain.len() {
                plain.len() - fed
            } else {
                0
            }),
            (if out.len() < u64::MAX {
                u64::MAX - out.len()
            } else {
                0
            }),
{
    let size = plain.len();
    let refill = loaded == fed && loaded < size;
    let now_loaded = if refill {
        loaded + next_step(size, loaded)
    } else {
        loaded
    };
    let now = calls.push((plain.subrange(fed as int, now_loaded as int), BUF_SIZE as nat));
    let o = inflate_call(now);
    if !o.refused && !(fed + o.consumed > now_loaded || now_loaded > size || out.len()
        + o.written.len() > u64::MAX) && !step_ends(o, fed + o.consumed, now_loaded, size) {
        lemma_whole_payload_not_short(plain, now, fed + o.consumed, now_loaded, out + o.written);
    }
}

/// For a payload that the stream holds whole, the extraction succeeds
/// exactly where the inflater does not refuse the payload, fails with
/// `InflateFailed` exactly where it does, and appends what the payload
/// inflates to.
pub proof fn lemma_whole_payload_result(plain: Seq<u8>, appended: Seq<u8>, r: AlzResult<u32>)
    requires
        deflate_result(plain, plain.len(), appended, r),
    ensures
        r is Ok <==> !inflate_refused(plain),
        r is Err ==> r->Err_0 is InflateFailed,
        r is Ok ==> r->Ok_0 == crc32(inflated(plain)),
        appended == inflated(plain),
{
    lemma_whole_payload_not_short(plain, Seq::empty(), 0, 0, Seq::empty());
}

/// How many bytes of a payload of `size` bytes at `pos` are read while it is
/// inflated. Reading stops with the inflating, so this may be less than
/// `size`.
pub open spec fn bytes_read(
    encrypted: bool,
    keys: crate::crypto::KeyState,
    stream: Seq<u8>,
    pos: nat,
    size: nat,
) -> nat {
    inflate_outcome(
        payload_plain(encrypted, keys, window(stream, pos, available(stream, pos, size))),
        size,
    ).2
}

/// Where the cursor stands after a payload of `size` bytes at `pos` was
/// inflated: after the bytes that were read, or where a short read leaves
/// it.
pub open spec fn deflate_cursor(
    encrypted: bool,
    keys: crate::crypto::KeyState,
    stream: Seq<u8>,
    pos: nat,
    size: nat,
) -> nat {
    if inflate_outcome(
        payload_plain(encrypted, keys, window(stream, pos, available(stream, pos, size))),
        size,
    ).0 == InflateEnd::Short {
        after_short_read(stream, pos)
    } else {
        pos + bytes_read(encrypted, keys, stream, pos, size)
    }
}

/// How the result of extracting a DEFLATE payload, and what was appended,
/// follow from the inflating of the payload: what came out is appended in
/// every case; the result is the CRC-32 of what came out where the
/// inflating is done, `InflateFailed` where the inflater refused, and `Io`
/// where the stream ended before the payload did.
pub open spec fn deflate_result(
    plain: Seq<u8>,
    size: nat,
    appended: Seq<u8>,
    r: AlzResult<u32>,
) -> bool {
    let end = inflate_outcome(plain, size).0;
    let out = inflate_outcome(plain, size).1;
    &&& appended == out
    &&& end == InflateEnd::Done ==> r == Ok::<u32, AlzError>(crc32(out))
    &&& end == InflateEnd::Refused ==> r is Err && r->Err_0 is InflateFailed
    &&& end == InflateEnd::Short ==> r is Err && r->Err_0 is Io
}

/// Moves `buf[from..to]` to the front of `buf`.
fn move_to_front(buf: &mut Vec<u8>, from: usize, to: usize)
    requires
        from <= to <= old(buf)@.len(),
    ensures
        final(buf)@.len() == old(buf)@.len(),
        final(buf)@.subrange(0, to - from) == old(buf)@.subrange(from as int, to as int),
{
    let n = to - from;
    let mut k: usize = 0;
    while k < n
        invariant
            k <= n,
            n == to - from,
            from <= to <= buf@.len(),
            buf@.len() == old(buf)@.len(),
            forall|j: int| 0 <= j < k ==> buf@[j] == old(buf)@[from + j],
            forall|j: int| k + from <= j < buf@.len() ==> buf@[j] == old(buf)@[j],
        decreases n - k,
    {
        let b = buf[from + k];
        buf[k] = b;
        k += 1;
    }
    assert(buf@.subrange(0, to - from) =~= old(buf)@.subrange(from as int, to as int));
}

/// Inflates a payload of `size` bytes, through `cipher` where `encrypted` is
/// set.
#[verifier::rlimit(60)]
pub(crate) fn inflate_payload(
    reader: &mut MultiVolumeReader,
    writer: &mut Vec<u8>,
    size: u64,
    cipher: &mut ZipCrypto,
    encrypted: bool,
) -> (r: AlzResult<u32>)
    requires
        old(reader).wf(),
    ensures
        final(reader).wf(),
        final(reader).files() == old(reader).files(),
        old(reader).position() <= final(reader).position() <= old(reader).position() + size,
        final(reader).position() == deflate_cursor(
            encrypted,
            old(cipher)@,
            old(reader).stream(),
            old(reader).position(),
            size as nat,
        ),
        final(cipher)@ == payload_keys(
            encrypted,
            old(cipher)@,
            window(
                old(reader).stream(),
                old(reader).position(),
                bytes_read(
                    encrypted,
                    old(cipher)@,
                    old(reader).stream(),
                    old(reader).position(),
                    size as nat,
                ),
            ),
        ),
        deflate_result(
            payload_plain(
                encrypted,
                old(cipher)@,
                window(
                    old(reader).stream(),
                    old(reader).position(),
                    available(old(reader).stream(), old(reader).position(), size as nat),
                ),
            ),
            size as nat,
            final(writer)@.skip(old(writer)@.len() as int),
            r,
        ),
        old(writer)@.is_prefix_of(final(writer)@),
{
    let ghost stream = reader.stream();
    let ghost pos = reader.position();
    let ghost written = writer@;
    let ghost keys = cipher@;
    let ghost avail = available(stream, pos, size as nat);
    let ghost payload = window(stream, pos, avail);
    let ghost plain = payload_plain(encrypted, keys, payload);
    let ghost goal = inflate_outcome(plain, size as nat);
    let ghost mut calls = Seq::<(Seq<u8>, nat)>::empty();
    let mut crc: u32 = 0;
    let mut in_buf: Vec<u8> = vec![0u8; BUF_SIZE];
    let mut out_buf: Vec<u8> = vec![0u8; BUF_SIZE];
    let mut inflater = new_inflater();
    let mut remaining: u64 = size;
    let mut in_avail: usize = 0;
    proof {
        reader.lemma_wf_facts();
        lemma_crc32_extend_empty(0);
        assert(window(stream, pos, 0) =~= Seq::<u8>::empty());
        assert(writer@.skip(written.len() as int) =~= Seq::<u8>::empty());
        lemma_payload_slice(encrypted, keys, payload, 0, 0);
        assert(payload.subrange(0, 0) =~= Seq::<u8>::empty());
        assert(in_buf@.subrange(0, 0) =~= plain.subrange(0, 0));
    }
    loop
        invariant
            reader.wf(),
            reader.files() == old(reader).files(),
            stream == reader.stream(),
            stream == old(reader).stream(),
            stream.len() <= u64::MAX,
            pos == old(reader).position(),
            written == old(writer)@,
            keys == old(cipher)@,
            avail == available(stream, pos, size as nat),
            payload == window(stream, pos, avail),
            payload.len() == avail,
            plain == payload_plain(encrypted, keys, payload),
            plain.len() == avail,
            goal == inflate_outcome(plain, size as nat),
            in_buf@.len() == BUF_SIZE,
            out_buf@.len() == BUF_SIZE,
            in_avail <= BUF_SIZE,
            remaining <= size,
            in_avail <= size - remaining,
            size - remaining <= avail,
            reader.position() == pos + (size - remaining),
            cipher@ == payload_keys(
                encrypted,
                keys,
                window(stream, pos, (size - remaining) as nat),
            ),
            written.is_prefix_of(writer@),
            crc == crc32(writer@.skip(written.len() as int)),
            inflater_calls(inflater) == calls,
            inflater_total_in(inflater) + in_avail == size - remaining,
            inflater_total_out(inflater) == writer@.len() - written.len(),
            in_buf@.subrange(0, in_avail as int) == plain.subrange(
                size - remaining - in_avail,
                size - remaining,
            ),
            goal == inflate_run(
                plain,
                size as nat,
                calls,
                (size - remaining - in_avail) as nat,
                (size - remaining) as nat,
                writer@.skip(written.len() as int),
            ),
        decreases remaining + in_avail, u64::MAX - inflater_total_out(inflater),
    {
        let ghost fed = (size - remaining - in_avail) as nat;
        let ghost loaded = (size - remaining) as nat;
        let ghost out = writer@.skip(written.len() as int);
        if in_avail == 0 && remaining > 0 {
            let to_read: usize = if remaining > BUF_SIZE as u64 {
                BUF_SIZE
            } else {
                remaining as usize
            };
            assert(to_read == next_step(size as nat, loaded));
            match fill_input(reader, &mut in_buf, to_read, cipher, encrypted) {
                Ok(()) => {},
                Err(e) => {
                    proof {
                        assert(loaded + to_read > plain.len());
                    }
                    return Err(AlzError::from(e));
                },
            }
            proof {
                assert(loaded + to_read <= avail);
                let chunk = window(stream, (pos + loaded) as nat, to_read as nat);
                assert(chunk =~= payload.subrange(loaded as int, loaded + to_read));
                assert(window(stream, pos, loaded) =~= payload.subrange(0, loaded as int));
                assert(window(stream, pos, loaded + to_read as nat) =~= payload.subrange(
                    0,
                    loaded + to_read,
                ));
                lemma_payload_slice(encrypted, keys, payload, loaded as int, loaded + to_read);
            }
            remaining = remaining - to_read as u64;
            in_avail = to_read;
        }
        let ghost now_loaded = (size - remaining) as nat;
        let before_in = inflater.total_in();
        let before_out = inflater.total_out();
        let step = inflate_step(
            &mut inflater,
            slice_subrange(in_buf.as_slice(), 0, in_avail),
            out_buf.as_mut_slice(),
        );
        proof {
            calls = calls.push((plain.subrange(fed as int, now_loaded as int), BUF_SIZE as nat));
        }
        let ghost o = inflate_call(calls);
        let status = match step {
            Ok(status) => status,
            Err(e) => {
                return Err(AlzError::InflateFailed(inflate_error_text(&e)));
            },
        };
        let consumed = (inflater.total_in() - before_in) as usize;
        let produced = (inflater.total_out() - before_out) as usize;
        if consumed < in_avail {
            let ghost pending = in_buf@.subrange(0, in_avail as int);
            move_to_front(&mut in_buf, consumed, in_avail);
            proof {
                assert(in_buf@.subrange(0, in_avail - consumed) =~= pending.subrange(
                    consumed as int,
                    in_avail as int,
                ));
                assert(pending.subrange(consumed as int, in_avail as int) =~= plain.subrange(
                    fed + consumed,
                    now_loaded as int,
                ));
            }
        } else {
            proof {
                assert(in_buf@.subrange(0, 0) =~= plain.subrange(
                    now_loaded as int,
                    now_loaded as int,
                ));
            }
        }
        in_avail = in_avail - consumed;
        if produced > 0 {
            let piece = slice_subrange(out_buf.as_slice(), 0, produced);
            crc = crc32_update(crc, piece);
            writer.extend_from_slice(piece);
            proof {
                lemma_crc32_extend_concat(0, out, piece@);
                assert(writer@.skip(written.len() as int) =~= out + piece@);
            }
        } else {
            proof {
                assert(o.written =~= Seq::<u8>::empty());
                assert(out + o.written =~= out);
            }
        }
        if inflate_finished(status, consumed, produced, in_avail, remaining) {
            return Ok(crc);
        }
    }
}

/// Extracts a DEFLATE payload of `compressed_size` bytes: reads it from the
/// reader's cursor on in steps of at most `BUF_SIZE` bytes, decrypts each
/// step where a cipher is given, inflates it, appends what comes out to
/// `writer` and returns the CRC-32 of what was appended.
///
/// The inflating ends where the inflater reports the end of the deflate
/// stream, where the payload is used up and nothing more comes out, and
/// where a step moves nothing. Reading stops with it, so the cursor may
/// stop short of the payload's end. A stream that ends before a step of the
/// payload could be read is an `Io` failure; a payload that the inflater
/// refuses is an `InflateFailed` failure. What was inflated before a
/// failure stays in `writer`.
pub fn extract_deflate(
    reader: &mut MultiVolumeReader,
    writer: &mut Vec<u8>,
    compressed_size: u64,
    crypto: Option<&mut ZipCrypto>,
) -> (r: AlzResult<u32>)
    requires
        old(reader).wf(),
    ensures
        final(reader).wf(),
        final(reader).files() == old(reader).files(),
        old(writer)@.is_prefix_of(final(writer)@),
        old(reader).position() <= final(reader).position() <= old(reader).position()
            + compressed_size,
        final(reader).position() == deflate_cursor(
            crypto is Some,
            match crypto {
                Some(c) => c@,
                None => crate::crypto::initial_keys(),
            },
            old(reader).stream(),
            old(reader).position(),
            compressed_size as nat,
        ),
        crypto matches Some(c) ==> (final(c)@ == payload_keys(
            true,
            c@,
            window(
                old(reader).stream(),
                old(reader).position(),
                bytes_read(
                    true,
                    c@,
                    old(reader).stream(),
                    old(reader).position(),
                    compressed_size as nat,
                ),
            ),
        )),
        deflate_result(
            match crypto {
                Some(c) => payload_plain(
                    true,
                    c@,
                    window(
                        old(reader).stream(),
                        old(reader).position(),
                        available(
                            old(reader).stream(),
                            old(reader).position(),
                            compressed_size as nat,
                        ),
                    ),
                ),
                None => window(
                    old(reader).stream(),
                    old(reader).position(),
                    available(old(reader).stream(), old(reader).position(), compressed_size as nat),
                ),
            },
            compressed_size as nat,
            final(writer)@.skip(old(writer)@.len() as int),
            r,
        ),
{
    match crypto {
        Some(c) => inflate_payload(reader, writer, compressed_size, c, true),
        None => {
            let mut idle = ZipCrypto::new(&[]);
            inflate_payload(reader, writer, compressed_size, &mut idle, false)
        },
    }
}

} // verus!
