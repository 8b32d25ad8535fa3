//! The ALZ dialect of BZIP2.
//!
//! An ALZ payload is a BZIP2 stream with the stream header, the block
//! checksums, the randomisation bit and the stream checksum left out, and
//! with shorter block and end markers. The payload is rewritten into a
//! standard stream, bit by bit, and handed to a standard decoder.

use crate::crc::{crc32, lemma_crc32_extend_concat, lemma_crc32_extend_empty};
use crate::crypto::ZipCrypto;
use crate::decompress::{
    available, crc32_update, fill_input, payload_keys, payload_plain, BUF_SIZE,
};
use crate::error::{is_io_failure, AlzError, AlzResult};
use crate::multivolume::{after_short_read, window, MultiVolumeReader};
use crate::text::{decimal_digits, padded_digits, push_decimal, push_padded};
use vstd::prelude::*;
use vstd::slice::slice_subrange;
use vstd::string::StringExecFns;

verus! {

/// Marker that opens a block in an ALZ payload: `DLZ\x01`.
pub const ALZ_BLOCK_MAGIC: u32 = 0x444c5a01;

/// Marker that ends an ALZ payload: `DLZ\x02`.
pub const ALZ_EOS_MAGIC: u32 = 0x444c5a02;

/// The longest payload whose bit positions fit the reader's counters.
pub const MAX_BIT_INPUT: usize = 0x2000_0000;

/// The longest payload that is accepted: 512 MiB. The payload is held in
/// memory as a whole while it is rewritten.
pub const MAX_BZ2_COMPRESSED: u64 = 0x2000_0000;

/// Bit `k` of `v`, counted from the least significant bit.
pub open spec fn bit_of(v: u32, k: int) -> bool {
    (v >> (k as u32)) & 1 == 1
}

/// Bit `k` of a byte, counted from the most significant bit.
pub open spec fn byte_bit(b: u8, k: int) -> bool {
    bit_of(b as u32, 7 - k)
}

/// Bit `j` of a byte string, counted from the most significant bit of the
/// first byte.
pub open spec fn bit_at(bytes: Seq<u8>, j: int) -> bool {
    byte_bit(bytes[j / 8], j % 8)
}

/// The bits of a byte string, most significant bit of each byte first.
pub open spec fn bits_of(bytes: Seq<u8>) -> Seq<bool> {
    Seq::new(bytes.len() * 8, |j: int| bit_at(bytes, j))
}

/// The low `n` bits of `v`, most significant of them first.
pub open spec fn value_bits(v: u32, n: int) -> Seq<bool> {
    Seq::new(n as nat, |i: int| bit_of(v, n - 1 - i))
}

/// `n` zero bits.
pub open spec fn zero_bits(n: int) -> Seq<bool> {
    Seq::new(n as nat, |i: int| false)
}

/// The number that a bit string spells, most significant bit first.
pub open spec fn bits_value(bits: Seq<bool>) -> nat
    decreases bits.len(),
{
    if bits.len() == 0 {
        0
    } else {
        2 * bits_value(bits.drop_last()) + if bits.last() {
            1nat
        } else {
            0nat
        }
    }
}

/// A bit string extended with zero bits to a whole number of bytes.
pub open spec fn byte_padded(bits: Seq<bool>) -> Seq<bool> {
    bits + zero_bits((8 - bits.len() % 8) % 8)
}

/// Two to the power `n`.
pub open spec fn two_pow(n: nat) -> nat
    decreases n,
{
    if n == 0 {
        1
    } else {
        2 * two_pow((n - 1) as nat)
    }
}

/// Powers of two grow with the exponent.
proof fn lemma_two_pow_monotonic(a: nat, b: nat)
    requires
        a <= b,
    ensures
        two_pow(a) <= two_pow(b),
    decreases b,
{
    if a < b {
        lemma_two_pow_monotonic(a, (b - 1) as nat);
    }
}

/// The two powers of two that bound a 32-bit number.
proof fn lemma_two_pow_32()
    ensures
        two_pow(31) == 0x8000_0000,
        two_pow(32) == 0x1_0000_0000,
{
    reveal_with_fuel(two_pow, 33);
}

/// A bit string of length `n` spells a number below two to the `n`.
pub proof fn lemma_bits_value_bound(bits: Seq<bool>)
    ensures
        bits_value(bits) < two_pow(bits.len()),
    decreases bits.len(),
{
    if bits.len() > 0 {
        lemma_bits_value_bound(bits.drop_last());
    }
}

/// Shifting a bit in from the right doubles the number and adds the bit.
proof fn lemma_shift_in(v: u32, bit: u32)
    requires
        v < 0x8000_0000,
        bit <= 1,
    ensures
        (v << 1) | bit == 2 * v + bit,
{
    assert((v << 1) | bit == 2 * v + bit) by (bit_vector)
        requires
            v < 0x8000_0000,
            bit <= 1,
    ;
}

/// A single bit is zero or one.
proof fn lemma_low_bit(b: u32, k: u32)
    requires
        k < 32,
    ensures
        (b >> k) & 1 <= 1,
        bit_of(b, k as int) <==> (b >> k) & 1 == 1,
{
    assert((b >> k) & 1 <= 1) by (bit_vector);
}

/// Whether an error reports that the payload ended too early.
pub open spec fn is_unexpected_end(e: AlzError) -> bool {
    e matches AlzError::Bzip2Failed(m) && m@ == "unexpected end of bzip2 data"@
}

/// MSB-first bit reader over a byte string.
pub struct BitReader<'a> {
    data: &'a [u8],
    byte_pos: usize,
    bit_pos: u8,
}

impl<'a> BitReader<'a> {
    /// The bits that the reader walks.
    pub closed spec fn bits(&self) -> Seq<bool> {
        bits_of(self.data@)
    }

    /// The index of the next bit to read.
    pub closed spec fn position(&self) -> int {
        self.byte_pos * 8 + self.bit_pos
    }

    /// The reader's invariant: the cursor lies inside the input or at its
    /// end.
    pub closed spec fn wf(&self) -> bool {
        &&& self.data@.len() <= MAX_BIT_INPUT
        &&& self.bit_pos < 8
        &&& self.byte_pos <= self.data@.len()
        &&& self.byte_pos == self.data@.len() ==> self.bit_pos == 0
    }

    /// A reader at the first bit of `data`.
    pub fn new(data: &'a [u8]) -> (r: Self)
        requires
            data@.len() <= MAX_BIT_INPUT,
        ensures
            r.wf(),
            r.bits() == bits_of(data@),
            r.position() == 0,
    {
        Self { data, byte_pos: 0, bit_pos: 0 }
    }

    /// How many bits are left to read.
    pub fn bits_remaining(&self) -> (n: u64)
        requires
            self.wf(),
        ensures
            n == self.bits().len() - self.position(),
            0 <= self.position() <= self.bits().len(),
    {
        if self.byte_pos >= self.data.len() {
            return 0;
        }
        (self.data.len() - self.byte_pos) as u64 * 8 - self.bit_pos as u64
    }

    /// Reads one bit.
    pub fn read_bit(&mut self) -> (bit: u8)
        requires
            old(self).wf(),
            old(self).position() < old(self).bits().len(),
        ensures
            final(self).wf(),
            final(self).bits() == old(self).bits(),
            final(self).position() == old(self).position() + 1,
            bit <= 1,
            bit == 1 <==> old(self).bits()[old(self).position()],
    {
        let shift: u32 = 7 - self.bit_pos as u32;
        let byte: u32 = self.data[self.byte_pos] as u32;
        proof {
            lemma_low_bit(byte, shift);
        }
        let bit = ((byte >> shift) & 1) as u8;
        self.bit_pos += 1;
        if self.bit_pos == 8 {
            self.bit_pos = 0;
            self.byte_pos += 1;
        }
        bit
    }

    /// Reads `n` bits as a number, most significant bit first. Fails, and
    /// reads nothing, where more than 32 bits are asked for or fewer than
    /// `n` are left.
    pub fn read_bits(&mut self, n: usize) -> (r: AlzResult<u32>)
        requires
            old(self).wf(),
        ensures
            final(self).wf(),
            final(self).bits() == old(self).bits(),
            r is Ok <==> n <= 32 && old(self).position() + n <= old(self).bits().len(),
            r matches Ok(v) ==> final(self).position() == old(self).position() + n && v
                == bits_value(
                old(self).bits().subrange(old(self).position(), old(self).position() + n),
            ),
            r matches Err(e) ==> is_unexpected_end(e) && final(self).position() == old(
                self,
            ).position(),
    {
        if n > 32 || self.bits_remaining() < n as u64 {
            return Err(AlzError::Bzip2Failed("unexpected end of bzip2 data".to_owned()));
        }
        let ghost bits = self.bits();
        let ghost start = self.position();
        let mut val: u32 = 0;
        let mut i: usize = 0;
        while i < n
            invariant
                self.wf(),
                self.bits() == bits,
                n <= 32,
                i <= n,
                0 <= start,
                start + n <= bits.len(),
                self.position() == start + i,
                val == bits_value(bits.subrange(start, start + i)),
            decreases n - i,
        {
            proof {
                let sofar = bits.subrange(start, start + i);
                lemma_bits_value_bound(sofar);
                lemma_two_pow_monotonic(i as nat, 31);
                lemma_two_pow_32();
                assert(bits.subrange(start, start + i + 1).drop_last() =~= sofar);
            }
            let bit = self.read_bit();
            proof {
                lemma_shift_in(val, bit as u32);
            }
            val = (val << 1) | bit as u32;
            i += 1;
        }
        Ok(val)
    }

    /// The next `n` bits as a number, without reading them.
    pub fn peek_bits(&self, n: usize) -> (r: AlzResult<u32>)
        requires
            self.wf(),
        ensures
            r is Ok <==> n <= 32 && self.position() + n <= self.bits().len(),
            r matches Ok(v) ==> v == bits_value(
                self.bits().subrange(self.position(), self.position() + n),
            ),
            r matches Err(e) ==> is_unexpected_end(e),
    {
        let mut ahead = BitReader { data: self.data, byte_pos: self.byte_pos, bit_pos: self.bit_pos };
        ahead.read_bits(n)
    }
}

/// Setting bit `at` of a byte changes that bit and no other.
proof fn lemma_or_bit(c: u8, bit: u8, at: u8, k: u8)
    requires
        bit <= 1,
        at < 8,
        k < 8,
    ensures
        (((c | (bit << (7 - at) as u8)) as u32) >> (7 - k) as u32) & 1 == if k == at {
            (((c as u32) >> (7 - k) as u32) & 1) | bit as u32
        } else {
            ((c as u32) >> (7 - k) as u32) & 1
        },
{
    assert((((c | (bit << (7 - at) as u8)) as u32) >> (7 - k) as u32) & 1 == if k == at {
        (((c as u32) >> (7 - k) as u32) & 1) | bit as u32
    } else {
        ((c as u32) >> (7 - k) as u32) & 1
    }) by (bit_vector)
        requires
            bit <= 1,
            at < 8,
            k < 8,
    ;
}

/// A bit joined to zero is the bit.
proof fn lemma_bit_or_zero(bit: u32)
    requires
        bit <= 1,
    ensures
        0u32 | bit == bit,
        (0u32 >> 0u32) & 1 == 0,
{
    assert(0u32 | bit == bit) by (bit_vector);
    assert((0u32 >> 0u32) & 1 == 0) by (bit_vector);
}

/// No bit of zero is set.
proof fn lemma_zero_has_no_bits(k: u32)
    requires
        k < 32,
    ensures
        (0u32 >> k) & 1 == 0,
{
    assert((0u32 >> k) & 1 == 0) by (bit_vector);
}

/// The bits of a byte string extended by one byte are the old bits followed
/// by the eight bits of that byte.
pub proof fn lemma_bits_of_push(bytes: Seq<u8>, b: u8)
    ensures
        bits_of(bytes.push(b)) == bits_of(bytes) + value_bits(b as u32, 8),
{
    let left = bits_of(bytes.push(b));
    let right = bits_of(bytes) + value_bits(b as u32, 8);
    assert(left.len() == right.len());
    assert forall|j: int| 0 <= j < left.len() implies left[j] == right[j] by {
        if j < bytes.len() * 8 {
            assert(bytes.push(b)[j / 8] == bytes[j / 8]);
        } else {
            assert(j / 8 == bytes.len());
            assert(j - bytes.len() * 8 == j % 8);
        }
    }
    assert(left =~= right);
}

/// The eight bits of a byte, as `value_bits` lists them, are its bits from
/// the most significant one down.
proof fn lemma_byte_bits(b: u8)
    ensures
        forall|k: int| 0 <= k < 8 ==> #[trigger] value_bits(b as u32, 8)[k] == byte_bit(b, k),
{
}

/// MSB-first bit writer that collects whole bytes.
pub struct BitWriter {
    data: Vec<u8>,
    current: u8,
    bit_pos: u8,
}

impl BitWriter {
    /// The bits written so far.
    pub closed spec fn bits(&self) -> Seq<bool> {
        bits_of(self.data@) + value_bits(self.current as u32, 8).subrange(0, self.bit_pos as int)
    }

    /// The bytes completed so far.
    pub closed spec fn bytes(&self) -> Seq<u8> {
        self.data@
    }

    /// How many bits of the next byte are written.
    pub closed spec fn pending(&self) -> int {
        self.bit_pos as int
    }

    /// The writer's invariant: the bits of the byte in progress that are
    /// not written yet are zero.
    pub closed spec fn wf(&self) -> bool {
        &&& self.bit_pos < 8
        &&& forall|k: int| self.bit_pos <= k < 8 ==> !#[trigger] byte_bit(self.current, k)
    }

    /// A writer that has written nothing.
    pub fn new() -> (w: Self)
        ensures
            w.wf(),
            w.bits() == Seq::<bool>::empty(),
    {
        let w = Self { data: Vec::new(), current: 0, bit_pos: 0 };
        proof {
            assert forall|k: int| 0 <= k < 8 implies !#[trigger] byte_bit(0u8, k) by {
                lemma_zero_has_no_bits((7 - k) as u32);
            }
            assert(w.bits() =~= Seq::<bool>::empty());
        }
        w
    }

    /// Appends one bit.
    fn write_bit(&mut self, bit: u8)
        requires
            old(self).wf(),
            bit <= 1,
        ensures
            final(self).wf(),
            final(self).bits() == old(self).bits().push(bit == 1),
    {
        let ghost before = self.bits();
        let ghost c0 = self.current;
        let ghost at = self.bit_pos;
        let updated: u8 = self.current | (bit << (7 - self.bit_pos));
        proof {
            assert forall|k: int| 0 <= k < 8 implies #[trigger] byte_bit(updated, k) == (if k
                == at {
                bit == 1
            } else {
                byte_bit(c0, k)
            }) by {
                lemma_or_bit(c0, bit, at, k as u8);
                lemma_bit_or_zero(bit as u32);
                assert(!byte_bit(c0, at as int));
                lemma_low_bit(c0 as u32, (7 - k) as u32);
            }
            lemma_byte_bits(updated);
            lemma_byte_bits(c0);
            assert(value_bits(updated as u32, 8).subrange(0, at + 1) =~= value_bits(
                c0 as u32,
                8,
            ).subrange(0, at as int).push(bit == 1));
        }
        self.current = updated;
        self.bit_pos += 1;
        if self.bit_pos == 8 {
            proof {
                lemma_bits_of_push(self.data@, updated);
                assert(value_bits(updated as u32, 8).subrange(0, 8) =~= value_bits(
                    updated as u32,
                    8,
                ));
            }
            self.data.push(self.current);
            self.current = 0;
            self.bit_pos = 0;
            proof {
                assert forall|k: int| 0 <= k < 8 implies !#[trigger] byte_bit(0u8, k) by {
                    lemma_zero_has_no_bits((7 - k) as u32);
                }
                assert(self.bits() =~= before.push(bit == 1));
            }
        } else {
            proof {
                assert(self.bits() =~= before.push(bit == 1));
            }
        }
    }

    /// Appends the low `n` bits of `val`, most significant of them first.
    pub fn write_bits(&mut self, val: u32, n: usize)
        requires
            old(self).wf(),
            n <= 32,
        ensures
            final(self).wf(),
            final(self).bits() == old(self).bits() + value_bits(val, n as int),
    {
        let ghost before = self.bits();
        let mut i: usize = n;
        while i > 0
            invariant
                self.wf(),
                i <= n,
                n <= 32,
                self.bits() == before + value_bits(val, n as int).subrange(0, n - i),
            decreases i,
        {
            i -= 1;
            proof {
                lemma_low_bit(val, i as u32);
            }
            let bit = ((val >> i as u32) & 1) as u8;
            let ghost sofar = self.bits();
            self.write_bit(bit);
            proof {
                assert(value_bits(val, n as int).subrange(0, n - i) =~= value_bits(
                    val,
                    n as int,
                ).subrange(0, n - i - 1).push(bit == 1));
                assert(self.bits() =~= before + value_bits(val, n as int).subrange(0, n - i));
            }
        }
        proof {
            assert(value_bits(val, n as int).subrange(0, n as int) =~= value_bits(val, n as int));
        }
    }

    /// Appends the bits of `bytes`.
    pub fn write_bytes(&mut self, bytes: &[u8])
        requires
            old(self).wf(),
        ensures
            final(self).wf(),
            final(self).bits() == old(self).bits() + bits_of(bytes@),
    {
        let ghost before = self.bits();
        let n = bytes.len();
        let mut i: usize = 0;
        proof {
            assert(bits_of(bytes@.subrange(0, 0)) =~= Seq::<bool>::empty());
            assert(before + Seq::<bool>::empty() =~= before);
        }
        while i < n
            invariant
                self.wf(),
                i <= n,
                n == bytes@.len(),
                self.bits() == before + bits_of(bytes@.subrange(0, i as int)),
            decreases n - i,
        {
            proof {
                lemma_bits_of_push(bytes@.subrange(0, i as int), bytes@[i as int]);
                assert(bytes@.subrange(0, i as int).push(bytes@[i as int]) =~= bytes@.subrange(
                    0,
                    i + 1,
                ));
            }
            self.write_bits(bytes[i] as u32, 8);
            proof {
                assert(self.bits() =~= before + bits_of(bytes@.subrange(0, i + 1)));
            }
            i += 1;
        }
        proof {
            assert(bytes@.subrange(0, n as int) =~= bytes@);
        }
    }

    /// Completes the byte in progress with zero bits.
    pub fn flush(&mut self)
        requires
            old(self).wf(),
        ensures
            final(self).wf(),
            final(self).pending() == 0,
            final(self).bits() == byte_padded(old(self).bits()),
            bits_of(final(self).bytes()) == final(self).bits(),
    {
        let ghost before = self.bits();
        proof {
            assert(bits_of(self.data@).len() % 8 == 0);
        }
        if self.bit_pos > 0 {
            proof {
                lemma_bits_of_push(self.data@, self.current);
                let whole = value_bits(self.current as u32, 8);
                lemma_byte_bits(self.current);
                assert(whole =~= whole.subrange(0, self.bit_pos as int) + zero_bits(
                    8 - self.bit_pos,
                ));
            }
            self.data.push(self.current);
            self.current = 0;
            self.bit_pos = 0;
            proof {
                assert forall|k: int| 0 <= k < 8 implies !#[trigger] byte_bit(0u8, k) by {
                    lemma_zero_has_no_bits((7 - k) as u32);
                }
                assert(self.bits() =~= byte_padded(before));
                assert(bits_of(self.data@) =~= self.bits());
            }
        } else {
            proof {
                assert(self.bits() =~= byte_padded(before));
                assert(bits_of(self.data@) =~= self.bits());
            }
        }
    }

    /// The bytes completed so far.
    pub fn into_bytes(self) -> (v: Vec<u8>)
        ensures
            v@ == self.bytes(),
    {
        self.data
    }
}

/// Whether the 32 bits at `pos` spell `marker`.
pub open spec fn marker_at(bits: Seq<bool>, pos: int, marker: u32) -> bool {
    0 <= pos && pos + 32 <= bits.len() && bits_value(bits.subrange(pos, pos + 32)) == marker
}

/// The bits of the standard stream header, `BZh9`.
pub open spec fn stream_header_bits() -> Seq<bool> {
    bits_of(seq![0x42u8, 0x5a, 0x68, 0x39])
}

/// What a standard block starts with: the 48-bit block magic, a 32-bit
/// checksum that is left zero, and the randomisation bit, zero.
pub open spec fn block_header_bits() -> Seq<bool> {
    bits_of(seq![0x31u8, 0x41, 0x59, 0x26, 0x53, 0x59]) + zero_bits(32) + zero_bits(1)
}

/// What a standard stream ends with: the 48-bit end magic and a 32-bit
/// stream checksum that is left zero.
pub open spec fn end_trailer_bits() -> Seq<bool> {
    bits_of(seq![0x17u8, 0x72, 0x45, 0x38, 0x50, 0x90]) + zero_bits(32)
}

/// The number of bits of block body that start at `from`: up to the first
/// position at which a block or end marker stands, or up to the end of the
/// input where fewer than 32 bits are left before one is found.
pub open spec fn body_len(bits: Seq<bool>, from: int) -> nat
    decreases
            (if from < bits.len() {
                bits.len() - from
            } else {
                0
            }),
{
    if from < 0 || from + 32 > bits.len() {
        (bits.len() - from) as nat
    } else if marker_at(bits, from, ALZ_BLOCK_MAGIC) || marker_at(bits, from, ALZ_EOS_MAGIC) {
        0
    } else {
        1 + body_len(bits, from + 1)
    }
}

/// Why a payload cannot be rewritten.
pub enum ReencodeFailure {
    /// The payload ends where a marker is due.
    UnexpectedEnd,
    /// These 32 bits stand where a marker is due.
    BadHeader(u32),
}

/// The standard stream for the ALZ payload `bits` from the marker at `pos`
/// on, given the output `out` for what came before, or the reason why
/// there is none.
pub open spec fn reencode_from(bits: Seq<bool>, pos: int, out: Seq<bool>) -> Result<
    Seq<bool>,
    ReencodeFailure,
>
    decreases
            (if pos < bits.len() {
                bits.len() - pos
            } else {
                0
            }),
{
    if pos < 0 || pos + 32 > bits.len() {
        Err(ReencodeFailure::UnexpectedEnd)
    } else if marker_at(bits, pos, ALZ_EOS_MAGIC) {
        Ok(out + end_trailer_bits())
    } else if marker_at(bits, pos, ALZ_BLOCK_MAGIC) {
        let end = pos + 32 + body_len(bits, pos + 32);
        reencode_from(bits, end, out + block_header_bits() + bits.subrange(pos + 32, end))
    } else {
        Err(ReencodeFailure::BadHeader(bits_value(bits.subrange(pos, pos + 32)) as u32))
    }
}

/// The message that reports why a payload cannot be rewritten.
pub open spec fn reencode_failure_text(f: ReencodeFailure) -> Seq<char> {
    match f {
        ReencodeFailure::UnexpectedEnd => "unexpected end of bzip2 data"@,
        ReencodeFailure::BadHeader(found) => bad_block_header_text(found),
    }
}

/// The standard BZIP2 stream for an ALZ payload, as bits.
pub open spec fn reencode(bits: Seq<bool>) -> Result<Seq<bool>, ReencodeFailure> {
    reencode_from(bits, 0, stream_header_bits())
}

/// A block body never runs past the end of the input.
pub proof fn lemma_body_len_bound(bits: Seq<bool>, from: int)
    requires
        0 <= from <= bits.len(),
    ensures
        from + body_len(bits, from) <= bits.len(),
    decreases bits.len() - from,
{
    if from + 32 <= bits.len() && !(marker_at(bits, from, ALZ_BLOCK_MAGIC) || marker_at(
        bits,
        from,
        ALZ_EOS_MAGIC,
    )) {
        lemma_body_len_bound(bits, from + 1);
    }
}

/// The bits of zero are zero bits.
proof fn lemma_zero_value_bits(n: int)
    requires
        0 <= n <= 32,
    ensures
        value_bits(0, n) == zero_bits(n),
{
    assert forall|i: int| 0 <= i < n implies !(#[trigger] value_bits(0, n)[i]) by {
        lemma_zero_has_no_bits((n - 1 - i) as u32);
    }
    assert(value_bits(0, n) =~= zero_bits(n));
}

/// Copies the bits of one block body: everything up to the next marker, or
/// up to the end of the input where no marker follows.
fn copy_block_body(reader: &mut BitReader, writer: &mut BitWriter) -> (r: AlzResult<()>)
    requires
        old(reader).wf(),
        old(writer).wf(),
    ensures
        final(reader).wf(),
        final(writer).wf(),
        final(reader).bits() == old(reader).bits(),
        r is Ok,
        final(reader).position() == old(reader).position() + body_len(
            old(reader).bits(),
            old(reader).position(),
        ),
        final(writer).bits() == old(writer).bits() + old(reader).bits().subrange(
            old(reader).position(),
            final(reader).position(),
        ),
{
    let ghost bits = reader.bits();
    let ghost start = reader.position();
    let ghost written = writer.bits();
    let remaining = reader.bits_remaining();
    let mut done = false;
    proof {
        assert(written + bits.subrange(start, start) =~= written);
    }
    while !done
        invariant
            reader.wf(),
            writer.wf(),
            reader.bits() == bits,
            0 <= start <= reader.position() <= bits.len(),
            reader.position() + body_len(bits, reader.position()) == start + body_len(bits, start),
            done ==> body_len(bits, reader.position()) == 0,
            writer.bits() == written + bits.subrange(start, reader.position()),
        decreases
                bits.len() - reader.position() + if done {
                    0int
                } else {
                    1int
                },
    {
        if reader.bits_remaining() < 32 {
            while reader.bits_remaining() > 0
                invariant
                    reader.wf(),
                    writer.wf(),
                    reader.bits() == bits,
                    0 <= start <= reader.position() <= bits.len(),
                    reader.position() + 32 > bits.len(),
                    reader.position() + body_len(bits, reader.position()) == start + body_len(
                        bits,
                        start,
                    ),
                    writer.bits() == written + bits.subrange(start, reader.position()),
                decreases bits.len() - reader.position(),
            {
                let ghost pos = reader.position();
                let bit = reader.read_bit();
                writer.write_bit(bit);
                proof {
                    assert(bits.subrange(start, pos + 1) =~= bits.subrange(start, pos).push(
                        bits[pos],
                    ));
                    assert(writer.bits() =~= written + bits.subrange(start, pos + 1));
                }
            }
            done = true;
        } else {
            let peek = match reader.peek_bits(32) {
                Ok(peek) => peek,
                Err(e) => {
                    return Err(e);
                },
            };
            if peek == ALZ_BLOCK_MAGIC || peek == ALZ_EOS_MAGIC {
                done = true;
            } else {
                let ghost pos = reader.position();
                let bit = reader.read_bit();
                writer.write_bit(bit);
                proof {
                    assert(bits.subrange(start, pos + 1) =~= bits.subrange(start, pos).push(
                        bits[pos],
                    ));
                    assert(writer.bits() =~= written + bits.subrange(start, pos + 1));
                }
            }
        }
    }
    Ok(())
}

/// The message for a payload that has `found` where a block marker is due:
/// the four bytes of `found` in hexadecimal.
pub open spec fn bad_block_header_text(found: u32) -> Seq<char> {
    "expected ALZ block header, got ["@ + padded_digits((found >> 24) as nat, 16, 2) + ", "@
        + padded_digits(((found >> 16) & 0xff) as nat, 16, 2) + ", "@ + padded_digits(
        ((found >> 8) & 0xff) as nat,
        16,
        2,
    ) + ", "@ + padded_digits((found & 0xff) as nat, 16, 2) + "]"@
}

/// Builds the message for a payload that has `found` where a block marker
/// is due.
fn bad_block_header(found: u32) -> (s: String)
    ensures
        s@ == bad_block_header_text(found),
{
    let mut s = String::new();
    s.append("expected ALZ block header, got [");
    push_padded(&mut s, (found >> 24) as u64, 16, 2);
    s.append(", ");
    push_padded(&mut s, ((found >> 16) & 0xff) as u64, 16, 2);
    s.append(", ");
    push_padded(&mut s, ((found >> 8) & 0xff) as u64, 16, 2);
    s.append(", ");
    push_padded(&mut s, (found & 0xff) as u64, 16, 2);
    s.append("]");
    proof {
        assert(s@ =~= bad_block_header_text(found));
    }
    s
}

/// The message for a payload of `size` bytes, which is more than is
/// accepted.
pub open spec fn size_limit_text(size: u64) -> Seq<char> {
    "compressed size "@ + decimal_digits(size as nat) + " exceeds limit"@
}

/// Builds the message for a payload that is too long.
fn size_limit_message(size: u64) -> (s: String)
    ensures
        s@ == size_limit_text(size),
{
    let mut s = String::new();
    s.append("compressed size ");
    push_decimal(&mut s, size);
    s.append(" exceeds limit");
    proof {
        assert(s@ =~= size_limit_text(size));
    }
    s
}

/// Rewrites an ALZ BZIP2 payload into a standard BZIP2 stream.
///
/// The output starts with `BZh9`. Each `DLZ\x01` marker becomes the standard
/// block magic followed by a zero checksum and a zero randomisation bit,
/// after which the block body is copied bit for bit. The `DLZ\x02` marker
/// becomes the standard end magic followed by a zero checksum, and ends the
/// output, which is then padded with zero bits to a whole byte. A payload
/// that lacks a marker where one is due, or ends without `DLZ\x02`, is
/// refused.
pub fn alz_to_bzip2(alz_data: &[u8]) -> (r: AlzResult<Vec<u8>>)
    requires
        alz_data@.len() <= MAX_BIT_INPUT,
    ensures
        r is Ok <==> reencode(bits_of(alz_data@)) is Ok,
        r matches Ok(v) ==> bits_of(v@) == byte_padded(reencode(bits_of(alz_data@))->Ok_0),
        r matches Err(e) ==> e matches AlzError::Bzip2Failed(m) && m@ == reencode_failure_text(
            reencode(bits_of(alz_data@))->Err_0,
        ),
{
    let ghost bits = bits_of(alz_data@);
    let ghost goal = reencode(bits);
    let mut reader = BitReader::new(alz_data);
    let mut writer = BitWriter::new();
    let stream_header: [u8; 4] = [0x42, 0x5a, 0x68, 0x39];
    let block_magic: [u8; 6] = [0x31, 0x41, 0x59, 0x26, 0x53, 0x59];
    let eos_magic: [u8; 6] = [0x17, 0x72, 0x45, 0x38, 0x50, 0x90];
    writer.write_bytes(stream_header.as_slice());
    proof {
        assert(stream_header@ =~= seq![0x42u8, 0x5a, 0x68, 0x39]);
        assert(block_magic@ =~= seq![0x31u8, 0x41, 0x59, 0x26, 0x53, 0x59]);
        assert(eos_magic@ =~= seq![0x17u8, 0x72, 0x45, 0x38, 0x50, 0x90]);
        assert(Seq::<bool>::empty() + stream_header_bits() =~= stream_header_bits());
        lemma_zero_value_bits(32);
        lemma_zero_value_bits(1);
    }
    loop
        invariant
            reader.wf(),
            writer.wf(),
            reader.bits() == bits,
            0 <= reader.position() <= bits.len(),
            goal == reencode_from(bits, reader.position(), writer.bits()),
            block_magic@ == seq![0x31u8, 0x41, 0x59, 0x26, 0x53, 0x59],
            eos_magic@ == seq![0x17u8, 0x72, 0x45, 0x38, 0x50, 0x90],
            value_bits(0, 32) == zero_bits(32),
            value_bits(0, 1) == zero_bits(1),
            goal == reencode(bits_of(alz_data@)),
        decreases bits.len() - reader.position(),
    {
        let ghost pos = reader.position();
        let ghost out = writer.bits();
        let hdr = match reader.read_bits(32) {
            Ok(hdr) => hdr,
            Err(e) => {
                return Err(e);
            },
        };
        if hdr == ALZ_EOS_MAGIC {
            writer.write_bytes(eos_magic.as_slice());
            writer.write_bits(0, 32);
            proof {
                assert(writer.bits() =~= out + end_trailer_bits());
            }
            writer.flush();
            return Ok(writer.into_bytes());
        }
        if hdr != ALZ_BLOCK_MAGIC {
            return Err(AlzError::Bzip2Failed(bad_block_header(hdr)));
        }
        writer.write_bytes(block_magic.as_slice());
        writer.write_bits(0, 32);
        writer.write_bits(0, 1);
        proof {
            assert(writer.bits() =~= out + block_header_bits());
            lemma_body_len_bound(bits, pos + 32);
        }
        match copy_block_body(&mut reader, &mut writer) {
            Ok(()) => {},
            Err(e) => {
                return Err(e);
            },
        }
    }
}

/// `bzip2::Decompress`, a decoder in progress. Nothing of its state is
/// visible but what is named below: its two counters and the calls that
/// were made on it.
#[verifier::external_type_specification]
#[verifier::external_body]
pub struct ExBzDecoder(::bzip2::Decompress);

/// `bzip2::Error`, the reason for which the decoder refused its input.
#[verifier::external_type_specification]
#[verifier::external_body]
pub struct ExBzError(::bzip2::Error);

/// The number of input bytes that a decoder has consumed since it was made,
/// as `bzip2::Decompress::total_in` reports it.
pub uninterp spec fn decoder_total_in(decoder: ::bzip2::Decompress) -> nat;

/// The number of output bytes that a decoder has produced since it was
/// made, as `bzip2::Decompress::total_out` reports it.
pub uninterp spec fn decoder_total_out(decoder: ::bzip2::Decompress) -> nat;

/// The calls of `decompress` that were made on a decoder since it was made,
/// in order: of each the input that was offered and the room that the
/// output buffer had.
pub uninterp spec fn decoder_calls(decoder: ::bzip2::Decompress) -> Seq<(Seq<u8>, nat)>;

/// What a call of `decompress` does.
pub struct DecodeOutcome {
    /// The status reported; `Failed` where the decoder refused the input.
    pub status: DecodeStatus,
    /// How many of the bytes offered were consumed.
    pub consumed: nat,
    /// The bytes written to the front of the output buffer.
    pub written: Seq<u8>,
}

/// What the last of `calls` does, when `calls` are the calls of
/// `bzip2::Decompress::decompress` that were made on a decoder since it was
/// made with the faster algorithm. The decoder reads nothing but its own
/// state and the input it is offered.
pub uninterp spec fn decode_call(calls: Seq<(Seq<u8>, nat)>) -> DecodeOutcome;

/// `bzip2::Decompress::new` with the faster algorithm chosen: a fresh
/// decoder, on which no call was made and which has consumed and produced
/// nothing.
#[verifier::external_body]
fn new_decoder() -> (decoder: ::bzip2::Decompress)
    ensures
        decoder_total_in(decoder) == 0,
        decoder_total_out(decoder) == 0,
        decoder_calls(decoder) == Seq::<(Seq<u8>, nat)>::empty(),
{
    ::bzip2::Decompress::new(false)
}

/// `bzip2::Decompress::total_in`: the count of input bytes consumed.
#[verifier::external_body]
fn consumed_total(decoder: &::bzip2::Decompress) -> (n: u64)
    ensures
        n == decoder_total_in(*decoder),
{
    decoder.total_in()
}

/// `bzip2::Decompress::total_out`: the count of output bytes produced.
#[verifier::external_body]
fn produced_total(decoder: &::bzip2::Decompress) -> (n: u64)
    ensures
        n == decoder_total_out(*decoder),
{
    decoder.total_out()
}

/// How one step of the decoder ended.
#[derive(Clone, Copy, Debug, PartialEq, Eq, Structural)]
pub enum DecodeStatus {
    /// The step went through; there may be more to do.
    Running,
    FlushOk,
    RunOk,
    FinishOk,
    /// The stream has ended.
    StreamEnd,
    /// The buffers were too small for the step.
    MemNeeded,
    /// The decoder refused the data.
    Failed,
}

/// `bzip2::Decompress::decompress`. The call joins the calls made on the
/// decoder, and does what `decode_call` names for them: it consumes a
/// prefix of `input`, writes to the front of `output`, and reports a status
/// or refuses. The two counters grow by what was consumed and written,
/// which is never more than the buffers hold, whether the input is refused
/// or not.
#[verifier::external_body]
fn decode_step(decoder: &mut ::bzip2::Decompress, input: &[u8], output: &mut [u8]) -> (r: Result<
    DecodeStatus,
    ::bzip2::Error,
>)
    ensures
        final(output)@.len() == old(output)@.len(),
        decoder_calls(*final(decoder)) == decoder_calls(*old(decoder)).push(
            (input@, old(output)@.len() as nat),
        ),
        decode_call(decoder_calls(*final(decoder))).consumed <= input@.len(),
        decode_call(decoder_calls(*final(decoder))).written.len() <= old(output)@.len(),
        decoder_total_in(*final(decoder)) == decoder_total_in(*old(decoder)) + decode_call(
            decoder_calls(*final(decoder)),
        ).consumed,
        decoder_total_out(*final(decoder)) == decoder_total_out(*old(decoder)) + decode_call(
            decoder_calls(*final(decoder)),
        ).written.len(),
        final(output)@.subrange(
            0,
            decode_call(decoder_calls(*final(decoder))).written.len() as int,
        ) == decode_call(decoder_calls(*final(decoder))).written,
        r is Err <==> decode_call(decoder_calls(*final(decoder))).status == DecodeStatus::Failed,
        r matches Ok(status) ==> status == decode_call(decoder_calls(*final(decoder))).status,
{
    match decoder.decompress(input, output) {
        Ok(::bzip2::Status::Ok) => Ok(DecodeStatus::Running),
        Ok(::bzip2::Status::FlushOk) => Ok(DecodeStatus::FlushOk),
        Ok(::bzip2::Status::RunOk) => Ok(DecodeStatus::RunOk),
        Ok(::bzip2::Status::FinishOk) => Ok(DecodeStatus::FinishOk),
        Ok(::bzip2::Status::StreamEnd) => Ok(DecodeStatus::StreamEnd),
        Ok(::bzip2::Status::MemNeeded) => Ok(DecodeStatus::MemNeeded),
        Err(e) => Err(e),
    }
}

/// What the decode loop does after a step.
#[derive(Clone, Copy, Debug, PartialEq, Eq, Structural)]
pub enum StepOutcome {
    /// Run another step.
    Continue,
    /// Stop and accept what was produced.
    Finish,
    /// Stop and report a failure.
    Fail,
}

/// What follows a step that ended with `status`, consumed `consumed` bytes
/// and produced `produced`, after which the decoder has produced
/// `total_out` bytes in all.
pub open spec fn step_outcome(
    status: DecodeStatus,
    consumed: int,
    produced: int,
    total_out: int,
) -> StepOutcome {
    if status == DecodeStatus::Failed {
        if total_out > 0 {
            StepOutcome::Finish
        } else {
            StepOutcome::Fail
        }
    } else if status == DecodeStatus::StreamEnd {
        StepOutcome::Finish
    } else if consumed == 0 && produced == 0 {
        StepOutcome::Finish
    } else {
        StepOutcome::Continue
    }
}

/// Decides what follows a decoder step. The rewritten stream carries zero
/// checksums, so the decoder refuses every block once it has decoded it: a
/// refusal after output was produced ends the decoding and is no failure. A
/// refusal before any output is one. A step that moves nothing ends the
/// decoding too.
pub fn after_decode_step(status: DecodeStatus, consumed: usize, produced: usize, total_out: u64) -> (o:
    StepOutcome)
    ensures
        o == step_outcome(status, consumed as int, produced as int, total_out as int),
{
    match status {
        DecodeStatus::Failed => {
            if total_out > 0 {
                StepOutcome::Finish
            } else {
                StepOutcome::Fail
            }
        },
        DecodeStatus::StreamEnd => StepOutcome::Finish,
        _ => {
            if consumed == 0 && produced == 0 {
                StepOutcome::Finish
            } else {
                StepOutcome::Continue
            }
        },
    }
}

/// The rest of the decoding of a standard stream: all that comes out, or
/// nothing where the decoder refuses the stream before anything has come
/// out. So far `calls` were made on the decoder, `fed` bytes of the stream
/// were consumed, and `out` has come out. A step offers the decoder the
/// rest of the stream, with room for `BUF_SIZE` bytes, and appends what the
/// decoder writes.
pub open spec fn bz_run(stream: Seq<u8>, calls: Seq<(Seq<u8>, nat)>, fed: nat, out: Seq<u8>) -> Option<
    Seq<u8>,
>
    decreases
            (if fed < stream.len() {
                stream.len() - fed
            } else {
                0
            }),
            (if out.len() < u64::MAX {
                u64::MAX - out.len()
            } else {
                0
            }),
{
    let now = calls.push((stream.subrange(fed as int, stream.len() as int), BUF_SIZE as nat));
    let o = decode_call(now);
    if fed + o.consumed > stream.len() || out.len() + o.written.len() > u64::MAX {
        // No decoder consumes more than it is offered or counts past what
        // its counter holds.
        Some(out)
    } else {
        match step_outcome(
            o.status,
            o.consumed as int,
            o.written.len() as int,
            (out.len() + o.written.len()) as int,
        ) {
            StepOutcome::Finish => Some(out + o.written),
            StepOutcome::Fail => None,
            StepOutcome::Continue => bz_run(stream, now, fed + o.consumed, out + o.written),
        }
    }
}

/// What the decoder puts out for a standard stream, or nothing where it
/// refuses the stream before anything has come out.
pub open spec fn bz_outcome(stream: Seq<u8>) -> Option<Seq<u8>> {
    bz_run(stream, Seq::empty(), 0, Seq::empty())
}

/// Decodes a standard BZIP2 stream, appends what comes out to `writer` and
/// returns the CRC-32 of what was appended.
fn decode_standard(bz_data: &Vec<u8>, writer: &mut Vec<u8>) -> (r: AlzResult<u32>)
    ensures
        match bz_outcome(bz_data@) {
            Some(out) => r == Ok::<u32, AlzError>(crc32(out)) && final(writer)@ == old(writer)@
                + out,
            None => is_decoder_refusal(r) && final(writer)@ == old(writer)@,
        },
{
    let ghost written = writer@;
    let ghost stream = bz_data@;
    let ghost goal = bz_outcome(stream);
    let ghost mut calls = Seq::<(Seq<u8>, nat)>::empty();
    let total = bz_data.len();
    let mut decoder = new_decoder();
    let mut input_pos: usize = 0;
    let mut crc: u32 = 0;
    let mut tmp: Vec<u8> = vec![0u8; BUF_SIZE];
    proof {
        lemma_crc32_extend_empty(0);
        assert(writer@.skip(written.len() as int) =~= Seq::<u8>::empty());
    }
    loop
        invariant
            written == old(writer)@,
            stream == bz_data@,
            total == bz_data@.len(),
            tmp@.len() == BUF_SIZE,
            input_pos <= total,
            input_pos == decoder_total_in(decoder),
            decoder_calls(decoder) == calls,
            written.is_prefix_of(writer@),
            writer@.len() == written.len() + decoder_total_out(decoder),
            crc == crc32(writer@.skip(written.len() as int)),
            goal == bz_outcome(stream),
            goal == bz_run(stream, calls, input_pos as nat, writer@.skip(written.len() as int)),
        decreases total - input_pos, u64::MAX - decoder_total_out(decoder),
    {
        let ghost out = writer@.skip(written.len() as int);
        let before_in = consumed_total(&decoder);
        let before_out = produced_total(&decoder);
        let result = decode_step(
            &mut decoder,
            slice_subrange(bz_data.as_slice(), input_pos, total),
            tmp.as_mut_slice(),
        );
        proof {
            calls = calls.push(
                (stream.subrange(input_pos as int, total as int), BUF_SIZE as nat),
            );
        }
        let ghost o = decode_call(calls);
        let consumed = (consumed_total(&decoder) - before_in) as usize;
        let produced = (produced_total(&decoder) - before_out) as usize;
        input_pos = input_pos + consumed;
        if produced > 0 {
            let piece = slice_subrange(tmp.as_slice(), 0, produced);
            crc = crc32_update(crc, piece);
            writer.extend_from_slice(piece);
            proof {
                lemma_crc32_extend_concat(0, out, piece@);
                assert(writer@.skip(written.len() as int) =~= out + piece@);
            }
        } else {
            proof {
                assert(o.written =~= Seq::<u8>::empty());
                assert(out + o.written =~= out);
            }
        }
        let status = match result {
            Ok(status) => status,
            Err(_) => DecodeStatus::Failed,
        };
        match after_decode_step(status, consumed, produced, produced_total(&decoder)) {
            StepOutcome::Continue => {},
            StepOutcome::Finish => {
                proof {
                    assert(writer@ =~= written + writer@.skip(written.len() as int));
                }
                return Ok(crc);
            },
            StepOutcome::Fail => {
                proof {
                    assert(writer@ =~= written);
                }
                return Err(AlzError::Bzip2Failed("bzip2 decompression failed".to_owned()));
            },
        }
    }
}

/// Whether a result reports that the decoder refused the rewritten stream
/// before anything came out.
pub open spec fn is_decoder_refusal(r: AlzResult<u32>) -> bool {
    r matches Err(AlzError::Bzip2Failed(m)) && m@ == "bzip2 decompression failed"@
}

/// The bytes whose bits are `bits`.
pub open spec fn packed(bits: Seq<bool>) -> Seq<u8> {
    choose|v: Seq<u8>| bits_of(v) == bits
}

/// A byte is told by its eight bits.
proof fn lemma_byte_from_bits(a: u8, b: u8)
    requires
        forall|k: int| 0 <= k < 8 ==> byte_bit(a, k) == byte_bit(b, k),
    ensures
        a == b,
{
    assert(byte_bit(a, 0) == byte_bit(b, 0));
    assert(byte_bit(a, 1) == byte_bit(b, 1));
    assert(byte_bit(a, 2) == byte_bit(b, 2));
    assert(byte_bit(a, 3) == byte_bit(b, 3));
    assert(byte_bit(a, 4) == byte_bit(b, 4));
    assert(byte_bit(a, 5) == byte_bit(b, 5));
    assert(byte_bit(a, 6) == byte_bit(b, 6));
    assert(byte_bit(a, 7) == byte_bit(b, 7));
    let x = a as u32;
    let y = b as u32;
    assert(x == y) by (bit_vector)
        requires
            x < 256,
            y < 256,
            ((x >> 7) & 1 == 1) == ((y >> 7) & 1 == 1),
            ((x >> 6) & 1 == 1) == ((y >> 6) & 1 == 1),
            ((x >> 5) & 1 == 1) == ((y >> 5) & 1 == 1),
            ((x >> 4) & 1 == 1) == ((y >> 4) & 1 == 1),
            ((x >> 3) & 1 == 1) == ((y >> 3) & 1 == 1),
            ((x >> 2) & 1 == 1) == ((y >> 2) & 1 == 1),
            ((x >> 1) & 1 == 1) == ((y >> 1) & 1 == 1),
            ((x >> 0) & 1 == 1) == ((y >> 0) & 1 == 1),
    ;
}

/// Bytes are told by their bits.
pub proof fn lemma_bits_tell_bytes(a: Seq<u8>, b: Seq<u8>)
    requires
        bits_of(a) == bits_of(b),
    ensures
        a == b,
{
    assert(bits_of(a).len() == a.len() * 8);
    assert(bits_of(b).len() == b.len() * 8);
    assert(a.len() == b.len());
    assert forall|i: int| 0 <= i < a.len() implies a[i] == b[i] by {
        assert forall|k: int| 0 <= k < 8 implies byte_bit(a[i], k) == byte_bit(b[i], k) by {
            let j = 8 * i + k;
            assert(j / 8 == i && j % 8 == k);
            assert(bits_of(a)[j] == bit_at(a, j));
            assert(bits_of(b)[j] == bit_at(b, j));
        }
        lemma_byte_from_bits(a[i], b[i]);
    }
    assert(a =~= b);
}

/// The standard stream that an ALZ payload is rewritten to.
pub open spec fn rewritten(plain: Seq<u8>) -> Seq<u8> {
    packed(byte_padded(reencode(bits_of(plain))->Ok_0))
}

/// Where the cursor stands after the extraction of an ALZ BZIP2 payload of
/// `size` bytes at `pos`: where it stood for a payload that is too long,
/// after the payload where the stream holds it whole, and otherwise where a
/// short read leaves it.
pub open spec fn bzip2_cursor(stream: Seq<u8>, pos: nat, size: nat) -> nat {
    if size > MAX_BZ2_COMPRESSED {
        pos
    } else if available(stream, pos, size) == size {
        pos + size
    } else {
        after_short_read(stream, pos)
    }
}

/// How the result of extracting an ALZ BZIP2 payload of `size` bytes, and
/// what was appended, follow from the payload. `plain` is the decrypted
/// payload and `held` tells whether the stream holds the payload whole.
///
/// A payload of more than 512 MiB is refused. One that the stream does not
/// hold whole is an `Io` failure. One that cannot be rewritten is refused
/// with the reason. Otherwise the rewritten stream is decoded: what comes
/// out is appended and the result is its CRC-32, or the payload is refused
/// where the decoder refuses the stream before anything has come out.
/// Whatever fails, nothing is appended.
pub open spec fn bzip2_result(
    plain: Seq<u8>,
    held: bool,
    size: nat,
    appended: Seq<u8>,
    r: AlzResult<u32>,
) -> bool {
    if size > MAX_BZ2_COMPRESSED {
        &&& r matches Err(AlzError::Bzip2Failed(m)) && m@ == size_limit_text(size as u64)
        &&& appended.len() == 0
    } else if !held {
        &&& r is Err && r->Err_0 is Io
        &&& appended.len() == 0
    } else if reencode(bits_of(plain)) is Err {
        &&& r matches Err(AlzError::Bzip2Failed(m)) && m@ == reencode_failure_text(
            reencode(bits_of(plain))->Err_0,
        )
        &&& appended.len() == 0
    } else {
        match bz_outcome(rewritten(plain)) {
            Some(out) => r == Ok::<u32, AlzError>(crc32(out)) && appended == out,
            None => is_decoder_refusal(r) && appended.len() == 0,
        }
    }
}

/// Reads, rewrites and decodes a payload of `size` bytes, through `cipher`
/// where `encrypted` is set.
pub(crate) fn decode_payload(
    reader: &mut MultiVolumeReader,
    writer: &mut Vec<u8>,
    size: u64,
    cipher: &mut ZipCrypto,
    encrypted: bool,
) -> (r: AlzResult<u32>)
    requires
        old(reader).wf(),
    ensures
        final(reader).wf(),
        final(reader).files() == old(reader).files(),
        old(writer)@.is_prefix_of(final(writer)@),
        bzip2_result(
            payload_plain(
                encrypted,
                old(cipher)@,
                window(old(reader).stream(), old(reader).position(), size as nat),
            ),
            available(old(reader).stream(), old(reader).position(), size as nat) == size,
            size as nat,
            final(writer)@.skip(old(writer)@.len() as int),
            r,
        ),
        final(reader).position() == bzip2_cursor(
            old(reader).stream(),
            old(reader).position(),
            size as nat,
        ),
        size > MAX_BZ2_COMPRESSED || is_io_failure(r) ==> final(cipher)@ == old(cipher)@,
        size <= MAX_BZ2_COMPRESSED && !is_io_failure(r) ==> final(cipher)@ == payload_keys(
            encrypted,
            old(cipher)@,
            window(old(reader).stream(), old(reader).position(), size as nat),
        ),
{
    let ghost before = writer@;
    proof {
        assert(writer@.skip(before.len() as int) =~= Seq::<u8>::empty());
    }
    if size > MAX_BZ2_COMPRESSED {
        return Err(AlzError::Bzip2Failed(size_limit_message(size)));
    }
    let ghost payload = window(reader.stream(), reader.position(), size as nat);
    let mut alz_data: Vec<u8> = vec![0u8; size as usize];
    if size > 0 {
        match fill_input(reader, &mut alz_data, size as usize, cipher, encrypted) {
            Ok(()) => {},
            Err(e) => {
                return Err(AlzError::from(e));
            },
        }
        proof {
            assert(alz_data@.subrange(0, size as int) =~= alz_data@);
        }
    } else {
        proof {
            assert(payload =~= Seq::<u8>::empty());
            assert(alz_data@ =~= Seq::<u8>::empty());
            if encrypted {
                assert(payload_plain(encrypted, cipher@, payload) =~= Seq::<u8>::empty());
            }
        }
    }
    let bz_data = match alz_to_bzip2(alz_data.as_slice()) {
        Ok(bz_data) => bz_data,
        Err(e) => {
            return Err(e);
        },
    };
    proof {
        let bits = byte_padded(reencode(bits_of(alz_data@))->Ok_0);
        assert(bits_of(bz_data@) == bits);
        lemma_bits_tell_bytes(bz_data@, packed(bits));
    }
    let r = decode_standard(&bz_data, writer);
    proof {
        match bz_outcome(bz_data@) {
            Some(out) => {
                assert(writer@.skip(before.len() as int) =~= out);
            },
            None => {},
        }
    }
    r
}

/// Extracts an ALZ BZIP2 payload of `compressed_size` bytes: reads it whole
/// from the reader's cursor on, decrypts it where a cipher is given,
/// rewrites it into a standard stream, decodes that, appends what comes out
/// to `writer` and returns the CRC-32 of what was appended.
///
/// A payload of more than 512 MiB is refused before anything is read. A
/// stream that ends before the payload does is an `Io` failure. A payload
/// that cannot be rewritten, or that the decoder refuses before anything
/// has come out, is a `Bzip2Failed` failure and leaves `writer` as it was.
/// Once output has come out, a refusal by the decoder only ends the
/// decoding: what came out stays, and the caller's CRC check tells whether
/// it is whole.
pub fn extract_bzip2(
    reader: &mut MultiVolumeReader,
    writer: &mut Vec<u8>,
    compressed_size: u64,
    crypto: Option<&mut ZipCrypto>,
) -> (r: AlzResult<u32>)
    requires
        old(reader).wf(),
    ensures
        final(reader).wf(),
        final(reader).files() == old(reader).files(),
        old(writer)@.is_prefix_of(final(writer)@),
        bzip2_result(
            match crypto {
                Some(c) => payload_plain(
                    true,
                    c@,
                    window(old(reader).stream(), old(reader).position(), compressed_size as nat),
                ),
                None => window(
                    old(reader).stream(),
                    old(reader).position(),
                    compressed_size as nat,
                ),
            },
            available(old(reader).stream(), old(reader).position(), compressed_size as nat)
                == compressed_size,
            compressed_size as nat,
            final(writer)@.skip(old(writer)@.len() as int),
            r,
        ),
        final(reader).position() == bzip2_cursor(
            old(reader).stream(),
            old(reader).position(),
            compressed_size as nat,
        ),
        crypto matches Some(c) ==> (compressed_size > MAX_BZ2_COMPRESSED || is_io_failure(r) ==> final(c)@ == c@),
        crypto matches Some(c) ==> (compressed_size <= MAX_BZ2_COMPRESSED && !(is_io_failure(r)) ==> final(c)@ == payload_keys(
            true,
            c@,
            window(old(reader).stream(), old(reader).position(), compressed_size as nat),
        )),
{
    match crypto {
        Some(c) => decode_payload(reader, writer, compressed_size, c, true),
        None => {
            let mut idle = ZipCrypto::new(&[]);
            decode_payload(reader, writer, compressed_size, &mut idle, false)
        },
    }
}

} // verus!
