//! PKWARE traditional encryption.
//!
//! The key state is three 32-bit words. Every plaintext byte that passes
//! through the cipher advances the state, so decryption is inherently
//! sequential: the keystream byte for position `i` depends on all plaintext
//! bytes before `i`.

use crate::crc::{
    crc32_step, lemma_crc32_step_injective_in_byte, lemma_crc32_step_injective_in_register,
    CRC32_TABLE,
};
use vstd::prelude::*;
use vstd::wrapping::u32_specs;

verus! {

/// Length of the encryption check header that precedes an encrypted payload.
pub const ENCR_HEADER_LEN: usize = 12;

/// The cipher's key words as a mathematical value.
pub struct KeyState {
    pub k0: u32,
    pub k1: u32,
    pub k2: u32,
}

/// The key state before any password byte has been absorbed.
pub open spec fn initial_keys() -> KeyState {
    KeyState { k0: 0x12345678, k1: 0x23456789, k2: 0x34567890 }
}

/// The key state after absorbing plaintext byte `c`.
pub open spec fn update_keys_spec(k: KeyState, c: u8) -> KeyState {
    let k0 = crc32_step(k.k0, c);
    let k1 = u32_specs::wrapping_add(
        u32_specs::wrapping_mul(u32_specs::wrapping_add(k.k1, k0 & 0xff), 134775813),
        1,
    );
    let k2 = crc32_step(k.k2, (k1 >> 24) as u8);
    KeyState { k0, k1, k2 }
}

/// The key state after absorbing every byte of `plain`, first byte first.
pub open spec fn keys_after(k: KeyState, plain: Seq<u8>) -> KeyState
    decreases plain.len(),
{
    if plain.len() == 0 {
        k
    } else {
        update_keys_spec(keys_after(k, plain.drop_last()), plain.last())
    }
}

/// The key schedule of a password: the initial keys advanced by each
/// password byte.
pub open spec fn keys_from_password(password: Seq<u8>) -> KeyState {
    keys_after(initial_keys(), password)
}

/// The keystream byte that state `k` produces.
pub open spec fn keystream_byte(k: KeyState) -> u8 {
    let t: u32 = (k.k2 | 2) & 0xffff;
    ((u32_specs::wrapping_mul(t, t ^ 1) >> 8) & 0xff) as u8
}

/// The plaintext of `cipher` when decryption starts in state `k`.
pub open spec fn decrypt_spec(k: KeyState, cipher: Seq<u8>) -> Seq<u8>
    decreases cipher.len(),
{
    if cipher.len() == 0 {
        Seq::empty()
    } else {
        let head = decrypt_spec(k, cipher.drop_last());
        head.push(cipher.last() ^ keystream_byte(keys_after(k, head)))
    }
}

/// The ciphertext of `plain` when encryption starts in state `k`.
pub open spec fn encrypt_spec(k: KeyState, plain: Seq<u8>) -> Seq<u8>
    decreases plain.len(),
{
    if plain.len() == 0 {
        Seq::empty()
    } else {
        let head = plain.drop_last();
        encrypt_spec(k, head).push(plain.last() ^ keystream_byte(keys_after(k, head)))
    }
}

/// The byte that the last decrypted byte of the check header must equal:
/// bits 8..15 of the DOS timestamp in data-descriptor mode, otherwise the
/// top byte of the declared CRC.
pub open spec fn expected_check_byte(file_crc: u32, file_time_date: u32, is_data_descr: bool) -> u8 {
    if is_data_descr {
        #[verifier::truncate]
        ((file_time_date >> 8) as u8)
    } else {
        #[verifier::truncate]
        ((file_crc >> 24) as u8)
    }
}

/// Decryption keeps the length.
pub proof fn lemma_decrypt_len(k: KeyState, cipher: Seq<u8>)
    ensures
        decrypt_spec(k, cipher).len() == cipher.len(),
    decreases cipher.len(),
{
    if cipher.len() > 0 {
        lemma_decrypt_len(k, cipher.drop_last());
    }
}

/// Absorbing a concatenation is absorbing the parts in order.
pub proof fn lemma_keys_after_concat(k: KeyState, a: Seq<u8>, b: Seq<u8>)
    ensures
        keys_after(k, a + b) == keys_after(keys_after(k, a), b),
    decreases b.len(),
{
    if b.len() == 0 {
        assert(a + b =~= a);
    } else {
        lemma_keys_after_concat(k, a, b.drop_last());
        assert((a + b).drop_last() =~= a + b.drop_last());
        assert((a + b).last() == b.last());
    }
}

/// Extending the ciphertext by one byte extends the plaintext by that byte
/// xored with the keystream, and advances the keys by the new plaintext byte.
pub proof fn lemma_decrypt_step(k: KeyState, cipher: Seq<u8>, i: int)
    requires
        0 <= i < cipher.len(),
    ensures
        decrypt_spec(k, cipher.subrange(0, i + 1)) == decrypt_spec(k, cipher.subrange(0, i)).push(
            cipher[i] ^ keystream_byte(keys_after(k, decrypt_spec(k, cipher.subrange(0, i)))),
        ),
        keys_after(k, decrypt_spec(k, cipher.subrange(0, i + 1))) == update_keys_spec(
            keys_after(k, decrypt_spec(k, cipher.subrange(0, i))),
            cipher[i] ^ keystream_byte(keys_after(k, decrypt_spec(k, cipher.subrange(0, i)))),
        ),
{
    let whole = cipher.subrange(0, i + 1);
    let head = decrypt_spec(k, cipher.subrange(0, i));
    let x = cipher[i] ^ keystream_byte(keys_after(k, head));
    assert(whole.drop_last() =~= cipher.subrange(0, i));
    assert(whole.last() == cipher[i]);
    assert(head.push(x).drop_last() =~= head);
    assert(head.push(x).last() == x);
}

/// Decrypting a concatenation: the second part is decrypted from the state
/// that the first part's plaintext leaves behind.
pub proof fn lemma_decrypt_concat(k: KeyState, a: Seq<u8>, b: Seq<u8>)
    ensures
        decrypt_spec(k, a + b) == decrypt_spec(k, a) + decrypt_spec(
            keys_after(k, decrypt_spec(k, a)),
            b,
        ),
        keys_after(k, decrypt_spec(k, a + b)) == keys_after(
            keys_after(k, decrypt_spec(k, a)),
            decrypt_spec(keys_after(k, decrypt_spec(k, a)), b),
        ),
    decreases b.len(),
{
    let pa = decrypt_spec(k, a);
    let ka = keys_after(k, pa);
    if b.len() == 0 {
        assert(a + b =~= a);
        assert(pa + decrypt_spec(ka, b) =~= pa);
    } else {
        let bf = b.drop_last();
        lemma_decrypt_concat(k, a, bf);
        assert((a + b).drop_last() =~= a + bf);
        assert((a + b).last() == b.last());
        let pbf = decrypt_spec(ka, bf);
        lemma_keys_after_concat(k, pa, pbf);
        let x = b.last() ^ keystream_byte(keys_after(ka, pbf));
        assert(decrypt_spec(k, a + b) == (pa + pbf).push(x));
        assert(decrypt_spec(ka, b) == pbf.push(x));
        assert((pa + pbf).push(x) =~= pa + pbf.push(x));
        lemma_keys_after_concat(k, pa, pbf.push(x));
    }
}

/// Decryption undoes encryption when both start from the same key state,
/// and both leave the same key state behind.
pub proof fn lemma_decrypt_encrypt(k: KeyState, plain: Seq<u8>)
    ensures
        decrypt_spec(k, encrypt_spec(k, plain)) == plain,
    decreases plain.len(),
{
    if plain.len() > 0 {
        let head = plain.drop_last();
        lemma_decrypt_encrypt(k, head);
        let ks = keystream_byte(keys_after(k, head));
        let p = plain.last();
        let e = encrypt_spec(k, plain);
        assert(e.drop_last() =~= encrypt_spec(k, head));
        assert((p ^ ks) ^ ks == p) by (bit_vector);
        assert(decrypt_spec(k, e) =~= plain);
    }
}

/// For every password and plaintext, decrypting the encryption under the
/// same password recovers the plaintext.
pub proof fn lemma_cipher_round_trip(password: Seq<u8>, plain: Seq<u8>)
    ensures
        decrypt_spec(
            keys_from_password(password),
            encrypt_spec(keys_from_password(password), plain),
        ) == plain,
{
    lemma_decrypt_encrypt(keys_from_password(password), plain);
}

/// Multiplication by 134775813 can be undone modulo 2^32.
proof fn lemma_multiplier_invertible(x: u32)
    ensures
        u32_specs::wrapping_mul(u32_specs::wrapping_mul(x, 134775813), 0xD94FA8CD) == x,
{
    assert(u32_specs::wrapping_mul(u32_specs::wrapping_mul(x, 134775813), 0xD94FA8CD) == x)
        by (bit_vector);
}

/// A key update can be undone: two states that one byte takes to the same
/// state are the same.
pub proof fn lemma_update_injective_in_state(s: KeyState, t: KeyState, c: u8)
    requires
        update_keys_spec(s, c) == update_keys_spec(t, c),
    ensures
        s == t,
{
    let next = update_keys_spec(s, c);
    lemma_crc32_step_injective_in_register(s.k0, t.k0, c);
    let low = next.k0 & 0xff;
    let ms = u32_specs::wrapping_mul(u32_specs::wrapping_add(s.k1, low), 134775813);
    let mt = u32_specs::wrapping_mul(u32_specs::wrapping_add(t.k1, low), 134775813);
    assert(ms == mt);
    lemma_multiplier_invertible(u32_specs::wrapping_add(s.k1, low));
    lemma_multiplier_invertible(u32_specs::wrapping_add(t.k1, low));
    assert(s.k1 == t.k1);
    lemma_crc32_step_injective_in_register(s.k2, t.k2, (next.k1 >> 24) as u8);
}

/// Two bytes that take one state to the same state are the same.
pub proof fn lemma_update_injective_in_byte(s: KeyState, a: u8, b: u8)
    requires
        update_keys_spec(s, a) == update_keys_spec(s, b),
    ensures
        a == b,
{
    lemma_crc32_step_injective_in_byte(s.k0, a, b);
}

/// Absorbing the same bytes keeps different states different.
pub proof fn lemma_keys_after_injective(s: KeyState, t: KeyState, plain: Seq<u8>)
    requires
        keys_after(s, plain) == keys_after(t, plain),
    ensures
        s == t,
    decreases plain.len(),
{
    if plain.len() > 0 {
        lemma_update_injective_in_state(
            keys_after(s, plain.drop_last()),
            keys_after(t, plain.drop_last()),
            plain.last(),
        );
        lemma_keys_after_injective(s, t, plain.drop_last());
    }
}

/// Two passwords that differ in exactly one byte have different key
/// schedules.
pub proof fn lemma_one_byte_changes_the_keys(prefix: Seq<u8>, a: u8, b: u8, suffix: Seq<u8>)
    requires
        a != b,
    ensures
        keys_from_password(prefix.push(a) + suffix) != keys_from_password(prefix.push(b) + suffix),
{
    let start = keys_from_password(prefix);
    let with_a = keys_from_password(prefix.push(a));
    let with_b = keys_from_password(prefix.push(b));
    assert(prefix.push(a).drop_last() =~= prefix);
    assert(prefix.push(b).drop_last() =~= prefix);
    assert(with_a == update_keys_spec(start, a));
    assert(with_b == update_keys_spec(start, b));
    if with_a == with_b {
        lemma_update_injective_in_byte(start, a, b);
    }
    lemma_keys_after_concat(initial_keys(), prefix.push(a), suffix);
    lemma_keys_after_concat(initial_keys(), prefix.push(b), suffix);
    if keys_after(with_a, suffix) == keys_after(with_b, suffix) {
        lemma_keys_after_injective(with_a, with_b, suffix);
    }
}

/// The key schedule is a function of the password: ciphers built from equal
/// passwords are in equal states.
pub proof fn lemma_equal_passwords_equal_keys(a: ZipCrypto, b: ZipCrypto, p: Seq<u8>, q: Seq<u8>)
    requires
        a@ == keys_from_password(p),
        b@ == keys_from_password(q),
        p == q,
    ensures
        a@ == b@,
{
}

/// PKWARE traditional cipher state.
pub struct ZipCrypto {
    pub key: [u32; 3],
}

impl View for ZipCrypto {
    type V = KeyState;

    open spec fn view(&self) -> KeyState {
        KeyState { k0: self.key[0], k1: self.key[1], k2: self.key[2] }
    }
}

impl ZipCrypto {
    /// Builds the key schedule of `password`.
    pub fn new(password: &[u8]) -> (c: Self)
        ensures
            c@ == keys_from_password(password@),
    {
        let mut c = ZipCrypto { key: [305419896, 591751049, 878082192] };
        let n = password.len();
        let mut i: usize = 0;
        while i < n
            invariant
                n == password@.len(),
                i <= n,
                c@ == keys_from_password(password@.subrange(0, i as int)),
            decreases n - i,
        {
            proof {
                assert(password@.subrange(0, i + 1).drop_last() =~= password@.subrange(0, i as int));
            }
            c.update_keys(password[i]);
            i += 1;
        }
        proof {
            assert(password@.subrange(0, n as int) =~= password@);
        }
        c
    }

    /// One CRC-32 table step.
    pub fn crc32_byte(crc: u32, b: u8) -> (r: u32)
        ensures
            r == crc32_step(crc, b),
    {
        let idx: u32 = (crc ^ (b as u32)) & 0xff;
        proof {
            assert(idx < 256) by (bit_vector)
                requires
                    idx == (crc ^ (b as u32)) & 0xff,
            ;
        }
        CRC32_TABLE[idx as usize] ^ (crc >> 8)
    }

    /// Advances the key state by plaintext byte `c`.
    pub fn update_keys(&mut self, c: u8)
        ensures
            final(self)@ == update_keys_spec(old(self)@, c),
    {
        let k0 = Self::crc32_byte(self.key[0], c);
        let k1 = self.key[1].wrapping_add(k0 & 0xff).wrapping_mul(134775813).wrapping_add(1);
        let k2 = Self::crc32_byte(self.key[2], (k1 >> 24) as u8);
        self.key = [k0, k1, k2];
    }

    /// The next keystream byte; does not advance the state.
    pub fn decrypt_byte(&self) -> (ks: u8)
        ensures
            ks == keystream_byte(self@),
    {
        let t: u32 = (self.key[2] | 2) & 0xffff;
        ((t.wrapping_mul(t ^ 1) >> 8) & 0xff) as u8
    }

    /// Decrypts the check header, advancing the key state over it, and tells
    /// whether its last byte is the one the entry's metadata calls for.
    pub fn check_header(
        &mut self,
        enc_header: &[u8; ENCR_HEADER_LEN],
        file_crc: u32,
        file_time_date: u32,
        is_data_descr: bool,
    ) -> (ok: bool)
        ensures
            final(self)@ == keys_after(old(self)@, decrypt_spec(old(self)@, enc_header@)),
            ok == (decrypt_spec(old(self)@, enc_header@).last() == expected_check_byte(
                file_crc,
                file_time_date,
                is_data_descr,
            )),
    {
        let ghost start = self@;
        let mut last_byte: u8 = 0;
        let mut i: usize = 0;
        while i < ENCR_HEADER_LEN
            invariant
                i <= ENCR_HEADER_LEN,
                enc_header@.len() == ENCR_HEADER_LEN,
                self@ == keys_after(start, decrypt_spec(start, enc_header@.subrange(0, i as int))),
                i > 0 ==> last_byte == decrypt_spec(start, enc_header@.subrange(0, i as int)).last(),
            decreases ENCR_HEADER_LEN - i,
        {
            proof {
                lemma_decrypt_step(start, enc_header@, i as int);
            }
            let c = enc_header[i] ^ self.decrypt_byte();
            self.update_keys(c);
            last_byte = c;
            i += 1;
        }
        proof {
            assert(enc_header@.subrange(0, ENCR_HEADER_LEN as int) =~= enc_header@);
        }
        if is_data_descr {
            #[verifier::truncate]
            ((file_time_date >> 8) as u8) == last_byte
        } else {
            #[verifier::truncate]
            ((file_crc >> 24) as u8) == last_byte
        }
    }

    /// Decrypts `data` in place, advancing the key state over the plaintext.
    pub fn decrypt(&mut self, data: &mut [u8])
        ensures
            final(data)@.len() == old(data)@.len(),
            final(data)@ == decrypt_spec(old(self)@, old(data)@),
            final(self)@ == keys_after(old(self)@, final(data)@),
    {
        let ghost start = self@;
        let ghost cipher = data@;
        let n = data.len();
        let mut i: usize = 0;
        while i < n
            invariant
                i <= n,
                data@.len() == n,
                cipher.len() == n,
                data@.subrange(0, i as int) == decrypt_spec(start, cipher.subrange(0, i as int)),
                forall|j: int| i <= j < n ==> data@[j] == cipher[j],
                self@ == keys_after(start, data@.subrange(0, i as int)),
            decreases n - i,
        {
            let ghost before = data@;
            proof {
                lemma_decrypt_step(start, cipher, i as int);
            }
            let temp = data[i] ^ self.decrypt_byte();
            self.update_keys(temp);
            data[i] = temp;
            proof {
                assert(data@.subrange(0, i + 1) =~= before.subrange(0, i as int).push(temp));
            }
            i += 1;
        }
        proof {
            assert(data@.subrange(0, n as int) =~= data@);
            assert(cipher.subrange(0, n as int) =~= cipher);
        }
    }
}

} // verus!
