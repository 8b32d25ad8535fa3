use unalz_rs::crc::CRC32_TABLE;
use unalz_rs::crypto::ZipCrypto;

#[test]
fn test_initial_keys() {
    let c = ZipCrypto::new(b"");
    assert_eq!(c.key, [305419896, 591751049, 878082192]);
}

#[test]
fn test_key_update_deterministic() {
    let c1 = ZipCrypto::new(b"password");
    let c2 = ZipCrypto::new(b"password");
    assert_eq!(c1.key, c2.key);
}

#[test]
fn test_different_passwords_different_keys() {
    let c1 = ZipCrypto::new(b"abc");
    let c2 = ZipCrypto::new(b"xyz");
    assert_ne!(c1.key, c2.key);
}

#[test]
fn test_encrypt_decrypt_roundtrip() {
    let data = b"hello world";
    let mut encrypted = *data;

    let mut c = ZipCrypto::new(b"secret");
    for b in encrypted.iter_mut() {
        let plain = *b;
        *b = plain ^ c.decrypt_byte();
        c.update_keys(plain);
    }

    let mut c = ZipCrypto::new(b"secret");
    c.decrypt(&mut encrypted);
    assert_eq!(&encrypted, data);
}

#[test]
fn test_crc32_table_spot_check() {
    assert_eq!(CRC32_TABLE[0], 0x00000000);
    assert_eq!(CRC32_TABLE[1], 0x77073096);
    assert_eq!(CRC32_TABLE[255], 0x2D02EF8D);
}

/// Division by the polynomial, bit by bit.
fn remainder(mut c: u32) -> u32 {
    for _ in 0..8 {
        c = if c & 1 != 0 { (c >> 1) ^ 0xEDB88320 } else { c >> 1 };
    }
    c
}

fn step(crc: u32, b: u8) -> u32 {
    remainder((crc ^ b as u32) & 0xff) ^ (crc >> 8)
}

fn keys_by_hand(password: &[u8]) -> [u32; 3] {
    let mut k = [0x12345678u32, 0x23456789, 0x34567890];
    for &c in password {
        k[0] = step(k[0], c);
        k[1] = (k[1].wrapping_add(k[0] & 0xff)).wrapping_mul(134775813).wrapping_add(1);
        k[2] = step(k[2], (k[1] >> 24) as u8);
    }
    k
}

#[test]
fn table_is_the_table_of_the_polynomial() {
    for i in 0..256u32 {
        assert_eq!(CRC32_TABLE[i as usize], remainder(i));
    }
}

#[test]
fn crc32_byte_is_one_table_step() {
    assert_eq!(ZipCrypto::crc32_byte(0, 0), 0);
    assert_eq!(ZipCrypto::crc32_byte(0, 1), 0x77073096);
    assert_eq!(ZipCrypto::crc32_byte(0xffff_ffff, 0), 0x2d02ef8d ^ 0x00ff_ffff);
    for (crc, b) in [(0x12345678u32, 0x61u8), (0xdeadbeef, 0xff), (1, 1)] {
        assert_eq!(ZipCrypto::crc32_byte(crc, b), step(crc, b));
    }
    // The CRC-32 of a message is the complement of the folded register.
    let mut crc = 0xffff_ffffu32;
    for &b in b"hello world" {
        crc = ZipCrypto::crc32_byte(crc, b);
    }
    assert_eq!(!crc, 0x0d4a1185);
    assert_eq!(!crc, crc32fast::hash(b"hello world"));
}

#[test]
fn key_schedule_follows_the_update_rule() {
    for password in [&b""[..], b"a", b"password", b"test1234", &[0u8, 255, 128, 7]] {
        assert_eq!(ZipCrypto::new(password).key, keys_by_hand(password));
    }
    // After one byte 'a': the three words, computed by hand.
    let k0 = step(0x12345678, b'a');
    let k1 = (0x23456789u32.wrapping_add(k0 & 0xff)).wrapping_mul(134775813).wrapping_add(1);
    let k2 = step(0x34567890, (k1 >> 24) as u8);
    assert_eq!(ZipCrypto::new(b"a").key, [k0, k1, k2]);
}

#[test]
fn update_keys_advances_like_a_longer_password() {
    let mut c = ZipCrypto::new(b"pass");
    for &b in b"word" {
        c.update_keys(b);
    }
    assert_eq!(c.key, ZipCrypto::new(b"password").key);
}

#[test]
fn keystream_byte_comes_from_the_third_word() {
    for k2 in [0u32, 1, 2, 3, 0x34567890, 0xffff_ffff, 0x0001_0000, 0xabcd_ef01] {
        let c = ZipCrypto { key: [0x1111_1111, 0x2222_2222, k2] };
        let t = (k2 | 2) & 0xffff;
        let expected = (((t * (t ^ 1)) >> 8) & 0xff) as u8;
        assert_eq!(c.decrypt_byte(), expected);
        // Drawing a keystream byte does not advance the keys.
        assert_eq!(c.decrypt_byte(), expected);
        assert_eq!(c.key, [0x1111_1111, 0x2222_2222, k2]);
    }
    assert_eq!(ZipCrypto::new(b"").decrypt_byte(), (((0x7892u32 * 0x7893) >> 8) & 0xff) as u8);
}

#[test]
fn passwords_that_differ_in_one_byte_have_different_keys() {
    let base = b"correct horse".to_vec();
    let keys = ZipCrypto::new(&base).key;
    for at in 0..base.len() {
        for change in [1u8, 0x20, 0x80, 0xff] {
            let mut other = base.clone();
            other[at] ^= change;
            assert_ne!(ZipCrypto::new(&other).key, keys);
        }
    }
}

#[test]
fn decrypt_undoes_encrypt_for_every_length() {
    let plain: Vec<u8> = (0..300u32).map(|i| (i * 31 + 7) as u8).collect();
    for len in [0usize, 1, 2, 11, 12, 13, 255, 256, 300] {
        let mut data = plain[..len].to_vec();
        let mut c = ZipCrypto::new(b"pw");
        for b in data.iter_mut() {
            let p = *b;
            *b = p ^ c.decrypt_byte();
            c.update_keys(p);
        }
        let after_encrypt = c.key;
        let mut d = ZipCrypto::new(b"pw");
        d.decrypt(&mut data);
        assert_eq!(data, &plain[..len]);
        assert_eq!(d.key, after_encrypt);
    }
}

#[test]
fn decrypt_in_parts_is_decrypt_of_the_whole() {
    let mut whole: Vec<u8> = (0..100u8).collect();
    let mut parts = whole.clone();
    ZipCrypto::new(b"k").decrypt(&mut whole);
    let mut c = ZipCrypto::new(b"k");
    let (a, b) = parts.split_at_mut(37);
    c.decrypt(a);
    c.decrypt(b);
    assert_eq!(parts, whole);
}
