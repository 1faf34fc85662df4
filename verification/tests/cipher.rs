use post::cipher::{key_from_digest, push_le_u32, push_le_u64, AesCipher};

fn hex(bytes: &[u8]) -> String {
    bytes.iter().map(|b| format!("{b:02x}")).collect()
}

fn cipher_with_key(key: [u8; 16]) -> AesCipher {
    AesCipher {
        key,
        nonce_group: 0,
        pow: 0,
    }
}

#[test]
fn encrypting_a_block_is_aes_128() {
    let key: [u8; 16] = [
        0x00, 0x01, 0x02, 0x03, 0x04, 0x05, 0x06, 0x07, 0x08, 0x09, 0x0a, 0x0b, 0x0c, 0x0d, 0x0e,
        0x0f,
    ];
    let plain: [u8; 16] = [
        0x00, 0x11, 0x22, 0x33, 0x44, 0x55, 0x66, 0x77, 0x88, 0x99, 0xaa, 0xbb, 0xcc, 0xdd, 0xee,
        0xff,
    ];
    let out = cipher_with_key(key).encrypt(&plain);
    assert_eq!("69c4e0d86a7b0430d8cdb78070b4c55a", hex(&out));
}

#[test]
fn encrypting_goes_block_by_block() {
    let key: [u8; 16] = [
        0x2b, 0x7e, 0x15, 0x16, 0x28, 0xae, 0xd2, 0xa6, 0xab, 0xf7, 0x15, 0x88, 0x09, 0xcf, 0x4f,
        0x3c,
    ];
    let first: [u8; 16] = [
        0x6b, 0xc1, 0xbe, 0xe2, 0x2e, 0x40, 0x9f, 0x96, 0xe9, 0x3d, 0x7e, 0x11, 0x73, 0x93, 0x17,
        0x2a,
    ];
    let second: [u8; 16] = [
        0xae, 0x2d, 0x8a, 0x57, 0x1e, 0x03, 0xac, 0x9c, 0x9e, 0xb7, 0x6f, 0xac, 0x45, 0xaf, 0x8e,
        0x51,
    ];
    let cipher = cipher_with_key(key);
    let mut input = Vec::new();
    input.extend_from_slice(&first);
    input.extend_from_slice(&second);
    input.extend_from_slice(&first);
    let out = cipher.encrypt(&input);
    assert_eq!(48, out.len());
    assert_eq!("3ad77bb40d7a3660a89ecaf32466ef97", hex(&out[..16]));
    assert_eq!("f5d3d58503b9699de785895a96fdbaaf", hex(&out[16..32]));
    assert_eq!(out[..16], out[32..]);
    assert!(cipher.encrypt(&[]).is_empty());
}

#[test]
fn primary_key_is_hashed_from_challenge_group_and_pow() {
    let challenge = *b"hello world, CHALLENGE me!!!!!!!";
    let cipher = AesCipher::new(&challenge, 0x0403_0201, 0x0c0b_0a09_0807_0605);
    let mut material = challenge.to_vec();
    material.extend_from_slice(&[1, 2, 3, 4]);
    material.extend_from_slice(&[5, 6, 7, 8, 9, 10, 11, 12]);
    assert_eq!(blake3::hash(&material).as_bytes()[..16], cipher.key);
    assert_eq!(0x0403_0201, cipher.nonce_group);
    assert_eq!(0x0c0b_0a09_0807_0605, cipher.pow);
}

#[test]
fn lazy_key_is_hashed_from_challenge_group_pow_and_nonce() {
    let challenge = *b"hello world, CHALLENGE me!!!!!!!";
    let cipher = AesCipher::new_lazy(&challenge, 0x100f_0e0d, 0x0403_0201, 0x0c0b_0a09_0807_0605);
    let mut material = challenge.to_vec();
    material.extend_from_slice(&[1, 2, 3, 4]);
    material.extend_from_slice(&[5, 6, 7, 8, 9, 10, 11, 12]);
    material.extend_from_slice(&[13, 14, 15, 16]);
    assert_eq!(blake3::hash(&material).as_bytes()[..16], cipher.key);
    assert_eq!(0x0403_0201, cipher.nonce_group);
    assert_eq!(0x0c0b_0a09_0807_0605, cipher.pow);
}

#[test]
fn keys_differ_by_group_pow_nonce_and_kind() {
    let challenge = [9u8; 32];
    let base = AesCipher::new(&challenge, 1, 2).key;
    assert_eq!(base, AesCipher::new(&challenge, 1, 2).key);
    assert_ne!(base, AesCipher::new(&challenge, 2, 2).key);
    assert_ne!(base, AesCipher::new(&challenge, 1, 3).key);
    assert_ne!(base, AesCipher::new(&[8u8; 32], 1, 2).key);
    let lazy = AesCipher::new_lazy(&challenge, 16, 1, 2).key;
    assert_ne!(base, lazy);
    assert_ne!(lazy, AesCipher::new_lazy(&challenge, 17, 1, 2).key);
}

#[test]
fn numbers_are_written_least_significant_byte_first() {
    let mut buf = vec![0xaa];
    push_le_u32(&mut buf, 0x1234_5678);
    assert_eq!(vec![0xaa, 0x78, 0x56, 0x34, 0x12], buf);
    push_le_u64(&mut buf, 0x0102_0304_0506_0708);
    assert_eq!(
        vec![0xaa, 0x78, 0x56, 0x34, 0x12, 8, 7, 6, 5, 4, 3, 2, 1],
        buf
    );
    let mut buf = Vec::new();
    push_le_u32(&mut buf, u32::MAX);
    push_le_u64(&mut buf, 0);
    assert_eq!(vec![255, 255, 255, 255, 0, 0, 0, 0, 0, 0, 0, 0], buf);
}

#[test]
fn key_is_the_first_half_of_the_digest() {
    let mut digest = [0u8; 32];
    for (i, byte) in digest.iter_mut().enumerate() {
        *byte = 100 + i as u8;
    }
    assert_eq!(
        [100, 101, 102, 103, 104, 105, 106, 107, 108, 109, 110, 111, 112, 113, 114, 115],
        key_from_digest(&digest)
    );
}
