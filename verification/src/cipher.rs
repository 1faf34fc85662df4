//! AES-128 ciphers keyed from a challenge, a nonce group and its proof of work.

use aes::cipher::block_padding::NoPadding;
use aes::cipher::{BlockEncrypt, KeyInit};
use aes::Aes128;
use vstd::prelude::*;

verus! {

/// The 32-byte digest that BLAKE3 computes of `input`.
pub uninterp spec fn blake3_digest(input: Seq<u8>) -> Seq<u8>;

/// The 16-byte block that AES-128 under `key` computes of the 16-byte block `block`.
pub uninterp spec fn aes128_block(key: Seq<u8>, block: Seq<u8>) -> Seq<u8>;

/// The `b`-th 16-byte block of `data`.
pub open spec fn block_at(data: Seq<u8>, b: int) -> Seq<u8> {
    data.subrange(16 * b, 16 * b + 16)
}

/// The four bytes of `x`, least significant first.
#[verifier::opaque]
pub open spec fn le_bytes_u32(x: u32) -> Seq<u8> {
    seq![
        (x % 256) as u8,
        (x / 0x100 % 256) as u8,
        (x / 0x1_0000 % 256) as u8,
        (x / 0x100_0000 % 256) as u8,
    ]
}

/// The eight bytes of `x`, least significant first.
#[verifier::opaque]
pub open spec fn le_bytes_u64(x: u64) -> Seq<u8> {
    seq![
        (x % 256) as u8,
        (x / 0x100 % 256) as u8,
        (x / 0x1_0000 % 256) as u8,
        (x / 0x100_0000 % 256) as u8,
        (x / 0x1_0000_0000 % 256) as u8,
        (x / 0x100_0000_0000 % 256) as u8,
        (x / 0x1_0000_0000_0000 % 256) as u8,
        (x / 0x100_0000_0000_0000 % 256) as u8,
    ]
}

/// The bytes that are hashed into the key of the primary cipher of a nonce group.
pub open spec fn primary_key_material(challenge: Seq<u8>, nonce_group: u32, pow: u64) -> Seq<u8> {
    challenge + le_bytes_u32(nonce_group) + le_bytes_u64(pow)
}

/// The bytes that are hashed into the key of the secondary cipher of a nonce.
pub open spec fn lazy_key_material(
    challenge: Seq<u8>,
    nonce: u32,
    nonce_group: u32,
    pow: u64,
) -> Seq<u8> {
    challenge + le_bytes_u32(nonce_group) + le_bytes_u64(pow) + le_bytes_u32(nonce)
}

/// The key of the primary cipher of nonce group `nonce_group`.
pub open spec fn primary_key(challenge: Seq<u8>, nonce_group: u32, pow: u64) -> Seq<u8> {
    blake3_digest(primary_key_material(challenge, nonce_group, pow)).subrange(0, 16)
}

/// The key of the secondary cipher of nonce `nonce`.
pub open spec fn lazy_key(challenge: Seq<u8>, nonce: u32, nonce_group: u32, pow: u64) -> Seq<u8> {
    blake3_digest(lazy_key_material(challenge, nonce, nonce_group, pow)).subrange(0, 16)
}

/// Hashes `input` with `blake3::hash`.
///
/// Trusted: the digest that the call returns is the one that `blake3_digest`
/// names for the same bytes.
#[verifier::external_body]
fn blake3_hash(input: &[u8]) -> (digest: [u8; 32])
    ensures
        digest@ == blake3_digest(input@),
{
    *blake3::hash(input).as_bytes()
}

/// Encrypts `input` block by block with `Aes128`, keyed by `key`, through
/// `BlockEncrypt::encrypt_padded_b2b` without padding.
///
/// Trusted: with an input of whole blocks and an output buffer of the same
/// length, each output block is the one that `aes128_block` names for `key`
/// and the input block at the same place.
#[verifier::external_body]
pub(crate) fn aes128_encrypt_blocks(key: &[u8; 16], input: &[u8], out: &mut Vec<u8>)
    requires
        input@.len() % 16 == 0,
        old(out)@.len() == input@.len(),
    ensures
        final(out)@.len() == input@.len(),
        forall|b: int|
            0 <= b < input@.len() / 16 ==> #[trigger] block_at(final(out)@, b) == aes128_block(
                key@,
                block_at(input@, b),
            ),
{
    let _ = Aes128::new(key.into()).encrypt_padded_b2b::<NoPadding>(input, out);
}

/// Appends the four bytes of `x` to `buf`, least significant first.
pub fn push_le_u32(buf: &mut Vec<u8>, x: u32)
    ensures
        final(buf)@ == old(buf)@ + le_bytes_u32(x),
{
    buf.push((x % 256) as u8);
    buf.push((x / 0x100 % 256) as u8);
    buf.push((x / 0x1_0000 % 256) as u8);
    buf.push((x / 0x100_0000 % 256) as u8);
    proof {
        reveal(le_bytes_u32);
    }
    assert(buf@ =~= old(buf)@ + le_bytes_u32(x));
}

/// Appends the eight bytes of `x` to `buf`, least significant first.
pub fn push_le_u64(buf: &mut Vec<u8>, x: u64)
    ensures
        final(buf)@ == old(buf)@ + le_bytes_u64(x),
{
    buf.push((x % 256) as u8);
    buf.push((x / 0x100 % 256) as u8);
    buf.push((x / 0x1_0000 % 256) as u8);
    buf.push((x / 0x100_0000 % 256) as u8);
    buf.push((x / 0x1_0000_0000 % 256) as u8);
    buf.push((x / 0x100_0000_0000 % 256) as u8);
    buf.push((x / 0x1_0000_0000_0000 % 256) as u8);
    buf.push((x / 0x100_0000_0000_0000 % 256) as u8);
    proof {
        reveal(le_bytes_u64);
    }
    assert(buf@ =~= old(buf)@ + le_bytes_u64(x));
}

/// The AES key that a digest yields: its first 16 bytes.
pub fn key_from_digest(digest: &[u8; 32]) -> (key: [u8; 16])
    ensures
        key@ == digest@.subrange(0, 16),
{
    let key: [u8; 16] = [
        digest[0],
        digest[1],
        digest[2],
        digest[3],
        digest[4],
        digest[5],
        digest[6],
        digest[7],
        digest[8],
        digest[9],
        digest[10],
        digest[11],
        digest[12],
        digest[13],
        digest[14],
        digest[15],
    ];
    assert(key@ =~= digest@.subrange(0, 16));
    key
}

/// An AES-128 cipher of the prover, with the nonce group and the proof of
/// work that it was keyed from.
#[derive(Debug, Clone, Copy)]
pub struct AesCipher {
    pub key: [u8; 16],
    pub nonce_group: u32,
    pub pow: u64,
}

impl AesCipher {
    /// The primary cipher of `nonce_group`: one key for the 16 nonces of the group.
    pub fn new(challenge: &[u8; 32], nonce_group: u32, pow: u64) -> (cipher: Self)
        ensures
            cipher.key@ == primary_key(challenge@, nonce_group, pow),
            cipher.nonce_group == nonce_group,
            cipher.pow == pow,
    {
        let mut material: Vec<u8> = Vec::with_capacity(44);
        material.extend_from_slice(challenge.as_slice());
        assert(material@ =~= challenge@);
        push_le_u32(&mut material, nonce_group);
        push_le_u64(&mut material, pow);
        let digest = blake3_hash(material.as_slice());
        AesCipher { key: key_from_digest(&digest), nonce_group, pow }
    }

    /// The secondary cipher of `nonce`, which decides ties of the first stage.
    pub fn new_lazy(challenge: &[u8; 32], nonce: u32, nonce_group: u32, pow: u64) -> (cipher: Self)
        ensures
            cipher.key@ == lazy_key(challenge@, nonce, nonce_group, pow),
            cipher.nonce_group == nonce_group,
            cipher.pow == pow,
    {
        let mut material: Vec<u8> = Vec::with_capacity(48);
        material.extend_from_slice(challenge.as_slice());
        assert(material@ =~= challenge@);
        push_le_u32(&mut material, nonce_group);
        push_le_u64(&mut material, pow);
        push_le_u32(&mut material, nonce);
        let digest = blake3_hash(material.as_slice());
        AesCipher { key: key_from_digest(&digest), nonce_group, pow }
    }

    /// Encrypts `input`, a sequence of whole blocks, block by block.
    pub fn encrypt(&self, input: &[u8]) -> (out: Vec<u8>)
        requires
            input@.len() % 16 == 0,
        ensures
            out@.len() == input@.len(),
            forall|b: int|
                0 <= b < input@.len() / 16 ==> #[trigger] block_at(out@, b) == aes128_block(
                    self.key@,
                    block_at(input@, b),
                ),
    {
        let mut out: Vec<u8> = vec![0u8; input.len()];
        aes128_encrypt_blocks(&self.key, input, &mut out);
        out
    }
}

} // verus!
