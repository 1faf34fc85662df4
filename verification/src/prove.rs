//! Generating proofs that the Proof of Space data is still held, given a challenge.
//!
//! A label passes for a nonce when the 64-bit value that the nonce's ciphers
//! derive from it lies below the proving difficulty. The value is examined in
//! two stages: its top byte comes from the primary cipher of the nonce's
//! group, its low 56 bits from the secondary cipher of the nonce, and the
//! second stage is only consulted when the first ties with the difficulty.

use crate::cipher::{aes128_block, aes128_encrypt_blocks, block_at, lazy_key, primary_key, AesCipher};
use crate::compression::{
    ceil_log2,
    compress_indices,
    compressed,
    decompressed,
    lemma_ceil_log2,
    lemma_compress_decompress,
    required_bits,
};
use crate::config::Config;
use crate::difficulty::{proving_difficulty, spec_proving_difficulty};
use crate::metadata::PostMetadata;
use crate::pow;
use primitive_types::U256;
use std::ops::Range;
use vstd::prelude::*;
use vstd::slice::slice_subrange;

verus! {

/// The size of a label in bytes.
pub const LABEL_SIZE: usize = 16;

/// The size of an AES block in bytes.
pub const BLOCK_SIZE: usize = 16;

/// The number of blocks that one encryption call handles.
pub const AES_BATCH: usize = 8;

/// The size of the unit of scanning: `AES_BATCH` labels.
pub const CHUNK_SIZE: usize = 128;

/// The low 56 bits of a 64-bit word.
pub const LSB_MASK: u64 = 0x00ff_ffff_ffff_ffff;

/// Why a prover or its parameters could not be made.
#[derive(Debug, Clone, Copy, PartialEq, Eq, Structural)]
pub enum Error {
    /// The nonce range is empty, or does not start or end at a multiple of 16.
    InvalidNonceRange,
    /// No proof of work was obtained for one of the nonce groups.
    PoWFailed(pow::Error),
    /// No 64-bit difficulty exists for the number of labels and `k1`.
    DifficultyOverflow,
}

/// A proof that the data is held: a nonce, the indices of labels that pass
/// for it, packed, and the proof of work of the nonce's group.
#[derive(Debug, PartialEq, Eq)]
pub struct Proof {
    pub nonce: u32,
    pub indices: Vec<u8>,
    pub pow: u64,
}

impl Clone for Proof {
    fn clone(&self) -> (copy: Self)
        ensures
            copy.nonce == self.nonce,
            copy.indices@ == self.indices@,
            copy.pow == self.pow,
    {
        Proof { nonce: self.nonce, indices: self.indices.clone(), pow: self.pow }
    }
}

impl Proof {
    /// Whether this is the proof for `nonce` with the indices `indices` into
    /// `num_labels` labels: each index is packed in as many bits as an index
    /// into that many labels takes.
    pub open spec fn is_for(&self, nonce: u32, indices: Seq<u64>, num_labels: u64, pow: u64) -> bool {
        &&& self.nonce == nonce
        &&& self.pow == pow
        &&& self.indices@ == compressed(indices, ceil_log2(num_labels as nat))
    }

    /// The indices of a proof can be read back from it: indices into
    /// `num_labels` labels are what their packed form unpacks to.
    pub proof fn lemma_holds_indices(
        &self,
        nonce: u32,
        indices: Seq<u64>,
        num_labels: u64,
        pow: u64,
    )
        requires
            self.is_for(nonce, indices, num_labels, pow),
            forall|i: int| 0 <= i < indices.len() ==> (#[trigger] indices[i]) < num_labels,
        ensures
            decompressed(self.indices@, ceil_log2(num_labels as nat), indices.len()) == indices,
    {
        let bits = ceil_log2(num_labels as nat);
        lemma_ceil_log2(num_labels as nat);
        vstd::arithmetic::power2::lemma2_to64();
        if bits > 64 {
            vstd::arithmetic::power2::lemma_pow2_strictly_increases(64, (bits - 1) as nat);
        }
        lemma_compress_decompress(indices, bits);
    }

    /// The proof for `nonce` with the indices `indices` into `num_labels` labels.
    pub fn new(nonce: u32, indices: &[u64], num_labels: u64, pow: u64) -> (proof: Self)
        requires
            indices@.len() * ceil_log2(num_labels as nat) + 7 <= usize::MAX,
        ensures
            proof.is_for(nonce, indices@, num_labels, pow),
    {
        Self { nonce, indices: compress_indices(indices, required_bits(num_labels)), pow }
    }
}

/// The number that `bytes` hold, most significant byte first.
pub open spec fn be_value(bytes: Seq<u8>) -> nat
    decreases bytes.len(),
{
    if bytes.len() == 0 {
        0
    } else {
        be_value(bytes.drop_last()) * 256 + bytes.last() as nat
    }
}

/// Byte strings of one length that hold the same number are the same.
pub proof fn lemma_be_value_injective(a: Seq<u8>, b: Seq<u8>)
    requires
        a.len() == b.len(),
        be_value(a) == be_value(b),
    ensures
        a == b,
    decreases a.len(),
{
    if a.len() > 0 {
        lemma_be_value_injective(a.drop_last(), b.drop_last());
        assert(a =~= a.drop_last().push(a.last()));
        assert(b =~= b.drop_last().push(b.last()));
    }
    assert(a =~= b);
}

/// A quotient by more than one is smaller than what is divided, unless that is zero.
pub proof fn lemma_scaled_is_smaller(value: nat, divisor: nat)
    requires
        value > 0,
        divisor > 1,
    ensures
        value / divisor < value,
{
    vstd::arithmetic::div_mod::lemma_div_decreases(value as int, divisor as int);
}

/// Divides the 256-bit number that `value` holds, most significant byte
/// first, by `divisor`, with `U256` of `primitive_types`: `U256::from_big_endian`,
/// its division, and `U256::to_big_endian`.
///
/// Trusted: the bytes that come back hold the quotient, rounded down, most
/// significant byte first.
#[verifier::external_body]
fn scale_pow_difficulty(value: &[u8; 32], divisor: u32) -> (scaled: [u8; 32])
    requires
        divisor != 0,
    ensures
        be_value(scaled@) == be_value(value@) / (divisor as nat),
{
    let mut scaled = [0u8; 32];
    (U256::from_big_endian(value) / divisor).to_big_endian(&mut scaled);
    scaled
}

/// The difficulty thresholds of a proving session.
#[derive(Debug, Clone, Copy)]
pub struct ProvingParams {
    pub difficulty: u64,
    pub pow_difficulty: [u8; 32],
}

impl ProvingParams {
    /// The thresholds for the data that `metadata` describes under `cfg`: the
    /// proving difficulty for `k1` good labels among all labels, and the
    /// threshold of the proof of work divided by the number of units.
    ///
    /// Fails with `DifficultyOverflow` when the number of labels is zero, is
    /// no 64-bit number, or does not exceed `k1`.
    pub fn new(metadata: &PostMetadata, cfg: &Config) -> (r: Result<Self, Error>)
        ensures
            r is Ok <==> cfg.k1 < metadata.num_labels() <= u64::MAX,
            match r {
                Ok(params) => {
                    &&& params.difficulty == spec_proving_difficulty(
                        cfg.k1,
                        metadata.num_labels() as u64,
                    )
                    &&& be_value(params.pow_difficulty@) == be_value(cfg.pow_difficulty@) / (
                    metadata.num_units as nat)
                    &&& metadata.num_units == 1 ==> params.pow_difficulty == cfg.pow_difficulty
                    &&& metadata.num_units > 1 && be_value(cfg.pow_difficulty@) > 0 ==> be_value(
                        params.pow_difficulty@,
                    ) < be_value(cfg.pow_difficulty@)
                },
                Err(e) => e == Error::DifficultyOverflow,
            },
    {
        let num_labels = match (metadata.num_units as u64).checked_mul(metadata.labels_per_unit) {
            Some(num_labels) => num_labels,
            None => {
                return Err(Error::DifficultyOverflow);
            },
        };
        let difficulty = match proving_difficulty(cfg.k1, num_labels) {
            Ok(difficulty) => difficulty,
            Err(e) => {
                return Err(e);
            },
        };
        assert(metadata.num_units != 0) by (nonlinear_arith)
            requires
                metadata.num_units * metadata.labels_per_unit > 0,
        ;
        let pow_difficulty = scale_pow_difficulty(&cfg.pow_difficulty, metadata.num_units);
        proof {
            if metadata.num_units == 1 {
                assert(be_value(cfg.pow_difficulty@) / 1 == be_value(cfg.pow_difficulty@));
                lemma_be_value_injective(pow_difficulty@, cfg.pow_difficulty@);
                assert(pow_difficulty =~= cfg.pow_difficulty);
            } else if be_value(cfg.pow_difficulty@) > 0 {
                lemma_scaled_is_smaller(be_value(cfg.pow_difficulty@), metadata.num_units as nat);
            }
        }
        Ok(Self { difficulty, pow_difficulty })
    }
}

/// Whether `consume` may have answered `None` to every pair of `pairs`.
pub open spec fn declined<F: FnMut(u32, u64) -> Option<Vec<u64>>>(
    consume: F,
    pairs: Seq<(u32, u64)>,
) -> bool {
    forall|j: int|
        0 <= j < pairs.len() ==> call_ensures(consume, #[trigger] pairs[j], None::<Vec<u64>>)
}

/// What a scan returns when it hands the pairs of `emitted` to `consume` in
/// order and stops at the first answer that is not `None`.
pub open spec fn scan_outcome<F: FnMut(u32, u64) -> Option<Vec<u64>>>(
    consume: F,
    emitted: Seq<(u32, u64)>,
    r: Option<(u32, Vec<u64>)>,
) -> bool {
    match r {
        None => declined(consume, emitted),
        Some((nonce, indexes)) => exists|k: int|
            0 <= k < emitted.len() && (#[trigger] emitted[k]).0 == nonce && call_ensures(
                consume,
                emitted[k],
                Some(indexes),
            ) && declined(consume, emitted.take(k)),
    }
}

/// A scanner of label data for the labels that pass the proving difficulty.
pub trait Prover {
    /// Whether the prover's state is consistent.
    spec fn wf(&self) -> bool;

    /// The pairs of nonce and label index that a scan of `batch` emits, in
    /// order, when the first label of `batch` has index `index`.
    spec fn emissions(&self, batch: Seq<u8>, index: u64) -> Seq<(u32, u64)>;

    /// The proof of work behind the ciphers of `nonce`.
    spec fn pow_of(&self, nonce: u32) -> Option<u64>;

    /// Scans `batch`, whose first label has index `index`, and hands every
    /// pair of nonce and label index that passes to `consume`, in order, until
    /// `consume` answers with a list. Returns that list with its nonce.
    fn prove<F>(&self, batch: &[u8], index: u64, consume: F) -> (r: Option<(u32, Vec<u64>)>) where
        F: FnMut(u32, u64) -> Option<Vec<u64>>,

        requires
            self.wf(),
            index + batch@.len() / 16 <= u64::MAX,
            forall|nonce: u32, idx: u64| call_requires(consume, (nonce, idx)),
        ensures
            scan_outcome(consume, self.emissions(batch@, index), r),
    ;

    /// The proof of work of the group of `nonce`, if the prover covers `nonce`.
    fn get_pow(&self, nonce: u32) -> (r: Option<u64>)
        requires
            self.wf(),
        ensures
            r == self.pow_of(nonce),
    ;
}

/// The nonce that the group `nonce_group` holds at byte `offset` of an encrypted block.
pub open spec fn spec_calc_nonce(nonce_group: u32, per_aes: u32, offset: usize) -> int {
    nonce_group * per_aes + offset % (per_aes as usize)
}

/// Calculate nonce value given nonce group and its offset within the group.
pub fn calc_nonce(nonce_group: u32, per_aes: u32, offset: usize) -> (nonce: u32)
    requires
        per_aes > 0,
        spec_calc_nonce(nonce_group, per_aes, offset) <= u32::MAX,
    ensures
        nonce == spec_calc_nonce(nonce_group, per_aes, offset),
{
    let within: usize = offset % (per_aes as usize);
    assert(nonce_group * per_aes <= u32::MAX) by (nonlinear_arith)
        requires
            nonce_group * per_aes + within <= u32::MAX,
            within >= 0,
    ;
    nonce_group * per_aes + within as u32
}

/// The group of `per_aes` consecutive nonces that `nonce` belongs to.
pub fn calc_nonce_group(nonce: u32, per_aes: u32) -> (group: usize)
    requires
        per_aes > 0,
    ensures
        group == nonce / per_aes,
{
    (nonce / per_aes) as usize
}

/// The end of the range of groups that hold the nonces `start..end`.
pub open spec fn spec_end_group(start: u32, end: u32, per_aes: u32) -> int {
    let covering = (end + per_aes - 1) / (per_aes as int);
    if start / per_aes + 1 >= covering {
        start / per_aes + 1
    } else {
        covering
    }
}

/// The groups that hold the nonces of `nonces`: at least one, and every group
/// that holds one of them.
pub fn nonce_group_range(nonces: Range<u32>, per_aes: u32) -> (groups: Range<u32>)
    requires
        per_aes > 0,
        nonces.start / per_aes < u32::MAX,
    ensures
        groups.start == nonces.start / per_aes,
        groups.end == spec_end_group(nonces.start, nonces.end, per_aes),
        groups.start < groups.end,
{
    let start_group: u32 = nonces.start / per_aes;
    let covering: u64 = (nonces.end as u64 + per_aes as u64 - 1) / (per_aes as u64);
    assert(covering <= nonces.end) by (nonlinear_arith)
        requires
            covering == (nonces.end + per_aes - 1) / (per_aes as int),
            per_aes >= 1,
            nonces.end >= 0,
    ;
    let end_group: u32 = if start_group as u64 + 1 >= covering {
        start_group + 1
    } else {
        covering as u32
    };
    start_group..end_group
}

/// The groups of a range of nonces hold every nonce of the range.
pub proof fn lemma_groups_cover(nonces: Range<u32>, per_aes: u32, nonce: u32)
    requires
        per_aes > 0,
        nonces.start <= nonce < nonces.end,
    ensures
        nonces.start / per_aes <= nonce / per_aes < spec_end_group(
            nonces.start,
            nonces.end,
            per_aes,
        ),
{
    let p = per_aes as int;
    vstd::arithmetic::div_mod::lemma_div_is_ordered(nonces.start as int, nonce as int, p);
    vstd::arithmetic::div_mod::lemma_div_is_ordered(nonce as int, nonces.end - 1, p);
    vstd::arithmetic::div_mod::lemma_div_plus_one(nonces.end - 1, p);
}

/// Whether a prover can be made for `nonces`: the range is not empty and
/// consists of whole nonce groups.
pub open spec fn valid_nonces(nonces: Range<u32>) -> bool {
    &&& nonces.start % 16 == 0
    &&& nonces.start < nonces.end
    &&& (nonces.end - nonces.start) % 16 == 0
}

/// The 64-bit word that the first eight bytes of `out` hold, least significant first.
pub open spec fn le_word(out: Seq<u8>) -> u64 {
    (out[0] as u64 + out[1] as u64 * 0x100 + out[2] as u64 * 0x1_0000 + out[3] as u64 * 0x100_0000
        + out[4] as u64 * 0x1_0000_0000 + out[5] as u64 * 0x100_0000_0000 + out[6] as u64
        * 0x1_0000_0000_0000 + out[7] as u64 * 0x100_0000_0000_0000) as u64
}

/// The 56-bit value that the second stage compares with the difficulty.
pub open spec fn lsb_value(out: Seq<u8>) -> u64 {
    le_word(out) & LSB_MASK
}

/// The second stage on the output `out` of a secondary cipher: whether the
/// low 56 bits of its first word lie below `difficulty_lsb`.
pub fn lsb_passes(out: &[u8], difficulty_lsb: u64) -> (pass: bool)
    requires
        out@.len() >= 8,
    ensures
        pass == (lsb_value(out@) < difficulty_lsb),
{
    let word: u64 = out[0] as u64 + out[1] as u64 * 0x100 + out[2] as u64 * 0x1_0000 + out[3] as u64
        * 0x100_0000 + out[4] as u64 * 0x1_0000_0000 + out[5] as u64 * 0x100_0000_0000
        + out[6] as u64 * 0x1_0000_0000_0000 + out[7] as u64 * 0x100_0000_0000_0000;
    (word & LSB_MASK) < difficulty_lsb
}

/// The first stage on the byte `byte` of a primary cipher's output.
#[derive(Debug, Clone, Copy, PartialEq, Eq, Structural)]
pub enum Msb {
    /// The byte lies below the difficulty's: the label passes.
    Below,
    /// The byte equals the difficulty's: the second stage decides.
    Tie,
    /// The byte lies above the difficulty's: the label fails.
    Above,
}

/// Compares the byte of the first stage with the top byte of the difficulty.
pub fn msb_verdict(byte: u8, difficulty_msb: u8) -> (verdict: Msb)
    ensures
        verdict == (if byte < difficulty_msb {
            Msb::Below
        } else if byte == difficulty_msb {
            Msb::Tie
        } else {
            Msb::Above
        }),
{
    if byte < difficulty_msb {
        Msb::Below
    } else if byte == difficulty_msb {
        Msb::Tie
    } else {
        Msb::Above
    }
}

/// The `i`-th label of `batch`.
pub open spec fn label(batch: Seq<u8>, i: int) -> Seq<u8> {
    batch.subrange(16 * i, 16 * i + 16)
}

/// The place in the order of a scan of the byte `offset` of the output of
/// the `group`-th cipher on the `chunk`-th chunk.
#[verifier::opaque]
pub open spec fn position(chunk: int, group: int, offset: int, groups: int) -> int {
    (chunk * groups + group) * 128 + offset
}

/// The chunk that the `k`-th place of a scan lies in.
pub open spec fn chunk_of(k: int, groups: int) -> int {
    k / 128 / groups
}

/// The cipher that the `k`-th place of a scan lies in.
pub open spec fn group_of(k: int, groups: int) -> int {
    (k / 128) % groups
}

/// The byte of the cipher's output at the `k`-th place of a scan.
pub open spec fn offset_of(k: int) -> int {
    k % 128
}

/// A place of the scan determines its chunk, cipher and byte.
pub proof fn lemma_position(chunk: int, group: int, offset: int, groups: int)
    requires
        0 <= chunk,
        0 <= group < groups,
        0 <= offset < 128,
    ensures
        position(chunk, group, offset, groups) >= 0,
        chunk_of(position(chunk, group, offset, groups), groups) == chunk,
        group_of(position(chunk, group, offset, groups), groups) == group,
        offset_of(position(chunk, group, offset, groups)) == offset,
{
    reveal(position);
    let k = position(chunk, group, offset, groups);
    let row = chunk * groups + group;
    assert(row >= 0) by (nonlinear_arith)
        requires
            row == chunk * groups + group,
            chunk >= 0,
            groups > 0,
            group >= 0,
    ;
    assert(k / 128 == row && k % 128 == offset);
    vstd::arithmetic::div_mod::lemma_fundamental_div_mod_converse(row, groups, chunk, group);
}

/// The places of a scan follow each other byte by byte, cipher by cipher and
/// chunk by chunk.
pub proof fn lemma_position_order(chunk: int, group: int, offset: int, groups: int)
    ensures
        position(0, 0, 0, groups) == 0,
        position(chunk, group, offset + 1, groups) == position(chunk, group, offset, groups) + 1,
        position(chunk, group, 128, groups) == position(chunk, group + 1, 0, groups),
        position(chunk, groups, 0, groups) == position(chunk + 1, 0, 0, groups),
{
    reveal(position);
    assert((chunk * groups + groups) * 128 == ((chunk + 1) * groups + 0) * 128)
        by (nonlinear_arith);
}

/// A prover that tests 16 nonces on 8 labels with each encryption, split into
/// a first stage of 8 bits and a second stage of 56 bits.
#[derive(Debug)]
pub struct Prover8_56 {
    ciphers: Vec<AesCipher>,
    lazy_ciphers: Vec<AesCipher>,
    difficulty_msb: u8,
    difficulty_lsb: u64,
}

impl Prover8_56 {
    /// The number of nonces that share a primary cipher.
    pub const NONCES_PER_AES: u32 = 16;

    /// The primary ciphers, one for each nonce group, in the order of the groups.
    pub closed spec fn primary(&self) -> Seq<AesCipher> {
        self.ciphers@
    }

    /// The secondary ciphers, one for each nonce, in the order of the nonces.
    pub closed spec fn lazy(&self) -> Seq<AesCipher> {
        self.lazy_ciphers@
    }

    /// The top byte of the difficulty.
    pub closed spec fn msb(&self) -> u8 {
        self.difficulty_msb
    }

    /// The low 56 bits of the difficulty.
    pub closed spec fn lsb(&self) -> u64 {
        self.difficulty_lsb
    }

    /// The number of nonce groups.
    pub open spec fn groups(&self) -> int {
        self.primary().len() as int
    }

    /// The first nonce of the prover's range.
    pub open spec fn first_nonce(&self) -> int {
        self.primary()[0].nonce_group * 16
    }

    /// The end of the prover's range of nonces.
    pub open spec fn end_nonce(&self) -> int {
        self.first_nonce() + self.lazy().len()
    }

    /// The difficulty that the two stages implement together.
    pub open spec fn difficulty(&self) -> u64 {
        ((self.msb() as u64) << 56) | self.lsb()
    }

    /// The invariant of a prover: a cipher for each group and each nonce of a
    /// range of whole groups, and a second stage of 56 bits.
    pub open spec fn inv(&self) -> bool {
        &&& self.primary().len() > 0
        &&& self.lazy().len() == 16 * self.primary().len()
        &&& self.end_nonce() <= u32::MAX
        &&& forall|i: int|
            0 <= i < self.primary().len() ==> (#[trigger] self.primary()[i]).nonce_group
                == self.primary()[0].nonce_group + i
        &&& self.lsb() <= LSB_MASK
    }

    /// The primary cipher of `nonce`, if the prover covers `nonce`.
    pub open spec fn primary_for(&self, nonce: u32) -> Option<AesCipher> {
        if self.first_nonce() <= nonce < self.end_nonce() {
            Some(self.primary()[(nonce - self.first_nonce()) / 16])
        } else {
            None
        }
    }

    /// The secondary cipher of `nonce`, if the prover covers `nonce`.
    pub open spec fn lazy_for(&self, nonce: u32) -> Option<AesCipher> {
        if self.first_nonce() <= nonce < self.end_nonce() {
            Some(self.lazy()[nonce - self.first_nonce()])
        } else {
            None
        }
    }

    /// The byte of the first stage for `label` and `nonce`.
    pub open spec fn msb_byte(&self, label: Seq<u8>, nonce: int) -> u8 {
        let rel = nonce - self.first_nonce();
        aes128_block(self.primary()[rel / 16].key@, label)[rel % 16]
    }

    /// Whether the second stage passes `label` for `nonce`.
    pub open spec fn lsb_check(&self, label: Seq<u8>, nonce: int) -> bool {
        let rel = nonce - self.first_nonce();
        lsb_value(aes128_block(self.lazy()[rel].key@, label)) < self.lsb()
    }

    /// The difficulty predicate: whether `label` passes for `nonce`.
    pub open spec fn passes(&self, label: Seq<u8>, nonce: int) -> bool {
        let byte = self.msb_byte(label, nonce);
        byte < self.msb() || (byte == self.msb() && self.lsb_check(label, nonce))
    }

    /// The nonce that the `k`-th place of a scan tests.
    pub open spec fn nonce_at(&self, k: int) -> int {
        self.first_nonce() + group_of(k, self.groups()) * 16 + offset_of(k) % 16
    }

    /// The label of the batch that the `k`-th place of a scan tests.
    pub open spec fn label_at(&self, k: int) -> int {
        8 * chunk_of(k, self.groups()) + offset_of(k) / 16
    }

    /// Whether the `k`-th place of a scan of `batch` passes.
    pub open spec fn passes_at(&self, batch: Seq<u8>, k: int) -> bool {
        self.passes(label(batch, self.label_at(k)), self.nonce_at(k))
    }

    /// The pair that the `k`-th place of a scan emits if it passes.
    pub open spec fn pair_at(&self, index: u64, k: int) -> (u32, u64) {
        (self.nonce_at(k) as u32, (index + self.label_at(k)) as u64)
    }

    /// The pairs that the first `k` places of a scan of `batch` emit, in order.
    pub open spec fn emitted_upto(&self, batch: Seq<u8>, index: u64, k: nat) -> Seq<(u32, u64)>
        decreases k,
    {
        if k == 0 {
            Seq::empty()
        } else {
            let before = self.emitted_upto(batch, index, (k - 1) as nat);
            if self.passes_at(batch, k - 1) {
                before.push(self.pair_at(index, k - 1))
            } else {
                before
            }
        }
    }

    /// The number of places in a scan of `batch`: one for each byte that the
    /// primary ciphers put out on its whole chunks.
    pub open spec fn places(&self, batch: Seq<u8>) -> nat {
        position((batch.len() / 128) as int, 0, 0, self.groups()) as nat
    }

    /// What the first places of a scan emit, a longer scan emits first.
    pub proof fn lemma_emitted_prefix(&self, batch: Seq<u8>, index: u64, k: nat, n: nat)
        requires
            k <= n,
        ensures
            self.emitted_upto(batch, index, k).is_prefix_of(self.emitted_upto(batch, index, n)),
        decreases n - k,
    {
        if k < n {
            self.lemma_emitted_prefix(batch, index, k, (n - 1) as nat);
        }
    }

    /// The 64-bit value of `label` for `nonce`: its top byte comes from the
    /// primary cipher of the nonce's group, its low 56 bits from the
    /// secondary cipher of the nonce.
    pub open spec fn label_value(&self, label: Seq<u8>, nonce: int) -> u64 {
        let rel = nonce - self.first_nonce();
        ((self.msb_byte(label, nonce) as u64) << 56) | lsb_value(
            aes128_block(self.lazy()[rel].key@, label),
        )
    }

    /// The two stages together decide whether the value of a label lies
    /// below the difficulty.
    pub proof fn lemma_passes_below_difficulty(&self, label: Seq<u8>, nonce: int)
        requires
            self.inv(),
        ensures
            self.passes(label, nonce) <==> self.label_value(label, nonce) < self.difficulty(),
    {
        let byte = self.msb_byte(label, nonce);
        let word = le_word(aes128_block(self.lazy()[nonce - self.first_nonce()].key@, label));
        let msb = self.msb();
        let lsb = self.lsb();
        assert(lsb <= 0x00ff_ffff_ffff_ffff ==> ((((byte as u64) << 56) | (word
            & 0x00ff_ffff_ffff_ffff)) < (((msb as u64) << 56) | lsb) <==> (byte < msb || (byte
            == msb && (word & 0x00ff_ffff_ffff_ffff) < lsb)))) by (bit_vector);
    }

    /// Where every place passes, the scan emits the pair of each place, in
    /// the order of the places.
    pub proof fn lemma_emits_all(&self, batch: Seq<u8>, index: u64, k: nat)
        requires
            forall|j: int| 0 <= j < k ==> #[trigger] self.passes_at(batch, j),
        ensures
            self.emitted_upto(batch, index, k) == Seq::new(k, |j: int| self.pair_at(index, j)),
        decreases k,
    {
        if k > 0 {
            self.lemma_emits_all(batch, index, (k - 1) as nat);
            assert(self.passes_at(batch, k - 1));
        }
        assert(self.emitted_upto(batch, index, k) =~= Seq::new(
            k,
            |j: int| self.pair_at(index, j),
        ));
    }

    /// At the greatest difficulty a label passes for a nonce unless its
    /// value is the greatest 64-bit number.
    pub proof fn lemma_passes_at_greatest_difficulty(&self, label: Seq<u8>, nonce: int)
        requires
            self.inv(),
            self.difficulty() == u64::MAX,
        ensures
            self.passes(label, nonce) <==> self.label_value(label, nonce) != u64::MAX,
    {
        self.lemma_passes_below_difficulty(label, nonce);
    }

    /// The order of emission of a prover for a single nonce group: where
    /// every label of the whole chunks of `batch` passes for every nonce, the
    /// scan emits, label by label, a pair for each nonce in order.
    pub proof fn lemma_emission_order(&self, batch: Seq<u8>, index: u64)
        requires
            self.inv(),
            self.groups() == 1,
            forall|p: int, nonce: int|
                0 <= p < 8 * (batch.len() / 128) && self.first_nonce() <= nonce
                    < self.first_nonce() + 16 ==> #[trigger] self.passes(label(batch, p), nonce),
        ensures
            self.places(batch) == 16 * (8 * (batch.len() / 128)),
            self.emissions(batch, index) == Seq::new(
                self.places(batch),
                |j: int| ((self.first_nonce() + j % 16) as u32, (index + j / 16) as u64),
            ),
    {
        reveal(position);
        assert forall|j: int| 0 <= j < self.places(batch) implies #[trigger] self.passes_at(
            batch,
            j,
        ) by {
            assert(self.label_at(j) == j / 16);
            assert(self.nonce_at(j) == self.first_nonce() + j % 16);
        }
        self.lemma_emits_all(batch, index, self.places(batch));
        assert(self.emissions(batch, index) =~= Seq::new(
            self.places(batch),
            |j: int| ((self.first_nonce() + j % 16) as u32, (index + j / 16) as u64),
        ));
    }

    /// What the scan tests at the byte `o` of the output `u8s` of the `g`-th
    /// primary cipher on the `c`-th chunk of `batch`, and what it emits there.
    proof fn lemma_place(&self, batch: Seq<u8>, index: u64, c: int, g: int, o: int, u8s: Seq<u8>)
        requires
            self.inv(),
            0 <= c < batch.len() / 128,
            0 <= g < self.groups(),
            0 <= o < 128,
            index + batch.len() / 16 <= u64::MAX,
            u8s.len() == 128,
            forall|b: int|
                0 <= b < 8 ==> #[trigger] block_at(u8s, b) == aes128_block(
                    self.primary()[g].key@,
                    block_at(batch.subrange(128 * c, 128 * c + 128), b),
                ),
        ensures
            ({
                let k = position(c, g, o, self.groups());
                let nonce = self.primary()[g].nonce_group * 16 + o % 16;
                let chunk = batch.subrange(128 * c, 128 * c + 128);
                let before = self.emitted_upto(batch, index, k as nat);
                &&& k >= 0
                &&& self.first_nonce() <= nonce < self.end_nonce()
                &&& index + 8 * c + o / 16 <= u64::MAX
                &&& self.pair_at(index, k) == (nonce as u32, (index + 8 * c + o / 16) as u64)
                &&& self.passes_at(batch, k) == (u8s[o] < self.msb() || (u8s[o] == self.msb()
                    && self.lsb_check(block_at(chunk, o / 16), nonce)))
                &&& self.emitted_upto(batch, index, (k + 1) as nat) == if self.passes_at(batch, k) {
                    before.push(self.pair_at(index, k))
                } else {
                    before
                }
            }),
    {
        let k = position(c, g, o, self.groups());
        let chunk = batch.subrange(128 * c, 128 * c + 128);
        lemma_position(c, g, o, self.groups());
        assert(self.primary()[g].nonce_group == self.primary()[0].nonce_group + g);
        assert(label(batch, 8 * c + o / 16) =~= block_at(chunk, o / 16));
        assert(u8s[o] == block_at(u8s, o / 16)[o % 16]);
        let rel = 16 * g + o % 16;
        assert(rel / 16 == g && rel % 16 == o % 16);
    }

    /// Every place on a whole chunk of `batch` is one of the places of its scan.
    proof fn lemma_emitted_within(&self, batch: Seq<u8>, c: int, g: int, o: int)
        requires
            0 <= c < batch.len() / 128,
            0 <= g < self.groups(),
            0 <= o < 128,
        ensures
            0 <= position(c, g, o, self.groups()) < self.places(batch),
    {
        reveal(position);
        let groups = self.groups();
        let chunks = (batch.len() / 128) as int;
        assert((c * groups + g) * 128 + o < (chunks * groups + 0) * 128 + 0
            && (c * groups + g) * 128 + o >= 0
            && (chunks * groups + 0) * 128 + 0 >= 0) by (nonlinear_arith)
            requires
                0 <= c < chunks,
                0 <= g < groups,
                0 <= o < 128,
        ;
    }

    /// Splits a difficulty into its top byte and its low 56 bits.
    pub fn split_difficulty(difficulty: u64) -> (split: (u8, u64))
        ensures
            split.0 == difficulty >> 56,
            split.1 == difficulty & LSB_MASK,
            split.1 <= LSB_MASK,
            ((split.0 as u64) << 56) | split.1 == difficulty,
    {
        assert((difficulty >> 56) <= 0xff) by (bit_vector);
        assert((difficulty & 0x00ff_ffff_ffff_ffff) <= 0x00ff_ffff_ffff_ffff) by (bit_vector);
        assert((((difficulty >> 56) as u8 as u64) << 56) | (difficulty & 0x00ff_ffff_ffff_ffff)
            == difficulty) by (bit_vector);
        ((difficulty >> 56) as u8, difficulty & LSB_MASK)
    }

    /// The first nonce of the prover's range.
    fn start(&self) -> (first: u32)
        requires
            self.inv(),
        ensures
            first == self.first_nonce(),
    {
        self.ciphers[0].nonce_group * Self::NONCES_PER_AES
    }

    /// The primary cipher of `nonce`, if the prover covers `nonce`.
    pub fn cipher(&self, nonce: u32) -> (r: Option<&AesCipher>)
        requires
            self.inv(),
        ensures
            r == match self.primary_for(nonce) {
                Some(c) => Some(&c),
                None => None,
            },
    {
        let first = self.start();
        if nonce < first || (nonce - first) as usize >= self.lazy_ciphers.len() {
            return None;
        }
        Some(&self.ciphers[calc_nonce_group(nonce - first, Self::NONCES_PER_AES)])
    }

    /// The secondary cipher of `nonce`, if the prover covers `nonce`.
    pub fn lazy_cipher(&self, nonce: u32) -> (r: Option<&AesCipher>)
        requires
            self.inv(),
        ensures
            r == match self.lazy_for(nonce) {
                Some(c) => Some(&c),
                None => None,
            },
    {
        let first = self.start();
        if nonce < first || (nonce - first) as usize >= self.lazy_ciphers.len() {
            return None;
        }
        Some(&self.lazy_ciphers[(nonce - first) as usize])
    }

    /// The second stage: encrypts `label` with the secondary cipher of `nonce`
    /// and compares the low 56 bits of the first word with the difficulty's.
    pub fn check_lsb(&self, label: &[u8], nonce: u32) -> (pass: bool)
        requires
            self.inv(),
            label@.len() == 16,
            self.first_nonce() <= nonce < self.end_nonce(),
        ensures
            pass == self.lsb_check(label@, nonce as int),
    {
        let first = self.start();
        let lazy = &self.lazy_ciphers[(nonce - first) as usize];
        let mut out: Vec<u8> = vec![0u8; BLOCK_SIZE];
        aes128_encrypt_blocks(&lazy.key, label, &mut out);
        assert(block_at(label@, 0) =~= label@);
        assert(block_at(out@, 0) =~= out@);
        lsb_passes(out.as_slice(), self.difficulty_lsb)
    }

    /// Whether `pow_prover` may give `answer` when it is asked for the proof
    /// of work of `group` under `params`: with the first eight bytes of
    /// `challenge` and the threshold of the proof of work.
    pub open spec fn answered<P: pow::Prover>(
        pow_prover: &P,
        challenge: [u8; 32],
        params: ProvingParams,
        group: u32,
        answer: Result<u64, pow::Error>,
    ) -> bool {
        call_ensures(
            P::prove,
            (pow_prover, group, &spec_challenge_prefix(challenge), &params.pow_difficulty),
            answer,
        )
    }

    /// Whether `pow_prover` may give a proof of work for `group`.
    pub open spec fn succeeds<P: pow::Prover>(
        pow_prover: &P,
        challenge: [u8; 32],
        params: ProvingParams,
        group: u32,
    ) -> bool {
        exists|pow: u64|
            Self::answered(pow_prover, challenge, params, group, Ok::<u64, pow::Error>(pow))
    }

    /// Whether `pow_prover` gives one answer only to each question.
    pub open spec fn deterministic<P: pow::Prover>(
        pow_prover: &P,
        challenge: [u8; 32],
        params: ProvingParams,
    ) -> bool {
        forall|group: u32, a: Result<u64, pow::Error>, b: Result<u64, pow::Error>|
            #![trigger
                Self::answered(pow_prover, challenge, params, group, a),
                Self::answered(pow_prover, challenge, params, group, b),
            ]
            Self::answered(pow_prover, challenge, params, group, a) && Self::answered(
                pow_prover,
                challenge,
                params,
                group,
                b,
            ) ==> a == b
    }

    /// Whether `group` is the first group of `nonces`, in order, for which
    /// `pow_prover` gave no proof of work, but failed with `cause`.
    pub open spec fn fails_first<P: pow::Prover>(
        pow_prover: &P,
        challenge: [u8; 32],
        params: ProvingParams,
        nonces: Range<u32>,
        group: u32,
        cause: pow::Error,
    ) -> bool {
        &&& nonces.start / 16 <= group < nonces.end / 16
        &&& Self::answered(pow_prover, challenge, params, group, Err::<u64, pow::Error>(cause))
        &&& forall|earlier: u32|
            nonces.start / 16 <= earlier < group ==> #[trigger] Self::succeeds(
                pow_prover,
                challenge,
                params,
                earlier,
            )
    }

    /// Whether the prover is the one for `nonces`: its ciphers are keyed from
    /// `challenge` and the proofs of work that `pow_prover` gave for the
    /// groups of `nonces`, and its stages split the difficulty of `params`.
    pub open spec fn keyed_for<P: pow::Prover>(
        &self,
        challenge: [u8; 32],
        nonces: Range<u32>,
        params: ProvingParams,
        pow_prover: &P,
    ) -> bool {
        &&& self.first_nonce() == nonces.start
        &&& self.end_nonce() == nonces.end
        &&& self.primary().len() == (nonces.end - nonces.start) / 16
        &&& forall|i: int|
            0 <= i < self.primary().len() ==> {
                let cipher = #[trigger] self.primary()[i];
                let group = (nonces.start / 16 + i) as u32;
                &&& Self::answered(
                    pow_prover,
                    challenge,
                    params,
                    group,
                    Ok::<u64, pow::Error>(cipher.pow),
                )
                &&& cipher.nonce_group == group
                &&& cipher.key@ == primary_key(challenge@, group, cipher.pow)
            }
        &&& forall|j: int|
            0 <= j < self.lazy().len() ==> {
                let cipher = #[trigger] self.lazy()[j];
                &&& cipher.nonce_group == nonces.start / 16 + j / 16
                &&& cipher.pow == self.primary()[j / 16].pow
                &&& cipher.key@ == lazy_key(
                    challenge@,
                    (nonces.start + j) as u32,
                    cipher.nonce_group,
                    cipher.pow,
                )
            }
        &&& self.msb() == params.difficulty >> 56
        &&& self.lsb() == params.difficulty & LSB_MASK
        &&& self.difficulty() == params.difficulty
    }

    /// Makes the prover for the nonces `nonces`, with a proof of work from
    /// `pow_prover` for each of their groups.
    ///
    /// Fails with `InvalidNonceRange` unless `nonces` is a non-empty range of
    /// whole nonce groups, and otherwise with the error of the first group,
    /// in order, for which `pow_prover` gives no proof of work. With a
    /// `pow_prover` that gives one answer only to each question, it succeeds
    /// exactly when there is a proof of work for every group.
    #[verifier::loop_isolation(false)]
    pub fn new<P: pow::Prover>(
        challenge: &[u8; 32],
        nonces: Range<u32>,
        params: ProvingParams,
        pow_prover: &P,
    ) -> (r: Result<Self, Error>)
        ensures
            !valid_nonces(nonces) ==> r == Err::<Self, Error>(Error::InvalidNonceRange),
            valid_nonces(nonces) ==> match r {
                Ok(prover) => prover.inv() && prover.keyed_for(
                    *challenge,
                    nonces,
                    params,
                    pow_prover,
                ),
                Err(Error::PoWFailed(cause)) => exists|group: u32|
                    Self::fails_first(pow_prover, *challenge, params, nonces, group, cause),
                Err(_) => false,
            },
            valid_nonces(nonces) && Self::deterministic(pow_prover, *challenge, params) ==> (r is Ok
                <==> forall|group: u32|
                nonces.start / 16 <= group < nonces.end / 16 ==> #[trigger] Self::succeeds(
                    pow_prover,
                    *challenge,
                    params,
                    group,
                )),
    {
        if nonces.start % Self::NONCES_PER_AES != 0 {
            return Err(Error::InvalidNonceRange);
        }
        if nonces.start >= nonces.end || (nonces.end - nonces.start) % Self::NONCES_PER_AES != 0 {
            return Err(Error::InvalidNonceRange);
        }
        let prefix = challenge_prefix(challenge);
        let groups = nonce_group_range(nonces.start..nonces.end, Self::NONCES_PER_AES);
        assert(groups.end == nonces.end / 16);
        let mut ciphers: Vec<AesCipher> = Vec::new();
        let mut group: u32 = groups.start;
        while group < groups.end
            invariant
                groups.start <= group <= groups.end,
                ciphers@.len() == group - groups.start,
                forall|i: int|
                    0 <= i < ciphers@.len() ==> {
                        let cipher = #[trigger] ciphers@[i];
                        let g = (nonces.start / 16 + i) as u32;
                        &&& Self::answered(
                            pow_prover,
                            *challenge,
                            params,
                            g,
                            Ok::<u64, pow::Error>(cipher.pow),
                        )
                        &&& cipher.nonce_group == g
                        &&& cipher.key@ == primary_key(challenge@, g, cipher.pow)
                    },
            decreases groups.end - group,
        {
            match pow_prover.prove(group, &prefix, &params.pow_difficulty) {
                Ok(pow) => {
                    ciphers.push(AesCipher::new(challenge, group, pow));
                },
                Err(cause) => {
                    proof {
                        assert forall|earlier: u32|
                            nonces.start / 16 <= earlier < group implies #[trigger] Self::succeeds(
                            pow_prover,
                            *challenge,
                            params,
                            earlier,
                        ) by {
                            let cipher = ciphers@[earlier - nonces.start / 16];
                            assert(Self::answered(
                                pow_prover,
                                *challenge,
                                params,
                                earlier,
                                Ok::<u64, pow::Error>(cipher.pow),
                            ));
                        }
                        assert(Self::fails_first(
                            pow_prover,
                            *challenge,
                            params,
                            nonces,
                            group,
                            cause,
                        ));
                        if Self::deterministic(pow_prover, *challenge, params) {
                            if Self::succeeds(pow_prover, *challenge, params, group) {
                                let pow = choose|pow: u64|
                                    Self::answered(
                                        pow_prover,
                                        *challenge,
                                        params,
                                        group,
                                        Ok::<u64, pow::Error>(pow),
                                    );
                                assert(Ok::<u64, pow::Error>(pow) == Err::<u64, pow::Error>(cause));
                            }
                        }
                    }
                    return Err(Error::PoWFailed(cause));
                },
            }
            group += 1;
        }
        let mut lazy_ciphers: Vec<AesCipher> = Vec::new();
        let mut nonce: u32 = nonces.start;
        while nonce < nonces.end
            invariant
                nonces.start <= nonce <= nonces.end,
                ciphers@.len() == nonces.end / 16 - nonces.start / 16,
                lazy_ciphers@.len() == nonce - nonces.start,
                forall|j: int|
                    0 <= j < lazy_ciphers@.len() ==> {
                        let cipher = #[trigger] lazy_ciphers@[j];
                        &&& cipher.nonce_group == nonces.start / 16 + j / 16
                        &&& cipher.pow == ciphers@[j / 16].pow
                        &&& cipher.key@ == lazy_key(
                            challenge@,
                            (nonces.start + j) as u32,
                            cipher.nonce_group,
                            cipher.pow,
                        )
                    },
            decreases nonces.end - nonce,
        {
            let nonce_group = calc_nonce_group(nonce, Self::NONCES_PER_AES);
            let pow = ciphers[nonce_group - groups.start as usize].pow;
            lazy_ciphers.push(AesCipher::new_lazy(challenge, nonce, nonce_group as u32, pow));
            nonce += 1;
        }
        let (difficulty_msb, difficulty_lsb) = Self::split_difficulty(params.difficulty);
        let prover = Self { ciphers, lazy_ciphers, difficulty_msb, difficulty_lsb };
        proof {
            assert forall|g: u32| nonces.start / 16 <= g < nonces.end / 16 implies #[trigger] Self::succeeds(
                pow_prover,
                *challenge,
                params,
                g,
            ) by {
                let cipher = prover.primary()[g - nonces.start / 16];
                assert(Self::answered(
                    pow_prover,
                    *challenge,
                    params,
                    g,
                    Ok::<u64, pow::Error>(cipher.pow),
                ));
            }
        }
        Ok(prover)
    }
}

/// The first eight bytes of a challenge, which the proof of work is bound to.
pub open spec fn spec_challenge_prefix(challenge: [u8; 32]) -> [u8; 8] {
    [
        challenge[0],
        challenge[1],
        challenge[2],
        challenge[3],
        challenge[4],
        challenge[5],
        challenge[6],
        challenge[7],
    ]
}

/// The first eight bytes of a challenge, which the proof of work is bound to.
pub fn challenge_prefix(challenge: &[u8; 32]) -> (prefix: [u8; 8])
    ensures
        prefix == spec_challenge_prefix(*challenge),
        prefix@ == challenge@.subrange(0, 8),
{
    let prefix: [u8; 8] = [
        challenge[0],
        challenge[1],
        challenge[2],
        challenge[3],
        challenge[4],
        challenge[5],
        challenge[6],
        challenge[7],
    ];
    assert(prefix@ =~= challenge@.subrange(0, 8));
    prefix
}

impl Prover for Prover8_56 {
    open spec fn wf(&self) -> bool {
        self.inv()
    }

    open spec fn emissions(&self, batch: Seq<u8>, index: u64) -> Seq<(u32, u64)> {
        self.emitted_upto(batch, index, self.places(batch))
    }

    open spec fn pow_of(&self, nonce: u32) -> Option<u64> {
        match self.primary_for(nonce) {
            Some(cipher) => Some(cipher.pow),
            None => None,
        }
    }

    fn get_pow(&self, nonce: u32) -> (r: Option<u64>) {
        match self.cipher(nonce) {
            Some(aes) => Some(aes.pow),
            None => None,
        }
    }

    #[verifier::loop_isolation(false)]
    fn prove<F>(&self, batch: &[u8], index: u64, mut consume: F) -> (r: Option<(u32, Vec<u64>)>) where
        F: FnMut(u32, u64) -> Option<Vec<u64>>,
     {
        let ghost given = consume;
        let ghost groups = self.groups();
        let mut u8s: Vec<u8> = vec![0u8; CHUNK_SIZE];
        let chunks: usize = batch.len() / CHUNK_SIZE;
        let mut base: u64 = index;
        let mut c: usize = 0;
        proof {
            lemma_position_order(0, 0, 0, groups);
        }
        while c < chunks
            invariant
                c <= chunks,
                consume == given,
                u8s@.len() == 128,
                base == index + 8 * c,
                declined(
                    consume,
                    self.emitted_upto(batch@, index, position(c as int, 0, 0, groups) as nat),
                ),
            decreases chunks - c,
        {
            let chunk = slice_subrange(batch, c * CHUNK_SIZE, c * CHUNK_SIZE + CHUNK_SIZE);
            let mut g: usize = 0;
            while g < self.ciphers.len()
                invariant
                    g <= groups,
                    consume == given,
                    u8s@.len() == 128,
                    declined(
                        consume,
                        self.emitted_upto(
                            batch@,
                            index,
                            position(c as int, g as int, 0, groups) as nat,
                        ),
                    ),
                decreases groups - g,
            {
                let cipher = &self.ciphers[g];
                aes128_encrypt_blocks(&cipher.key, chunk, &mut u8s);
                let mut offset: usize = 0;
                while offset < CHUNK_SIZE
                    invariant
                        offset <= 128,
                        consume == given,
                        u8s@.len() == 128,
                        forall|b: int|
                            0 <= b < 8 ==> #[trigger] block_at(u8s@, b) == aes128_block(
                                cipher.key@,
                                block_at(chunk@, b),
                            ),
                        declined(
                            consume,
                            self.emitted_upto(
                                batch@,
                                index,
                                position(c as int, g as int, offset as int, groups) as nat,
                            ),
                        ),
                    decreases 128 - offset,
                {
                    let ghost k = position(c as int, g as int, offset as int, groups);
                    let ghost before = self.emitted_upto(batch@, index, k as nat);
                    proof {
                        self.lemma_place(batch@, index, c as int, g as int, offset as int, u8s@);
                        lemma_position_order(c as int, g as int, offset as int, groups);
                    }
                    let verdict = msb_verdict(u8s[offset], self.difficulty_msb);
                    if verdict != Msb::Above {
                        let nonce = calc_nonce(cipher.nonce_group, Self::NONCES_PER_AES, offset);
                        let pass = if verdict == Msb::Tie {
                            let label_offset = offset / Self::NONCES_PER_AES as usize * LABEL_SIZE;
                            self.check_lsb(
                                slice_subrange(chunk, label_offset, label_offset + LABEL_SIZE),
                                nonce,
                            )
                        } else {
                            true
                        };
                        if pass {
                            let idx = base + (offset / Self::NONCES_PER_AES as usize) as u64;
                            if let Some(indexes) = consume(nonce, idx) {
                                proof {
                                    let all = self.emissions(batch@, index);
                                    lemma_position_order(chunks as int, 0, 0, groups);
                                    self.lemma_emitted_within(batch@, c as int, g as int, offset as int);
                                    self.lemma_emitted_prefix(
                                        batch@,
                                        index,
                                        (k + 1) as nat,
                                        self.places(batch@),
                                    );
                                    let at = before.len() as int;
                                    let upto = self.emitted_upto(batch@, index, (k + 1) as nat);
                                    assert(upto == before.push((nonce, idx)));
                                    assert(upto =~= all.subrange(0, upto.len() as int));
                                    assert(all.subrange(0, upto.len() as int)[at] == upto[at]);
                                    assert(all[at] == (nonce, idx));
                                    assert(all.take(at) =~= before);
                                }
                                return Some((nonce, indexes));
                            }
                            assert(declined(consume, before.push((nonce, idx))));
                        }
                    }
                    offset += 1;
                }
                proof {
                    lemma_position_order(c as int, g as int, 0, groups);
                }
                g += 1;
            }
            proof {
                lemma_position_order(c as int, 0, 0, groups);
            }
            base += AES_BATCH as u64;
            c += 1;
        }
        None
    }
}

} // verus!
