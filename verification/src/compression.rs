//! Packing label indices into a stream of bits, each index in the same
//! number of bits, least significant bit first and without separators.

use vstd::arithmetic::div_mod::{
    lemma_breakdown,
    lemma_div_denominator,
    lemma_fundamental_div_mod,
    lemma_fundamental_div_mod_converse,
    lemma_small_mod,
};
use vstd::arithmetic::power2::{
    lemma2_to64,
    lemma2_to64_rest,
    lemma_pow2_pos,
    lemma_pow2_strictly_increases,
    lemma_pow2_unfold,
    pow2,
};
use vstd::prelude::*;

verus! {

/// The least number of bits in which every value below `value` can be
/// written: the logarithm of `value` to the base 2, rounded up.
pub open spec fn ceil_log2(value: nat) -> nat
    decreases value,
{
    if value <= 1 {
        0
    } else {
        1 + ceil_log2((value + 1) / 2)
    }
}

/// The logarithm rounded up is the least number of bits whose power of two
/// reaches `value`.
pub proof fn lemma_ceil_log2(value: nat)
    ensures
        value <= pow2(ceil_log2(value)),
        value > 1 ==> pow2((ceil_log2(value) - 1) as nat) < value,
    decreases value,
{
    lemma2_to64();
    if value > 1 {
        let half = (value + 1) / 2;
        lemma_ceil_log2(half);
        lemma_pow2_unfold(ceil_log2(value));
        if half > 1 {
            lemma_pow2_unfold(ceil_log2(half));
        }
    }
}

/// The binary digit of weight `2^b` in `x`.
pub open spec fn bit_of(x: nat, b: nat) -> bool {
    (x / pow2(b)) % 2 == 1
}

/// The bit at place `j` of the stream `s`; past its end a stream reads as zeros.
pub open spec fn stream_bit(s: Seq<bool>, j: int) -> bool {
    0 <= j < s.len() && s[j]
}

/// The number that the `n` bits of `s` from place `start` on spell, least
/// significant bit first.
pub open spec fn value_at(s: Seq<bool>, start: int, n: nat) -> nat
    decreases n,
{
    if n == 0 {
        0
    } else {
        value_at(s, start, (n - 1) as nat) + if stream_bit(s, start + n - 1) {
            pow2((n - 1) as nat)
        } else {
            0
        }
    }
}

/// The stream of bits that holds, one after the other, the low `bits` bits
/// of each index, least significant bit first.
pub open spec fn index_bits(indexes: Seq<u64>, bits: nat) -> Seq<bool> {
    Seq::new(
        indexes.len() * bits,
        |j: int| bit_of(indexes[j / (bits as int)] as nat, (j % (bits as int)) as nat),
    )
}

/// The stream of the bits of `data`, each byte least significant bit first.
pub open spec fn byte_bits(data: Seq<u8>) -> Seq<bool> {
    Seq::new(8 * data.len(), |j: int| bit_of(data[j / 8] as nat, (j % 8) as nat))
}

/// The number of bytes that hold `n` indices of `bits` bits each.
pub open spec fn compressed_len(n: nat, bits: nat) -> nat {
    ((n * bits + 7) / 8) as nat
}

/// The bytes that hold the stream of `indexes` in `bits` bits each; the bits
/// that are left over in the last byte are zeros.
pub open spec fn compressed(indexes: Seq<u64>, bits: nat) -> Seq<u8> {
    Seq::new(
        compressed_len(indexes.len(), bits),
        |k: int| value_at(index_bits(indexes, bits), 8 * k, 8) as u8,
    )
}

/// The first `count` indices of `bits` bits each that the stream of `data` holds.
pub open spec fn decompressed(data: Seq<u8>, bits: nat, count: nat) -> Seq<u64> {
    Seq::new(count, |i: int| value_at(byte_bits(data), i * bits, bits) as u64)
}

/// `n` bits spell a number below `2^n`.
pub proof fn lemma_value_at_bound(s: Seq<bool>, start: int, n: nat)
    ensures
        value_at(s, start, n) < pow2(n),
    decreases n,
{
    if n == 0 {
        lemma2_to64();
    } else {
        lemma_value_at_bound(s, start, (n - 1) as nat);
        lemma_pow2_unfold(n);
    }
}

/// Bits that are zeros at the top of a number do not change it.
pub proof fn lemma_value_at_zeros(s: Seq<bool>, start: int, m: nat, n: nat)
    requires
        m <= n,
        forall|j: int| start + m <= j < start + n ==> !#[trigger] stream_bit(s, j),
    ensures
        value_at(s, start, n) == value_at(s, start, m),
    decreases n - m,
{
    if m < n {
        lemma_value_at_zeros(s, start, m, (n - 1) as nat);
    }
}

/// Two streams that agree on `n` bits spell the same number there.
pub proof fn lemma_value_at_agree(s: Seq<bool>, t: Seq<bool>, start: int, n: nat)
    requires
        forall|j: int| start <= j < start + n ==> #[trigger] stream_bit(s, j) == stream_bit(t, j),
    ensures
        value_at(s, start, n) == value_at(t, start, n),
    decreases n,
{
    if n > 0 {
        lemma_value_at_agree(s, t, start, (n - 1) as nat);
    }
}

/// The digits of the number that `n` bits spell are those bits.
pub proof fn lemma_value_at_digit(s: Seq<bool>, start: int, n: nat, b: nat)
    requires
        b < n,
    ensures
        bit_of(value_at(s, start, n), b) == stream_bit(s, start + b),
    decreases n,
{
    let low = value_at(s, start, (n - 1) as nat);
    let top: int = if stream_bit(s, start + n - 1) {
        1
    } else {
        0
    };
    let v = value_at(s, start, n);
    lemma_pow2_pos(b);
    lemma_pow2_pos((n - 1) as nat);
    lemma_value_at_bound(s, start, (n - 1) as nat);
    assert(v == low + top * pow2((n - 1) as nat)) by (nonlinear_arith)
        requires
            v == low + if top == 1 {
                pow2((n - 1) as nat)
            } else {
                0
            },
            top == 0 || top == 1,
    ;
    if b == n - 1 {
        assert(v == top * pow2(b) + low) by (nonlinear_arith)
            requires
                v == low + top * pow2(b),
        ;
        lemma_fundamental_div_mod_converse(v as int, pow2(b) as int, top, low as int);
    } else {
        lemma_value_at_digit(s, start, (n - 1) as nat, b);
        let p = pow2(b) as int;
        let gap = (n - 2 - b) as nat;
        vstd::arithmetic::power2::lemma_pow2_adds(b, (gap + 1) as nat);
        lemma_pow2_unfold((gap + 1) as nat);
        let q = low as int / p;
        let r = low as int % p;
        lemma_fundamental_div_mod(low as int, p);
        let m = top * 2 * pow2(gap);
        assert(v == (q + m) * p + r) by (nonlinear_arith)
            requires
                v == low + top * pow2((n - 1) as nat),
                pow2((n - 1) as nat) == pow2(b) * (2 * pow2(gap)),
                p == pow2(b),
                low == p * q + r,
                m == top * 2 * pow2(gap),
        ;
        lemma_fundamental_div_mod_converse(v as int, p, q + m, r);
        assert((q + m) % 2 == q % 2) by (nonlinear_arith)
            requires
                m == top * 2 * pow2(gap),
                top == 0 || top == 1,
        ;
    }
}

/// The low `n` digits of `x` spell `x` modulo `2^n`.
pub proof fn lemma_value_of_digits(s: Seq<bool>, start: int, n: nat, x: nat)
    requires
        forall|j: int|
            start <= j < start + n ==> #[trigger] stream_bit(s, j) == bit_of(x, (j - start) as nat),
    ensures
        value_at(s, start, n) == x % pow2(n),
    decreases n,
{
    if n == 0 {
        lemma2_to64();
    } else {
        let m = (n - 1) as nat;
        lemma_value_of_digits(s, start, m, x);
        lemma_pow2_pos(m);
        lemma_pow2_unfold(n);
        lemma_breakdown(x as int, pow2(m) as int, 2);
        assert(stream_bit(s, start + m) == bit_of(x, m));
        let d = (x as int / pow2(m) as int) % 2;
        assert(pow2(m) * d == if d == 1 {
            pow2(m)
        } else {
            0
        }) by (nonlinear_arith)
            requires
                d == 0 || d == 1,
        ;
    }
}

/// The place of a bit of an index in the stream gives back the index and the bit.
pub proof fn lemma_index_bit(indexes: Seq<u64>, bits: nat, i: int, b: int)
    requires
        0 <= i < indexes.len(),
        0 <= b < bits,
    ensures
        0 <= i * bits + b < indexes.len() * bits,
        stream_bit(index_bits(indexes, bits), i * bits + b) == bit_of(
            indexes[i] as nat,
            b as nat,
        ),
{
    let j = i * bits + b;
    assert(0 <= j < indexes.len() * bits) by (nonlinear_arith)
        requires
            j == i * bits + b,
            0 <= i < indexes.len(),
            0 <= b < bits,
    ;
    lemma_fundamental_div_mod_converse(j, bits as int, i, b);
}

/// The stream of the compressed bytes is the stream of the indices, followed
/// by zeros only.
pub proof fn lemma_compressed_bits(indexes: Seq<u64>, bits: nat, j: int)
    ensures
        stream_bit(byte_bits(compressed(indexes, bits)), j) == stream_bit(
            index_bits(indexes, bits),
            j,
        ),
{
    let s = index_bits(indexes, bits);
    let data = compressed(indexes, bits);
    if 0 <= j < 8 * data.len() {
        let k = j / 8;
        let b = (j % 8) as nat;
        lemma_value_at_digit(s, 8 * k, 8, b);
        lemma_value_at_bound(s, 8 * k, 8);
        lemma2_to64();
        assert(data[k] as nat == value_at(s, 8 * k, 8));
    }
}

/// Indices that fit in `bits` bits are the ones that their compressed form
/// decompresses to.
pub proof fn lemma_compress_decompress(indexes: Seq<u64>, bits: nat)
    requires
        bits <= 64,
        forall|i: int| 0 <= i < indexes.len() ==> (#[trigger] indexes[i]) < pow2(bits),
    ensures
        decompressed(compressed(indexes, bits), bits, indexes.len()) == indexes,
{
    let s = index_bits(indexes, bits);
    let data = compressed(indexes, bits);
    let back = decompressed(data, bits, indexes.len());
    assert forall|i: int| 0 <= i < indexes.len() implies back[i] == indexes[i] by {
        let x = indexes[i] as nat;
        assert forall|j: int| i * bits <= j < i * bits + bits implies #[trigger] stream_bit(
            byte_bits(data),
            j,
        ) == stream_bit(s, j) by {
            lemma_compressed_bits(indexes, bits, j);
        }
        lemma_value_at_agree(byte_bits(data), s, i * bits, bits);
        assert forall|j: int| i * bits <= j < i * bits + bits implies #[trigger] stream_bit(s, j)
            == bit_of(x, (j - i * bits) as nat) by {
            lemma_index_bit(indexes, bits, i, j - i * bits);
        }
        lemma_value_of_digits(s, i * bits, bits, x);
        lemma_small_mod(x, pow2(bits));
    }
    assert(back =~= indexes);
}

/// The number of bits in which each index into `value` labels is written.
pub fn required_bits(value: u64) -> (bits: usize)
    ensures
        bits == ceil_log2(value as nat),
        bits <= 64,
{
    let mut bits: usize = 0;
    let mut rest: u64 = value;
    proof {
        lemma2_to64();
        lemma2_to64_rest();
    }
    while rest > 1
        invariant
            bits + ceil_log2(rest as nat) == ceil_log2(value as nat),
            bits <= 64,
            rest as nat <= pow2((64 - bits) as nat),
        decreases rest,
    {
        proof {
            lemma2_to64();
            if bits < 64 {
                lemma_pow2_unfold((64 - bits) as nat);
            }
        }
        rest = rest / 2 + rest % 2;
        bits += 1;
    }
    bits
}

/// Halving a number moves each of its digits one place down.
proof fn lemma_halve(x: nat, b: nat)
    ensures
        (x / pow2(b)) / 2 == x / pow2(b + 1),
{
    lemma_pow2_pos(b);
    lemma_pow2_unfold(b + 1);
    lemma_div_denominator(x as int, pow2(b) as int, 2);
}

/// Packs `indexes` into bytes, each index in its low `keep_bits` bits.
#[verifier::loop_isolation(false)]
pub fn compress_indices(indexes: &[u64], keep_bits: usize) -> (out: Vec<u8>)
    requires
        keep_bits <= 64,
        indexes@.len() * keep_bits + 7 <= usize::MAX,
    ensures
        out@ == compressed(indexes@, keep_bits as nat),
{
    let ghost bits = keep_bits as nat;
    let ghost s = index_bits(indexes@, bits);
    let mut out: Vec<u8> = Vec::new();
    let mut byte: u8 = 0;
    let mut weight: u8 = 1;
    let mut filled: usize = 0;
    let mut i: usize = 0;
    proof {
        lemma2_to64();
    }
    while i < indexes.len()
        invariant
            i <= indexes@.len(),
            filled < 8,
            8 * out@.len() + filled == i * bits,
            weight == pow2(filled as nat),
            byte == value_at(s, 8 * out@.len() as int, filled as nat),
            forall|k: int| 0 <= k < out@.len() ==> out@[k] == value_at(s, 8 * k, 8) as u8,
        decreases indexes@.len() - i,
    {
        let mut rest: u64 = indexes[i];
        let mut b: usize = 0;
        proof {
            lemma2_to64();
        }
        while b < keep_bits
            invariant
                b <= keep_bits,
                filled < 8,
                rest == indexes@[i as int] as nat / pow2(b as nat),
                8 * out@.len() + filled == i * bits + b,
                weight == pow2(filled as nat),
                byte == value_at(s, 8 * out@.len() as int, filled as nat),
                forall|k: int| 0 <= k < out@.len() ==> out@[k] == value_at(s, 8 * k, 8) as u8,
            decreases keep_bits - b,
        {
            proof {
                lemma2_to64();
                lemma_index_bit(indexes@, bits, i as int, b as int);
                lemma_value_at_bound(s, 8 * out@.len() as int, filled as nat);
                lemma_value_at_bound(s, 8 * out@.len() as int, (filled + 1) as nat);
                lemma_pow2_unfold((filled + 1) as nat);
                lemma_pow2_strictly_increases(filled as nat, 8);
                lemma_halve(indexes@[i as int] as nat, b as nat);
            }
            if rest % 2 == 1 {
                byte = byte + weight;
            }
            rest = rest / 2;
            filled += 1;
            if filled == 8 {
                out.push(byte);
                byte = 0;
                weight = 1;
                filled = 0;
            } else {
                weight = weight * 2;
            }
            b += 1;
        }
        assert(i * bits + bits == (i + 1) * bits) by (nonlinear_arith);
        i += 1;
    }
    if filled > 0 {
        proof {
            lemma_value_at_zeros(s, 8 * out@.len() as int, filled as nat, 8);
        }
        out.push(byte);
    }
    assert(out@ =~= compressed(indexes@, bits));
    out
}

/// The weights of the 64 digits of a word, and of one digit more.
proof fn lemma_weight(b: nat)
    requires
        b <= 64,
    ensures
        b < 64 ==> pow2(b) <= 0x8000_0000_0000_0000,
        pow2(b) <= 0x1_0000_0000_0000_0000,
        pow2(0) == 1,
        pow2(b + 1) == 2 * pow2(b),
{
    lemma2_to64();
    lemma_pow2_unfold(b + 1);
    if b < 64 {
        lemma_pow2_strictly_increases(b, 64);
    }
    if b < 63 {
        lemma_pow2_strictly_increases(b + 1, 64);
    }
}

/// The bit of a stream of bytes at the place of digit `taken` of byte `cur`.
proof fn lemma_byte_bit(data: Seq<u8>, cur: int, taken: int)
    requires
        0 <= cur,
        0 <= taken < 8,
    ensures
        stream_bit(byte_bits(data), 8 * cur + taken) == (cur < data.len() && bit_of(
            data[cur] as nat,
            taken as nat,
        )),
{
}

/// Unpacks the first `count` indices of `keep_bits` bits each from `indexes`.
/// Past the end of `indexes` the stream goes on with zeros.
pub fn decompress_indexes(indexes: &[u8], keep_bits: usize, count: usize) -> (out: Vec<u64>)
    requires
        keep_bits <= 64,
        count * keep_bits <= usize::MAX,
    ensures
        out@ == decompressed(indexes@, keep_bits as nat, count as nat),
{
    let ghost bits = keep_bits as nat;
    let ghost s = byte_bits(indexes@);
    let mut out: Vec<u64> = Vec::new();
    let mut cur: usize = 0;
    let mut taken: usize = 0;
    let mut rest: u8 = if indexes.len() > 0 {
        indexes[0]
    } else {
        0
    };
    let mut i: usize = 0;
    proof {
        lemma_weight(0);
    }
    while i < count
        invariant
            bits == keep_bits <= 64,
            s == byte_bits(indexes@),
            count * keep_bits <= usize::MAX,
            i <= count,
            taken < 8,
            8 * cur + taken == i * bits,
            rest == (if cur < indexes@.len() {
                indexes@[cur as int] as nat / pow2(taken as nat)
            } else {
                0
            }),
            out@ == decompressed(indexes@, bits, i as nat),
        decreases count - i,
    {
        let mut value: u64 = 0;
        let mut weight: u64 = 1;
        let mut b: usize = 0;
        proof {
            lemma_weight(0);
            assert(i * bits + bits <= count * bits) by (nonlinear_arith)
                requires
                    i < count,
            ;
        }
        let ghost first = i * bits;
        while b < keep_bits
            invariant
                bits == keep_bits <= 64,
                s == byte_bits(indexes@),
                first + bits <= usize::MAX,
                b <= keep_bits,
                taken < 8,
                8 * cur + taken == first + b,
                rest == (if cur < indexes@.len() {
                    indexes@[cur as int] as nat / pow2(taken as nat)
                } else {
                    0
                }),
                value == value_at(s, first as int, b as nat),
                b < 64 ==> weight == pow2(b as nat),
            decreases keep_bits - b,
        {
            proof {
                lemma_weight(b as nat);
                lemma_weight((b + 1) as nat);
                lemma_weight(0);
                lemma_value_at_bound(s, first as int, b as nat);
                lemma_byte_bit(indexes@, cur as int, taken as int);
                if cur < indexes@.len() {
                    lemma_halve(indexes@[cur as int] as nat, taken as nat);
                }
            }
            if rest % 2 == 1 {
                value = value + weight;
            }
            rest = rest / 2;
            taken += 1;
            if taken == 8 {
                cur += 1;
                taken = 0;
                rest = if cur < indexes.len() {
                    indexes[cur]
                } else {
                    0
                };
            }
            b += 1;
            if b < 64 {
                weight = weight * 2;
            }
        }
        out.push(value);
        proof {
            assert(i * bits + bits == (i + 1) * bits) by (nonlinear_arith);
            assert(out@ =~= decompressed(indexes@, bits, (i + 1) as nat));
        }
        i += 1;
    }
    out
}

} // verus!
