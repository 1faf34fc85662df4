//! The proving difficulty: the threshold below which a label's value passes.

use crate::prove::Error;
use vstd::prelude::*;

verus! {

/// The threshold that a 64-bit value picked at random lies below with
/// probability `k1 / num_labels`: `2^64 * k1 / num_labels`, rounded down.
pub open spec fn spec_proving_difficulty(k1: u32, num_labels: u64) -> int {
    (0x1_0000_0000_0000_0000 * k1) / (num_labels as int)
}

/// The threshold is a 64-bit number exactly when `k1` is below `num_labels`.
pub proof fn lemma_difficulty_fits(k1: u32, num_labels: u64)
    requires
        num_labels > 0,
    ensures
        0 <= spec_proving_difficulty(k1, num_labels),
        spec_proving_difficulty(k1, num_labels) <= u64::MAX <==> k1 < num_labels,
{
    let n = num_labels as int;
    let x = 0x1_0000_0000_0000_0000 * k1;
    vstd::arithmetic::div_mod::lemma_fundamental_div_mod(x, n);
    let q = x / n;
    let r = x % n;
    assert(0 <= r < n);
    if k1 < num_labels {
        assert(q < 0x1_0000_0000_0000_0000) by (nonlinear_arith)
            requires
                x == n * q + r,
                0 <= r,
                x <= 0x1_0000_0000_0000_0000 * (n - 1),
                n > 0,
        ;
    } else {
        assert(q >= 0x1_0000_0000_0000_0000) by (nonlinear_arith)
            requires
                x == n * q + r,
                r < n,
                x >= 0x1_0000_0000_0000_0000 * n,
                n > 0,
        ;
    }
    assert(q >= 0) by (nonlinear_arith)
        requires
            x == n * q + r,
            r < n,
            x >= 0,
            n > 0,
    ;
}

/// Calculates the proving difficulty for `k1` good labels among `num_labels`.
///
/// Fails with `DifficultyOverflow` when there are no labels or the threshold
/// is no 64-bit number, which is when `k1` is not below `num_labels`.
pub fn proving_difficulty(k1: u32, num_labels: u64) -> (r: Result<u64, Error>)
    ensures
        r is Ok <==> 0 <= k1 < num_labels,
        match r {
            Ok(difficulty) => difficulty == spec_proving_difficulty(k1, num_labels),
            Err(e) => e == Error::DifficultyOverflow && (num_labels == 0
                || spec_proving_difficulty(k1, num_labels) > u64::MAX),
        },
{
    if num_labels == 0 {
        return Err(Error::DifficultyOverflow);
    }
    proof {
        lemma_difficulty_fits(k1, num_labels);
    }
    if k1 as u64 >= num_labels {
        return Err(Error::DifficultyOverflow);
    }
    let scaled: u128 = (0x1_0000_0000_0000_0000u128 * (k1 as u128)) / (num_labels as u128);
    Ok(scaled as u64)
}

} // verus!
