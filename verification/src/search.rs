//! The decisions of the search for a proof: which indices have been found
//! for each nonce, when they make a proof, and which nonces to try next.

use crate::compression::ceil_log2;
use crate::prove::{Proof, Prover, Prover8_56};
use std::collections::HashMap;
use std::ops::Range;
use vstd::prelude::*;

verus! {

broadcast use vstd::std_specs::hash::group_hash_axioms;

/// The indices of the labels that passed so far, for each nonce.
pub struct Accumulator {
    indexes: HashMap<u32, Vec<u64>>,
    k2: u32,
}

impl Accumulator {
    /// The indices that are held for `nonce`, in the order in which they came.
    pub closed spec fn collected(&self, nonce: u32) -> Seq<u64> {
        if self.indexes@.contains_key(nonce) {
            self.indexes@[nonce]@
        } else {
            Seq::empty()
        }
    }

    /// The number of indices that make a proof.
    pub closed spec fn k2(&self) -> u32 {
        self.k2
    }

    /// An accumulator that holds no index and hands out the indices of a
    /// nonce as soon as there are `k2` of them.
    pub fn new(k2: u32) -> (acc: Self)
        ensures
            acc.k2() == k2,
            forall|nonce: u32| acc.collected(nonce) == Seq::<u64>::empty(),
    {
        Accumulator { indexes: HashMap::new(), k2 }
    }

    /// Records that the label `index` passed for `nonce`. When this makes
    /// `k2` indices for `nonce` or more, hands them out and holds none for
    /// `nonce` any longer.
    pub fn consume(&mut self, nonce: u32, index: u64) -> (r: Option<Vec<u64>>)
        ensures
            final(self).k2() == old(self).k2(),
            forall|other: u32|
                other != nonce ==> final(self).collected(other) == old(self).collected(other),
            match r {
                Some(indexes) => {
                    &&& indexes@ == old(self).collected(nonce).push(index)
                    &&& indexes@.len() >= old(self).k2()
                    &&& final(self).collected(nonce) == Seq::<u64>::empty()
                },
                None => {
                    &&& final(self).collected(nonce) == old(self).collected(nonce).push(index)
                    &&& final(self).collected(nonce).len() < old(self).k2()
                },
            },
    {
        let mut vec = match self.indexes.remove(&nonce) {
            Some(vec) => vec,
            None => Vec::new(),
        };
        vec.push(index);
        if vec.len() >= self.k2 as usize {
            return Some(vec);
        }
        self.indexes.insert(nonce, vec);
        None
    }
}

/// The index of the label that starts at byte `pos` of the label data.
pub fn label_index(pos: u64) -> (index: u64)
    ensures
        index == pos / 16,
{
    pos / 16
}

/// The nonces that the search tries first: `per_iter` nonces from 0 on.
pub fn first_nonces(per_iter: u32) -> (nonces: Range<u32>)
    ensures
        nonces.start == 0,
        nonces.end == per_iter,
{
    0..per_iter
}

/// The nonces that the search tries when none of `nonces` gave a proof: the
/// `per_iter` nonces that follow them, or none when the nonces are used up.
pub fn next_nonces(nonces: &Range<u32>, per_iter: u32) -> (next: Option<Range<u32>>)
    ensures
        match next {
            Some(next) => next.start == nonces.end && next.end == nonces.end + per_iter,
            None => nonces.end + per_iter > u32::MAX,
        },
{
    match nonces.end.checked_add(per_iter) {
        Some(end) => Some(nonces.end..end),
        None => None,
    }
}

/// The proof that the indices `indices`, found for `nonce`, make: the
/// indices packed, with the proof of work of the nonce's group. There is
/// none for a nonce that `prover` does not cover.
pub fn conclude(prover: &Prover8_56, nonce: u32, indices: &[u64], num_labels: u64) -> (r: Option<
    Proof,
>)
    requires
        prover.wf(),
        indices@.len() * ceil_log2(num_labels as nat) + 7 <= usize::MAX,
    ensures
        match r {
            Some(proof) => prover.pow_of(nonce) == Some(proof.pow) && proof.is_for(
                nonce,
                indices@,
                num_labels,
                proof.pow,
            ),
            None => prover.pow_of(nonce) is None,
        },
{
    match prover.get_pow(nonce) {
        Some(pow) => Some(Proof::new(nonce, indices, num_labels, pow)),
        None => None,
    }
}

} // verus!
