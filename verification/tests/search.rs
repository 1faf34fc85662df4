use post::pow;
use post::prove::{Proof, Prover8_56, ProvingParams};
use post::search::{conclude, first_nonces, label_index, next_nonces, Accumulator};

struct FixedPow(u64);

impl pow::Prover for FixedPow {
    fn prove(&self, nonce_group: u32, _: &[u8; 8], _: &[u8; 32]) -> Result<u64, pow::Error> {
        Ok(self.0 + nonce_group as u64)
    }
}

#[test]
fn accumulator_hands_out_the_indices_of_the_first_nonce_with_k2() {
    let mut acc = Accumulator::new(3);
    assert_eq!(None, acc.consume(7, 10));
    assert_eq!(None, acc.consume(8, 11));
    assert_eq!(None, acc.consume(7, 12));
    assert_eq!(None, acc.consume(8, 13));
    assert_eq!(Some(vec![11, 13, 14]), acc.consume(8, 14));
    assert_eq!(Some(vec![10, 12, 10]), acc.consume(7, 10));
}

#[test]
fn accumulator_starts_over_for_a_nonce_once_it_handed_out() {
    let mut acc = Accumulator::new(2);
    assert_eq!(None, acc.consume(1, 5));
    assert_eq!(Some(vec![5, 6]), acc.consume(1, 6));
    assert_eq!(None, acc.consume(1, 7));
    assert_eq!(Some(vec![7, 8]), acc.consume(1, 8));
}

#[test]
fn accumulator_with_small_k2_hands_out_at_once() {
    let mut acc = Accumulator::new(1);
    assert_eq!(Some(vec![4]), acc.consume(0, 4));
    assert_eq!(Some(vec![5]), acc.consume(0, 5));
    let mut acc = Accumulator::new(0);
    assert_eq!(Some(vec![9]), acc.consume(u32::MAX, 9));
}

#[test]
fn label_index_counts_labels_of_16_bytes() {
    assert_eq!(0, label_index(0));
    assert_eq!(0, label_index(15));
    assert_eq!(1, label_index(16));
    assert_eq!(65536, label_index(1024 * 1024));
    assert_eq!(u64::MAX / 16, label_index(u64::MAX));
}

#[test]
fn nonces_escalate_by_the_same_step() {
    assert_eq!(0..16, first_nonces(16));
    assert_eq!(Some(16..32), next_nonces(&(0..16), 16));
    assert_eq!(Some(32..48), next_nonces(&(16..32), 16));
    assert_eq!(Some(64..128), next_nonces(&(0..64), 64));
    assert_eq!(
        Some(0x0fff_fff0..u32::MAX),
        next_nonces(&(0..0x0fff_fff0), 0xf000_000f)
    );
}

#[test]
fn nonces_are_used_up_at_the_end_of_the_32_bit_range() {
    assert_eq!(None, next_nonces(&(0..0xffff_fff0), 16));
    assert_eq!(None, next_nonces(&(0..u32::MAX), 1));
    assert_eq!(Some(u32::MAX..u32::MAX), next_nonces(&(0..u32::MAX), 0));
}

#[test]
fn concluding_packs_the_indices_with_the_pow_of_the_nonce() {
    let params = ProvingParams {
        difficulty: 0,
        pow_difficulty: [0xff; 32],
    };
    let prover = Prover8_56::new(&[1; 32], 16..48, params, &FixedPow(100)).unwrap();
    assert_eq!(
        Some(Proof {
            nonce: 33,
            indices: vec![0x10, 0x32],
            pow: 102,
        }),
        conclude(&prover, 33, &[0, 1, 2, 3], 16)
    );
    assert_eq!(
        Some(Proof {
            nonce: 16,
            indices: vec![0x88, 0xc6, 0xfa],
            pow: 101,
        }),
        conclude(&prover, 16, &[0, 1, 2, 3, 4, 5, 6, 7], 8)
    );
    assert_eq!(None, conclude(&prover, 15, &[0, 1], 16));
    assert_eq!(None, conclude(&prover, 48, &[0, 1], 16));
}
