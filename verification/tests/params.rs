use post::config::Config;
use post::difficulty::proving_difficulty;
use post::metadata::PostMetadata;
use post::prove::{Error, Prover8_56, ProvingParams};

#[test]
fn difficulty_is_the_share_of_good_labels_of_the_64_bit_range() {
    assert_eq!(Ok(1 << 63), proving_difficulty(1, 2));
    assert_eq!(Ok(1 << 62), proving_difficulty(1, 4));
    assert_eq!(Ok(0x0800_0000_0000_0000), proving_difficulty(4, 128));
    assert_eq!(Ok(0x003e_8000_0000_0000), proving_difficulty(1000, 1024 * 1024));
    assert_eq!(Ok(5146641596564964900), proving_difficulty(279, 1000));
    assert_eq!(Ok(7905747460161236406), proving_difficulty(3, 7));
    assert_eq!(Ok(0), proving_difficulty(0, 1));
    assert_eq!(
        Ok(18446744069414584320),
        proving_difficulty(u32::MAX, 1 << 32)
    );
    assert_eq!(Ok(1), proving_difficulty(1, u64::MAX));
}

#[test]
fn difficulty_needs_more_labels_than_k1() {
    assert_eq!(Err(Error::DifficultyOverflow), proving_difficulty(1, 0));
    assert_eq!(Err(Error::DifficultyOverflow), proving_difficulty(0, 0));
    assert_eq!(Err(Error::DifficultyOverflow), proving_difficulty(1, 1));
    assert_eq!(Err(Error::DifficultyOverflow), proving_difficulty(2, 1));
    assert_eq!(
        Err(Error::DifficultyOverflow),
        proving_difficulty(u32::MAX, u32::MAX as u64)
    );
}

#[test]
fn difficulty_splits_into_top_byte_and_low_56_bits() {
    assert_eq!((0, 0), Prover8_56::split_difficulty(0));
    assert_eq!(
        (0xff, 0x00ff_ffff_ffff_ffff),
        Prover8_56::split_difficulty(u64::MAX)
    );
    assert_eq!(
        (0x08, 0),
        Prover8_56::split_difficulty(0x0800_0000_0000_0000)
    );
    assert_eq!(
        (0x12, 0x0034_5678_9abc_def0),
        Prover8_56::split_difficulty(0x1234_5678_9abc_def0)
    );
    assert_eq!(
        (0, 0x00ff_ffff_ffff_ffff),
        Prover8_56::split_difficulty(0x00ff_ffff_ffff_ffff)
    );
}

fn config(k1: u32, pow_difficulty: [u8; 32]) -> Config {
    Config {
        k1,
        k2: 32,
        k3: 10,
        pow_difficulty,
    }
}

fn metadata(num_units: u32, labels_per_unit: u64) -> PostMetadata {
    PostMetadata {
        num_units,
        labels_per_unit,
        max_file_size: 1,
    }
}

#[test]
fn params_scale_the_pow_threshold_by_the_number_of_units() {
    let params = ProvingParams::new(&metadata(10, 100), &config(32, [0x0f; 32])).unwrap();
    let mut expected = [0x81u8; 32];
    expected[0] = 0x01;
    assert_eq!(expected, params.pow_difficulty);
    assert_eq!(proving_difficulty(32, 1000).unwrap(), params.difficulty);

    let params = ProvingParams::new(&metadata(3, 100), &config(32, [0xff; 32])).unwrap();
    assert_eq!([0x55; 32], params.pow_difficulty);

    let mut threshold = [0u8; 32];
    for (i, byte) in threshold.iter_mut().enumerate() {
        *byte = i as u8 + 1;
    }
    let params = ProvingParams::new(&metadata(7, 100), &config(32, threshold)).unwrap();
    assert_eq!(
        [
            0, 36, 219, 220, 0, 183, 183, 220, 147, 147, 184, 111, 111, 148, 75, 75, 112, 39, 39,
            76, 3, 3, 39, 222, 223, 3, 186, 186, 223, 150, 150, 187
        ],
        params.pow_difficulty
    );
}

#[test]
fn params_of_one_unit_keep_the_pow_threshold() {
    for threshold in [[0u8; 32], [0x0f; 32], [0xff; 32]] {
        let params = ProvingParams::new(&metadata(1, 100), &config(32, threshold)).unwrap();
        assert_eq!(threshold, params.pow_difficulty);
        assert_eq!(proving_difficulty(32, 100).unwrap(), params.difficulty);
    }
}

#[test]
fn params_of_more_units_have_a_smaller_pow_threshold() {
    let mut one = [0u8; 32];
    one[31] = 1;
    for threshold in [one, [0x0f; 32], [0xff; 32]] {
        let single = ProvingParams::new(&metadata(1, 100), &config(32, threshold)).unwrap();
        let ten = ProvingParams::new(&metadata(10, 100), &config(32, threshold)).unwrap();
        assert!(ten.pow_difficulty < single.pow_difficulty);
    }
    let zero = ProvingParams::new(&metadata(10, 100), &config(32, [0; 32])).unwrap();
    assert_eq!([0; 32], zero.pow_difficulty);
}

#[test]
fn params_need_a_number_of_labels_above_k1() {
    let cfg = config(32, [0x0f; 32]);
    for meta in [
        metadata(0, 100),
        metadata(1, 0),
        metadata(1, 32),
        metadata(4, 8),
        metadata(2, u64::MAX),
        metadata(u32::MAX, u64::MAX),
    ] {
        assert_eq!(
            Some(Error::DifficultyOverflow),
            ProvingParams::new(&meta, &cfg).err()
        );
    }
    assert!(ProvingParams::new(&metadata(1, 33), &cfg).is_ok());
    assert!(ProvingParams::new(&metadata(1, u64::MAX), &cfg).is_ok());
}
