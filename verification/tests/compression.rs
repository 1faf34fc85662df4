use post::compression::{compress_indices, decompress_indexes, required_bits};
use post::prove::Proof;

#[test]
fn required_bits_is_the_logarithm_rounded_up() {
    let table: [(u64, usize); 16] = [
        (0, 0),
        (1, 0),
        (2, 1),
        (3, 2),
        (4, 2),
        (5, 3),
        (8, 3),
        (9, 4),
        (16, 4),
        (17, 5),
        (128, 7),
        (1 << 20, 20),
        ((1 << 20) + 1, 21),
        (1 << 63, 63),
        ((1 << 63) + 1, 64),
        (u64::MAX, 64),
    ];
    for (value, bits) in table {
        assert_eq!(bits, required_bits(value), "for {value}");
    }
}

#[test]
fn compressing_packs_low_bits_first() {
    assert_eq!(
        vec![0x10, 0x32, 0x54, 0x76, 0x08],
        compress_indices(&[0, 1, 2, 3, 4, 5, 6, 7, 8], 4)
    );
    assert_eq!(vec![0xdd, 0x63], compress_indices(&[5, 3, 7, 1, 6], 3));
    assert_eq!(
        vec![0xff, 0x01, 0x50, 0x15],
        compress_indices(&[0x1ff, 0, 0x155], 10)
    );
    assert_eq!(
        vec![100, 0, 208, 7, 64, 156, 0, 53, 12],
        compress_indices(&[100, 1000, 10000, 100000], 17)
    );
}

#[test]
fn compressing_whole_words() {
    assert_eq!(
        vec![0xff, 0xff, 0xff, 0xff, 0xff, 0xff, 0xff, 0xff, 1, 0, 0, 0, 0, 0, 0, 0],
        compress_indices(&[u64::MAX, 1], 64)
    );
    assert_eq!(
        vec![u64::MAX, 1],
        decompress_indexes(&compress_indices(&[u64::MAX, 1], 64), 64, 2)
    );
}

#[test]
fn compressing_nothing_gives_nothing() {
    assert_eq!(Vec::<u8>::new(), compress_indices(&[], 13));
    assert_eq!(Vec::<u8>::new(), compress_indices(&[1, 2, 3], 0));
    assert_eq!(Vec::<u64>::new(), decompress_indexes(&[0xff, 0xff], 7, 0));
    assert_eq!(vec![0, 0, 0], decompress_indexes(&[0xff, 0xff], 0, 3));
}

#[test]
fn compressing_keeps_only_the_low_bits_of_an_index() {
    assert_eq!(vec![0x1c], compress_indices(&[0xabc], 5));
    assert_eq!(vec![0x1c], decompress_indexes(&[0x1c], 5, 1));
}

#[test]
fn decompressing_reads_zeros_past_the_data() {
    assert_eq!(
        vec![0x0f, 0x0f, 0, 0, 0],
        decompress_indexes(&[0xff], 4, 5)
    );
    assert_eq!(vec![0, 0], decompress_indexes(&[], 64, 2));
    assert_eq!(vec![0x03ff, 0x0001], decompress_indexes(&[0xff, 0x07], 10, 2));
}

#[test]
fn decompressing_gives_back_what_was_compressed() {
    for bits in 1..=64usize {
        let top = if bits == 64 {
            u64::MAX
        } else {
            (1u64 << bits) - 1
        };
        let mut indexes = vec![0, top, top / 2, top / 3, 1 & top, top - top / 5];
        let mut x: u64 = 0x9e37_79b9_7f4a_7c15;
        for _ in 0..50 {
            x = x
                .wrapping_mul(6364136223846793005)
                .wrapping_add(1442695040888963407);
            indexes.push((x >> 7) & top);
        }
        let packed = compress_indices(&indexes, bits);
        assert_eq!((indexes.len() * bits + 7) / 8, packed.len());
        assert_eq!(indexes, decompress_indexes(&packed, bits, indexes.len()));
    }
}

#[test]
fn proof_packs_indices_in_the_bits_that_the_number_of_labels_needs() {
    let proof = Proof::new(1, &[0, 1, 2, 3, 4, 5, 6, 7], 8, 2);
    assert_eq!(vec![0x88, 0xc6, 0xfa], proof.indices);
    assert_eq!(1, proof.nonce);
    assert_eq!(2, proof.pow);

    let proof = Proof::new(3, &[100, 1000, 10000, 100000], 100001, 4);
    assert_eq!(vec![100, 0, 208, 7, 64, 156, 0, 53, 12], proof.indices);

    let proof = Proof::new(3, &[0, 0, 0], 1, 4);
    assert!(proof.indices.is_empty());
}
