use huff_coding::bits::bits_to_bytes;
use huff_coding::bits::bytes_to_bits;
use huff_coding::calc_padding_bits;
use huff_coding::utils::offset_bytes;
use huff_coding::utils::ration_vec;
use huff_coding::weights::ByteWeights;

#[test]
fn padding_bit_counts() {
    assert_eq!(calc_padding_bits(0), 0);
    assert_eq!(calc_padding_bits(1), 7);
    assert_eq!(calc_padding_bits(7), 1);
    assert_eq!(calc_padding_bits(8), 0);
    assert_eq!(calc_padding_bits(9), 7);
    assert_eq!(calc_padding_bits(13), 3);
    assert_eq!(calc_padding_bits(16), 0);
}

#[test]
fn ration_vec_splits_evenly_with_remainder() {
    let v: Vec<u8> = (0..10).collect();
    let rations = ration_vec(&v, 3);
    assert_eq!(rations.len(), 3);
    assert_eq!(rations[0], vec![0, 1, 2]);
    assert_eq!(rations[1], vec![3, 4, 5]);
    assert_eq!(rations[2], vec![6, 7, 8, 9]);
}

#[test]
fn ration_vec_small_input_single_ration() {
    let v: Vec<u8> = vec![1, 2];
    let rations = ration_vec(&v, 5);
    assert_eq!(rations.len(), 1);
    assert_eq!(rations[0], vec![1, 2]);
}

#[test]
fn offset_bytes_shifts_right() {
    let r = offset_bytes(&[0b1011_0000], 4);
    assert_eq!(r, vec![0b0000_1011, 0b0000_0000]);
    let r = offset_bytes(&[0xff, 0x01], 3);
    assert_eq!(r, vec![0b0001_1111, 0b1110_0000, 0b0010_0000]);
    let r = offset_bytes(&[0xab], 0);
    assert_eq!(r, vec![0xab]);
}

#[test]
fn bits_bytes_round_trip() {
    let bits = vec![true, false, true, true, false, false, false, true, true];
    let (bytes, pad) = bits_to_bytes(&bits);
    assert_eq!(bytes, vec![0b1011_0001, 0b1000_0000]);
    assert_eq!(pad, 7);
    let back = bytes_to_bits(&bytes);
    assert_eq!(back[..9], bits[..]);
    assert!(back[9..].iter().all(|b| !b));
}

#[test]
fn weights_interfacing() {
    let byte_weights = ByteWeights::from_bytes(b"fffff");
    assert_eq!(byte_weights.get(&b'f').unwrap(), 5);
    assert_eq!(byte_weights.len(), 1);
    assert!(ByteWeights::new().is_empty());

    let byte_weights = ByteWeights::from_bytes(&[0, 1, 1, 2, 2, 2]);
    for (byte, weight) in byte_weights.iter() {
        assert_eq!(byte as usize, weight - 1);
    }
}

#[test]
fn weights_add_merges_tables() {
    let mut byte_weights = ByteWeights::from_bytes(b"aabbb");
    let other = ByteWeights::from_bytes(b"aaabbc");
    byte_weights.add_byte_weights(&other);
    assert_eq!(byte_weights.get(&b'a').unwrap(), 5);
    assert_eq!(byte_weights.get(&b'b').unwrap(), 5);
    assert_eq!(byte_weights.get(&b'c').unwrap(), 1);
}

#[test]
fn rationed_counting_equals_sequential() {
    // counting each ration on its own and reducing pairwise gives the same
    // table as one sequential pass, whatever the ration count
    let data: Vec<u8> = (0..100u8).chain(0..50u8).chain(vec![7u8; 31]).collect();
    let whole = ByteWeights::from_bytes(&data);
    for count in 1..8usize {
        let mut reduced = ByteWeights::new();
        for ration in ration_vec(&data, count) {
            let part = ByteWeights::from_bytes(&ration);
            reduced.add_byte_weights(&part);
        }
        for b in 0..=255u8 {
            assert_eq!(reduced.get(&b), whole.get(&b));
        }
    }
}
