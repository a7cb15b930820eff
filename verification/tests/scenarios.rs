use huff_coding::cmpr::compress;
use huff_coding::cmpr::get_compressed_bytes;
use huff_coding::dcmpr::decompress;
use huff_coding::tree::HuffTree;
use huff_coding::weights::ByteWeights;

fn code_of(tree: &HuffTree, byte: u8) -> Vec<bool> {
    for (b, c) in tree.read_codes() {
        if b == byte {
            return c.iter();
        }
    }
    panic!("byte has no code");
}

#[test]
fn scenario_most_frequent_shortest() {
    // input b"abbccc": weights {a:1, b:2, c:3}; any valid tree assigns the
    // strictly most frequent byte the shortest code, here one bit, and the
    // other two equal-length codes one bit longer
    let weights = ByteWeights::from_bytes(b"abbccc");
    assert_eq!(weights.get(&b'a'), Some(1));
    assert_eq!(weights.get(&b'b'), Some(2));
    assert_eq!(weights.get(&b'c'), Some(3));
    assert_eq!(weights.len(), 3);

    let tree = HuffTree::from_weights(weights).unwrap();
    let ca = code_of(&tree, b'a');
    let cb = code_of(&tree, b'b');
    let cc = code_of(&tree, b'c');
    assert_eq!(cc, vec![false]);
    assert_eq!(ca.len(), 2);
    assert_eq!(cb.len(), 2);
    assert_eq!(ca, vec![true, false]);
    assert_eq!(cb, vec![true, true]);

    let compressed = compress(b"abbccc").unwrap();
    assert_eq!(decompress(&compressed).unwrap(), b"abbccc".to_vec());
}

#[test]
fn scenario_container_layout() {
    // the container of b"abbccc": 4 tree bytes with 3 tree padding bits,
    // data packed as 10 11 11 0 0 | 0 + 7 padding bits
    let compressed = compress(b"abbccc").unwrap();
    assert_eq!(compressed[0], 0x37);
    assert_eq!(
        u32::from_be_bytes([compressed[1], compressed[2], compressed[3], compressed[4]]),
        4
    );
    assert_eq!(compressed.len(), 5 + 4 + 2);
    assert_eq!(compressed[9], 0b1011_1100);
    assert_eq!(compressed[10], 0b0000_0000);
}

#[test]
fn scenario_single_letter() {
    // input b"aaaaa": a single-leaf tree for 'a', code "0"; five occurrences
    // pack to five bits in one byte with three data padding bits
    let tree = HuffTree::from_bytes(b"aaaaa").unwrap();
    assert!(!tree.root().has_children());
    assert_eq!(tree.root().leaf().letter(), Some(b'a'));
    assert_eq!(code_of(&tree, b'a'), vec![false]);

    let (packed, padding) = get_compressed_bytes(b"aaaaa", &tree).unwrap();
    assert_eq!(packed, vec![0b0000_0000]);
    assert_eq!(padding, 3);

    let compressed = compress(b"aaaaa").unwrap();
    assert_eq!(decompress(&compressed).unwrap(), b"aaaaa".to_vec());
}

#[test]
fn malformed_short_input_is_missing_header() {
    // anything shorter than the five fixed header bytes is rejected with a
    // typed error, never a panic
    assert_eq!(decompress(&[]).unwrap_err().message(), "slice is empty");
    for n in 1..5 {
        let bytes = vec![0u8; n];
        assert_eq!(
            decompress(&bytes).unwrap_err().message(),
            "slice too short to read tree length"
        );
    }
}

#[test]
fn malformed_padding_nibble() {
    // a padding nibble above 7 is invalid header information
    let bytes = vec![0x80u8, 0, 0, 0, 0];
    assert_eq!(
        decompress(&bytes).unwrap_err().message(),
        "invalid padding bits in slice"
    );
    let bytes = vec![0x09u8, 0, 0, 0, 0];
    assert_eq!(
        decompress(&bytes).unwrap_err().message(),
        "invalid padding bits in slice"
    );
}

#[test]
fn malformed_tree_declarations() {
    // declared tree length exceeding the remaining bytes
    let bytes = vec![0u8, 0, 0, 0, 9, 1, 2];
    assert_eq!(
        decompress(&bytes).unwrap_err().message(),
        "slice too short to read tree"
    );
    // a zero-length tree can not parse
    let bytes = vec![0u8, 0, 0, 0, 0];
    assert_eq!(
        decompress(&bytes).unwrap_err().message(),
        "invalid tree in slice"
    );
    // tree bytes that are not a complete shape
    let bytes = vec![0u8, 0, 0, 0, 1, 0b1111_1111];
    assert_eq!(
        decompress(&bytes).unwrap_err().message(),
        "invalid tree in slice"
    );
}

#[test]
fn padding_bits_always_at_most_seven() {
    // every recorded padding bit count is in [0, 7]
    for len in 1..40usize {
        let data: Vec<u8> = (0..len).map(|k| (k % 5) as u8).collect();
        let tree = HuffTree::from_bytes(&data).unwrap();
        let (_, padding) = get_compressed_bytes(&data, &tree).unwrap();
        assert!(padding <= 7);
        let compressed = compress(&data).unwrap();
        assert!(compressed[0] >> 4 <= 7);
        assert!(compressed[0] & 0x0f <= 7);
    }
}

#[test]
fn full_final_byte_reports_zero_padding() {
    // four distinct equally frequent bytes give two-bit codes: eight
    // letters pack to exactly two bytes and report zero padding
    let data = b"abcdabcd";
    let tree = HuffTree::from_bytes(data).unwrap();
    let (packed, padding) = get_compressed_bytes(data, &tree).unwrap();
    assert_eq!(packed.len(), 2);
    assert_eq!(padding, 0);
}

#[test]
fn decompress_never_panics_on_mangled_input() {
    // flipping bytes of a valid container, truncating it, or extending it
    // must always yield a value, never a panic
    let compressed = compress(b"some mangled container input").unwrap();
    for i in 0..compressed.len() {
        let mut mangled = compressed.clone();
        mangled[i] = mangled[i].wrapping_add(0x55);
        let _ = decompress(&mangled);
    }
    for n in 0..compressed.len() {
        let _ = decompress(&compressed[..n]);
    }
    let mut extended = compressed.clone();
    extended.extend_from_slice(&[0xff, 0x00, 0xaa]);
    let _ = decompress(&extended);
}
