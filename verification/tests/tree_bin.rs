use huff_coding::tree::HuffTree;
use huff_coding::weights::ByteWeights;

#[test]
fn tree_from_bin() {
    let tree = HuffTree::from_weights(ByteWeights::from_bytes(
        b"Mongo...
    a great barbarian from the north seeking to conquer new lands for his kingdom.
    Mysterio the Magnificent...
    a powerful wizard questing for the secret of immortality.",
    ))
    .unwrap();
    let tree_from_bin = HuffTree::try_from_bin(&tree.as_bin()).unwrap();
    assert_eq!(tree_from_bin.read_codes(), tree.read_codes());
}

#[test]
fn tree_bin_too_small() {
    let e = match HuffTree::try_from_bin(&Vec::new()) {
        Err(e) => e,
        Ok(_) => panic!("expected an error"),
    };
    assert_eq!(e.message(), "provided bits are too small for an encoded tree");
}

#[test]
fn tree_bin_too_big() {
    let tree = HuffTree::from_weights(ByteWeights::from_bytes(b"abbccc")).unwrap();
    let mut bin = tree.as_bin();
    bin.push(false);
    let e = match HuffTree::try_from_bin(&bin) {
        Err(e) => e,
        Ok(_) => panic!("expected an error"),
    };
    assert_eq!(e.message(), "provided bits are too big for an encoded tree");
}

#[test]
fn tree_from_bin_weights_zeroed() {
    let tree = HuffTree::from_weights(ByteWeights::from_bytes(b"abbccc")).unwrap();
    assert_eq!(tree.root().leaf().frequency(), 6);
    let rebuilt = HuffTree::try_from_bin(&tree.as_bin()).unwrap();
    assert_eq!(rebuilt.root().leaf().frequency(), 0);
}

#[test]
fn tree_bin_codes() {
    let tree = HuffTree::from_bytes(
        "Spazz Maticus...
    a young King on a mad quest to rule the world."
            .as_bytes(),
    )
    .unwrap();
    let tree_bin = tree.as_bin();

    let bin_byte_codes = HuffTree::coded_bytes_from_bin(&tree_bin).unwrap();
    let codes = tree.read_codes();
    assert_eq!(bin_byte_codes.len(), codes.len());
    for (code, byte) in bin_byte_codes {
        let mut found = false;
        for (b, c) in &codes {
            if *b == byte {
                assert!(c == &code);
                found = true;
            }
        }
        assert!(found);
    }
}
