use huff_coding::code::HuffCode;
use huff_coding::freqs::ByteFreqs;
use huff_coding::tree::HuffBranch;
use huff_coding::tree::HuffLeaf;

#[test]
fn struct_equality() {
    // leaf
    assert_eq!(HuffLeaf::new(None, 2), HuffLeaf::new(None, 2));

    // branch
    assert!(
        HuffBranch::new(HuffLeaf::new(None, 2), None)
            == HuffBranch::new(HuffLeaf::new(None, 2), None)
    );

    // code
    let mut codesa = HuffCode::new();
    let mut codesb = HuffCode::new();

    codesa.push(true);
    codesb.push(false);

    assert!(codesa != codesb);
}

#[test]
fn code_interfacing() {
    // getting
    let mut codes = HuffCode::new();
    for i in 0..8 {
        if (i % 2) == 0 {
            codes.push(true);
        } else {
            codes.push(false);
        }
    }
    assert_eq!(codes.get(7), Some(false));
    assert_eq!(codes.get(2), Some(true));
    assert_eq!(codes.get(31), None);

    // pushing and popping
    let mut codea = HuffCode::new();
    for _ in 0..65 {
        codea.push(true);
    }
    codea.pop();
    let mut codeb = HuffCode::new();
    for _ in 0..64 {
        codeb.push(true);
    }

    assert_eq!(codea, codeb);
}

#[test]
fn code_iter() {
    let mut codes = HuffCode::new();

    for i in 0..8 {
        if (i % 2) == 0 {
            codes.push(true);
        } else {
            codes.push(false);
        }
    }

    for (i, b) in codes.iter().into_iter().enumerate() {
        if (i % 2) == 0 {
            assert_eq!(b, true);
        } else {
            assert_eq!(b, false);
        }
    }
}

#[test]
fn code_clear_and_empties() {
    let mut code = HuffCode::new();
    assert!(code.is_empty());
    assert_eq!(code.pop(), None);
    code.push(true);
    code.push(false);
    assert_eq!(code.len(), 2);
    code.clear();
    assert!(code.is_empty());
    assert_eq!(code.len(), 0);
}

#[test]
fn freqs_iter() {
    let byte_freqs = ByteFreqs::from_bytes(&[255, 255, 255, 255, 255]);

    let mut len = 0;
    for (b, f) in byte_freqs.iter() {
        len += 1;
        println!("{:?}", (b, f));
    }
    assert_eq!(len, byte_freqs.len());
}

#[test]
fn freqs_counts() {
    let byte_freqs = ByteFreqs::from_bytes(b"abbccc");
    assert_eq!(byte_freqs.get(&b'a'), Some(1));
    assert_eq!(byte_freqs.get(&b'b'), Some(2));
    assert_eq!(byte_freqs.get(&b'c'), Some(3));
    assert_eq!(byte_freqs.get(&b'd'), None);
    assert_eq!(byte_freqs.len(), 3);
    assert!(!byte_freqs.is_empty());
    assert!(ByteFreqs::from_bytes(b"").is_empty());
}

#[test]
fn freqs_add() {
    let mut byte_freqs = ByteFreqs::from_bytes(b"aabbb");
    let other = ByteFreqs::from_bytes(b"aaabbc");
    byte_freqs.add_byte_freqs(&other);
    assert_eq!(byte_freqs.get(&b'a'), Some(5));
    assert_eq!(byte_freqs.get(&b'b'), Some(5));
    assert_eq!(byte_freqs.get(&b'c'), Some(1));
}
