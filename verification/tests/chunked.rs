use huff_coding::cmpr::compress;
use huff_coding::comp::compress_chunked;
use huff_coding::comp::decompress_chunked;
use huff_coding::dcmpr::decompress;

#[test]
fn file_test_compress_decompress() {
    let s = String::from(
        "Mongo...
    a great barbarian from the north seeking to conquer new lands for his kingdom.
    Mysterio the Magnificent...
    a powerful wizard questing for the secret of immortality.",
    );

    let encoded_bytes = compress(s.as_bytes()).unwrap();
    let decoded_bytes = decompress(&encoded_bytes).unwrap();
    assert_eq!(s, std::str::from_utf8(&decoded_bytes).unwrap());
    assert_eq!(s.as_bytes(), decoded_bytes);

    let encoded_bytes = compress_chunked(s.as_bytes(), 16).unwrap();
    let decoded_bytes = decompress_chunked(&encoded_bytes, 7).unwrap();
    assert_eq!(s, std::str::from_utf8(&decoded_bytes).unwrap());
    assert_eq!(s.as_bytes(), decoded_bytes);
}

#[test]
fn chunk_size_invariance() {
    // chunked compression is byte-identical to whole-buffer compression,
    // whatever the chunk size
    let data = b"the quick brown fox jumps over the lazy dog; sphinx of black quartz";
    let whole = compress(data).unwrap();
    for chunk_size in [1usize, 2, 3, 5, 8, 13, 21, 1000] {
        let chunked = compress_chunked(data, chunk_size).unwrap();
        assert_eq!(chunked, whole);
    }
}

#[test]
fn chunked_round_trip_all_chunk_sizes() {
    let data = b"abacabadabacaba";
    for c in 1..=data.len() {
        let compressed = compress_chunked(data, c).unwrap();
        for d in 1..=compressed.len() {
            let decompressed = decompress_chunked(&compressed, d).unwrap();
            assert_eq!(decompressed, data.to_vec());
        }
    }
}

#[test]
fn chunked_decoder_crosses_boundaries() {
    // with chunk size 1 every multi-bit code straddles a chunk boundary
    let data = b"abbcccddddeeeee";
    let compressed = compress(data).unwrap();
    let decompressed = decompress_chunked(&compressed, 1).unwrap();
    assert_eq!(decompressed, data.to_vec());
}

#[test]
fn chunked_empty_input_is_error() {
    assert!(compress_chunked(b"", 4).is_err());
}

#[test]
fn chunked_malformed_matches_whole_buffer() {
    let bytes = vec![1u8, 2, 3];
    assert_eq!(
        decompress_chunked(&bytes, 4).unwrap_err().message(),
        decompress(&bytes).unwrap_err().message()
    );
}
