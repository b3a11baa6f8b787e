use compressor::compress;
use compressor::decompress;
use compressor::lz77_compress;
use compressor::lz77_decompress;
use compressor::rle_compress;
use compressor::rle_decompress;
use compressor::Algorithm;

#[test]
fn test_rle_compression() {
    let data = vec![1, 1, 1, 2, 2, 3, 3, 3, 3];
    let compressed = rle_compress(&data);
    let decompressed = rle_decompress(&compressed);
    assert_eq!(decompressed, data);
}

#[test]
fn test_rle_single_bytes() {
    let data = vec![1, 2, 3, 4, 5];
    let compressed = rle_compress(&data);
    let decompressed = rle_decompress(&compressed);
    assert_eq!(decompressed, data);
}

#[test]
fn test_rle_max_run_length() {
    let data = vec![1; 300];
    let compressed = rle_compress(&data);
    let decompressed = rle_decompress(&compressed);
    assert_eq!(decompressed, data);
}

#[test]
fn test_lz77_compression() {
    let data = b"abracadabra";
    let compressed = lz77_compress(data);
    let decompressed = lz77_decompress(&compressed);
    assert_eq!(decompressed, data);
}

#[test]
fn test_lz77_repeated_patterns() {
    let data = b"abcabcabcabc";
    let compressed = lz77_compress(data);
    let decompressed = lz77_decompress(&compressed);
    assert_eq!(decompressed, data);
}

#[test]
fn test_lz77_non_repeating() {
    let data = b"abcdefghijklmnopqrstuvwxyz";
    let compressed = lz77_compress(data);
    let decompressed = lz77_decompress(&compressed);
    assert_eq!(decompressed, data);
}

#[test]
fn test_lz77_empty_input() {
    let data = b"";
    let compressed = lz77_compress(data);
    let decompressed = lz77_decompress(&compressed);
    assert_eq!(decompressed, data);
}

#[test]
fn test_rle_exact_encoding() {
    let compressed = rle_compress(b"aaaabbbccd");
    assert_eq!(compressed, vec![4, b'a', 3, b'b', 2, b'c', 1, b'd']);
    let decompressed = rle_decompress(&compressed);
    assert_eq!(decompressed, b"aaaabbbccd");
}

#[test]
fn test_rle_run_split_at_255() {
    let compressed = rle_compress(&vec![1; 300]);
    assert_eq!(compressed, vec![255, 1, 45, 1]);
}

#[test]
fn test_rle_empty_input() {
    assert_eq!(rle_compress(b""), Vec::<u8>::new());
    assert_eq!(rle_decompress(b""), Vec::<u8>::new());
}

#[test]
fn test_rle_single_byte_round_trip() {
    let data = vec![42];
    let compressed = rle_compress(&data);
    assert_eq!(compressed, vec![1, 42]);
    assert_eq!(rle_decompress(&compressed), data);
}

#[test]
fn test_rle_alphabet_round_trip() {
    let data = b"abcdefghijklmnopqrstuvwxyz";
    let compressed = rle_compress(data);
    assert_eq!(compressed.len(), 52);
    assert_eq!(rle_decompress(&compressed), data);
}

#[test]
fn test_rle_pattern_round_trip() {
    let data = b"abcabcabcabc";
    assert_eq!(rle_decompress(&rle_compress(data)), data);
}

#[test]
fn test_rle_dangling_byte_dropped() {
    assert_eq!(rle_decompress(&[2, 7, 9]), vec![7, 7]);
}

#[test]
fn test_rle_zero_count_token() {
    assert_eq!(rle_decompress(&[0, 5, 1, 6]), vec![6]);
}

#[test]
fn test_lz77_single_byte_round_trip() {
    let data = b"x";
    let compressed = lz77_compress(data);
    assert_eq!(compressed, vec![0, 0, 0, b'x']);
    assert_eq!(lz77_decompress(&compressed), data);
}

#[test]
fn test_lz77_long_run_round_trip() {
    let data = vec![9; 300];
    let compressed = lz77_compress(&data);
    assert_eq!(lz77_decompress(&compressed), data);
}

#[test]
fn test_lz77_token_shape() {
    let compressed = lz77_compress(b"abcabcabcabcaaaaaaaabracadabra");
    assert_eq!(compressed.len() % 4, 0);
    for token in compressed.chunks(4) {
        let offset = ((token[0] as usize) << 8) | (token[1] as usize);
        let length = token[2] as usize;
        if offset == 0 {
            assert_eq!(length, 0);
        } else {
            assert!(length > 2 && length <= 15);
            assert!(offset >= 1 && offset <= 4096);
        }
    }
}

#[test]
fn test_lz77_all_literals_when_no_match() {
    let data = b"abcdefghijklmnopqrstuvwxyz";
    let compressed = lz77_compress(data);
    assert_eq!(compressed.len(), 104);
    for (index, token) in compressed.chunks(4).enumerate() {
        assert_eq!(token, [0, 0, 0, data[index]]);
    }
}

#[test]
fn test_lz77_empty_output_for_empty_input() {
    assert_eq!(lz77_compress(b""), Vec::<u8>::new());
}

#[test]
fn test_lz77_truncated_stream_dropped() {
    assert_eq!(lz77_decompress(&[0, 0, 0, b'a', 9, 9]), b"a");
}

#[test]
fn test_lz77_corrupt_offset_skipped() {
    assert_eq!(lz77_decompress(&[1, 0, 5, 0]), Vec::<u8>::new());
}

#[test]
fn test_lz77_overlapping_copy() {
    let stream = [0, 0, 0, b'a', 0, 0, 0, b'b', 0, 2, 6, 0];
    assert_eq!(lz77_decompress(&stream), b"abababab");
}

#[test]
fn test_dispatch_matches_codecs() {
    let data = b"aaaabbbccd";
    assert_eq!(compress(data, Algorithm::Rle), rle_compress(data));
    assert_eq!(compress(data, Algorithm::Lz), lz77_compress(data));
    assert_eq!(decompress(&compress(data, Algorithm::Rle), Algorithm::Rle), data);
    assert_eq!(decompress(&compress(data, Algorithm::Lz), Algorithm::Lz), data);
}
