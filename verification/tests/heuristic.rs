use compressor::detect_file_type;
use compressor::resolve_algorithm;
use compressor::suggest_algorithm;
use compressor::Algorithm;
use compressor::FileType;

fn sample(text_bytes: usize, binary_bytes: usize) -> Vec<u8> {
    let mut s = vec![b'a'; text_bytes];
    s.extend(std::iter::repeat(0u8).take(binary_bytes));
    s
}

#[test]
fn test_detect_text_above_boundary() {
    assert_eq!(detect_file_type(&sample(96, 4)), FileType::Text);
}

#[test]
fn test_detect_text_boundary_is_strict() {
    assert_eq!(detect_file_type(&sample(95, 5)), FileType::Mixed);
}

#[test]
fn test_detect_binary_below_boundary() {
    assert_eq!(detect_file_type(&sample(4, 96)), FileType::Binary);
}

#[test]
fn test_detect_binary_boundary_is_strict() {
    assert_eq!(detect_file_type(&sample(5, 95)), FileType::Mixed);
}

#[test]
fn test_detect_mixed_sample() {
    assert_eq!(detect_file_type(&sample(50, 50)), FileType::Mixed);
}

#[test]
fn test_detect_empty_sample() {
    assert_eq!(detect_file_type(&[]), FileType::Binary);
}

#[test]
fn test_detect_whitespace_counts_as_text() {
    assert_eq!(detect_file_type(b"hello world\r\n\tbye"), FileType::Text);
}

#[test]
fn test_detect_sample_cap_at_1024() {
    assert_eq!(detect_file_type(&sample(1024, 1024)), FileType::Text);
}

#[test]
fn test_suggest_algorithm_mapping() {
    assert_eq!(suggest_algorithm(FileType::Text), Algorithm::Rle);
    assert_eq!(suggest_algorithm(FileType::Binary), Algorithm::Lz);
    assert_eq!(suggest_algorithm(FileType::Mixed), Algorithm::Lz);
}

#[test]
fn test_resolve_algorithm_concrete_passes_through() {
    assert_eq!(resolve_algorithm(Algorithm::Rle, None), Algorithm::Rle);
    assert_eq!(resolve_algorithm(Algorithm::Lz, Some(&sample(96, 4))), Algorithm::Lz);
}

#[test]
fn test_resolve_algorithm_auto() {
    assert_eq!(resolve_algorithm(Algorithm::Auto, Some(&sample(96, 4))), Algorithm::Rle);
    assert_eq!(resolve_algorithm(Algorithm::Auto, Some(&sample(4, 96))), Algorithm::Lz);
    assert_eq!(resolve_algorithm(Algorithm::Auto, None), Algorithm::Lz);
}
