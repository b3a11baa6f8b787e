//! File-type heuristic: classify a byte sample as text, binary or mixed,
//! and map the classification to a recommended codec.
//!
//! Classification looks at no more than the first 1024 bytes of the sample
//! and computes the share of bytes that are printable ASCII or ASCII
//! whitespace. A share strictly above 95% classifies as text, strictly
//! below 5% as binary, anything in between as mixed. The thresholds are
//! exact rational boundaries, so the comparisons are done in integers.
//! An empty sample classifies as binary.

use vstd::prelude::*;

use crate::Algorithm;

verus! {

/// Classification of a byte sample.
#[derive(Clone, Copy, Debug, PartialEq, Eq, Structural)]
pub enum FileType {
    Text,
    Binary,
    Mixed,
}

/// A byte that counts as text: printable ASCII (0x21..=0x7e) or ASCII
/// whitespace (space, tab, line feed, form feed, carriage return).
pub open spec fn is_text_byte(b: u8) -> bool {
    (0x21 <= b && b <= 0x7e) || b == 0x20 || b == 0x09 || b == 0x0a || b == 0x0c || b == 0x0d
}

/// How many bytes of `s` count as text.
pub open spec fn text_count(s: Seq<u8>) -> nat
    decreases s.len(),
{
    if s.len() == 0 {
        0
    } else {
        text_count(s.drop_last()) + if is_text_byte(s.last()) {
            1nat
        } else {
            0nat
        }
    }
}

/// The part of the sample that classification looks at: at most the first
/// 1024 bytes.
pub open spec fn sampled(s: Seq<u8>) -> Seq<u8> {
    if s.len() <= 1024 {
        s
    } else {
        s.take(1024)
    }
}

/// The classification of a sample: with `t` text bytes out of `n` sampled,
/// text when t/n > 95/100, binary when t/n < 5/100, mixed in between.
/// An empty sample is binary.
pub open spec fn classify(sample: Seq<u8>) -> FileType {
    let s = sampled(sample);
    if s.len() == 0 {
        FileType::Binary
    } else if 20 * text_count(s) > 19 * s.len() {
        FileType::Text
    } else if 20 * text_count(s) < s.len() {
        FileType::Binary
    } else {
        FileType::Mixed
    }
}

/// The codec recommended for each classification.
pub open spec fn suggest(file_type: FileType) -> Algorithm {
    match file_type {
        FileType::Text => Algorithm::Rle,
        FileType::Binary => Algorithm::Lz,
        FileType::Mixed => Algorithm::Lz,
    }
}

/// Classify a pre-read byte sample; reading the bytes is the caller's
/// concern. Only the first 1024 bytes of the sample are consulted.
pub fn detect_file_type(sample: &[u8]) -> (file_type: FileType)
    ensures
        file_type == classify(sample@),
{
    let n: usize = if sample.len() < 1024 {
        sample.len()
    } else {
        1024
    };
    let mut text_chars: usize = 0;
    let mut i: usize = 0;
    while i < n
        invariant
            i <= n <= sample@.len(),
            n <= 1024,
            text_chars == text_count(sample@.take(i as int)),
            text_chars <= i,
        decreases n - i,
    {
        let b = sample[i];
        proof {
            assert(sample@.take(i + 1).drop_last() =~= sample@.take(i as int));
            assert(sample@.take(i + 1).last() == b);
        }
        if (0x21 <= b && b <= 0x7e) || b == 0x20 || b == 0x09 || b == 0x0a || b == 0x0c
            || b == 0x0d {
            text_chars += 1;
        }
        i += 1;
    }
    proof {
        if sample@.len() <= 1024 {
            assert(sample@.take(n as int) =~= sample@);
        }
    }
    if n == 0 {
        FileType::Binary
    } else if 20 * text_chars > 19 * n {
        FileType::Text
    } else if 20 * text_chars < n {
        FileType::Binary
    } else {
        FileType::Mixed
    }
}

/// The codec to use for a classified input: run-length encoding suits text
/// with repeated characters; LZ77 is the more versatile choice for binary
/// and mixed content.
pub fn suggest_algorithm(file_type: FileType) -> (algorithm: Algorithm)
    ensures
        algorithm == suggest(file_type),
        algorithm != Algorithm::Auto,
{
    match file_type {
        FileType::Text => Algorithm::Rle,
        FileType::Binary => Algorithm::Lz,
        FileType::Mixed => Algorithm::Lz,
    }
}

} // verus!
