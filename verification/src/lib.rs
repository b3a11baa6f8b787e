//! Lossless byte-stream compression: a run-length codec, a sliding-window
//! LZ77 codec, and a heuristic that inspects a byte sample and recommends
//! which codec to use. Both codecs are total functions from one owned byte
//! buffer to a new one, and both are proved to round-trip exactly.

use vstd::prelude::*;

mod detect;
mod lz77;
mod rle;

pub use lz77::lemma_lz_encode_size;
pub use lz77::lz77_compress;
pub use lz77::lz77_decompress;
pub use lz77::lz_best_match;
pub use lz77::lz_best_match_from;
pub use lz77::lz_decode;
pub use lz77::lz_decode_from;
pub use lz77::lz_encode;
pub use lz77::lz_encode_from;
pub use lz77::lz_expand;
pub use lz77::lz_match_len;
pub use lz77::lz_step;
pub use lz77::lz_wf;
pub use lz77::lz_window_start;
pub use lz77::token_offset;
pub use lz77::valid_token;

pub use rle::leading_run;
pub use rle::lemma_rle_encode_boundary_split;
pub use rle::lemma_rle_encode_run_split;
pub use rle::lemma_rle_encode_shape;
pub use rle::lemma_rle_round_trip;
pub use rle::lemma_rle_run_token_bound;
pub use rle::lemma_rle_run_token_bound_in_buffer;
pub use rle::lemma_rle_run_tokens_count;
pub use rle::rle_compress;
pub use rle::rle_run_tokens;
pub use rle::rle_decode;
pub use rle::rle_decompress;
pub use rle::rle_encode;

pub use detect::classify;
pub use detect::detect_file_type;
pub use detect::is_text_byte;
pub use detect::sampled;
pub use detect::suggest;
pub use detect::suggest_algorithm;
pub use detect::text_count;
pub use detect::FileType;

verus! {

/// Which codec to apply. `Auto` defers the choice to the file-type
/// heuristic; it is never handed to a codec directly.
#[derive(Clone, Copy, Debug, PartialEq, Eq, Structural)]
pub enum Algorithm {
    /// Run-length encoding.
    Rle,
    /// Sliding-window LZ77.
    Lz,
    /// Pick a codec from a sample of the data.
    Auto,
}

/// What decompression returns for a stream, per codec.
pub open spec fn decode_of(algorithm: Algorithm, s: Seq<u8>) -> Seq<u8> {
    if algorithm == Algorithm::Rle {
        rle::rle_decode(s)
    } else {
        lz77::lz_decode(s)
    }
}

/// Compress `data` with the chosen codec. `Auto` is never a terminal
/// codec: it must be resolved to `Rle` or `Lz` before this is called.
/// Whichever codec runs, decompressing the result restores `data` exactly.
pub fn compress(data: &[u8], algorithm: Algorithm) -> (compressed: Vec<u8>)
    requires
        algorithm != Algorithm::Auto,
    ensures
        decode_of(algorithm, compressed@) == data@,
        algorithm == Algorithm::Rle ==> compressed@ == rle::rle_encode(data@),
        algorithm == Algorithm::Lz ==> compressed@ == lz77::lz_encode(data@) && lz77::lz_wf(
            compressed@,
        ),
{
    match algorithm {
        Algorithm::Rle => rle::rle_compress(data),
        _ => lz77::lz77_compress(data),
    }
}

/// Decompress `data` with the chosen codec. `Auto` is never a terminal
/// codec: it must be resolved to `Rle` or `Lz` before this is called.
pub fn decompress(data: &[u8], algorithm: Algorithm) -> (decompressed: Vec<u8>)
    requires
        algorithm != Algorithm::Auto,
    ensures
        decompressed@ == decode_of(algorithm, data@),
{
    match algorithm {
        Algorithm::Rle => rle::rle_decompress(data),
        _ => lz77::lz77_decompress(data),
    }
}

/// Resolve `Auto` to a concrete codec: classify the sample when one is
/// available, fall back to LZ77 when none is (a stream with nothing to
/// sample). A concrete choice passes through unchanged.
pub fn resolve_algorithm(algorithm: Algorithm, sample: Option<&Vec<u8>>) -> (resolved: Algorithm)
    ensures
        resolved != Algorithm::Auto,
        algorithm != Algorithm::Auto ==> resolved == algorithm,
        algorithm == Algorithm::Auto && sample is Some ==> resolved == detect::suggest(
            detect::classify(sample->Some_0@),
        ),
        algorithm == Algorithm::Auto && sample is None ==> resolved == Algorithm::Lz,
{
    match algorithm {
        Algorithm::Auto => match sample {
            Option::Some(s) => detect::suggest_algorithm(detect::detect_file_type(s.as_slice())),
            Option::None => Algorithm::Lz,
        },
        other => other,
    }
}

} // verus!
