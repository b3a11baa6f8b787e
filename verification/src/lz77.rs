//! Sliding-window LZ77 codec.
//!
//! A compressed stream is a flat concatenation of four-byte tokens
//! `(offset_hi, offset_lo, length, literal)`, so its length is always a
//! multiple of 4. The two offset bytes form a 16-bit big-endian offset.
//! A token with offset 0 and length 0 is a literal token carrying one raw
//! byte in its fourth position; any other token is a back-reference that
//! copies `length` bytes starting `offset` positions behind the end of the
//! output produced so far, one byte at a time, so that an offset smaller
//! than the length replicates a repeating pattern.
//!
//! Compression searches a 4096-byte window for the longest match of up to
//! 15 bytes whose source lies entirely before the current position, and
//! emits a back-reference only when the match is longer than 2 bytes.
//!
//! Decompression is best-effort over malformed input: fewer than four
//! trailing bytes are dropped, and a back-reference whose offset exceeds
//! the bytes produced so far (or whose offset is 0 with a nonzero length)
//! is skipped without producing anything.

use vstd::prelude::*;

verus! {

/// The 16-bit big-endian offset stored in a token's first two bytes.
pub open spec fn token_offset(t: Seq<u8>) -> nat {
    (t[0] as nat) * 256 + (t[1] as nat)
}

/// The bytes a back-reference appends to `out`: `length` bytes copied one
/// at a time from `offset` positions behind the end, so byte `k` of the
/// copy is the byte `k % offset` positions into the last `offset` bytes.
/// An offset of 0, or one reaching back past the produced output, yields
/// nothing.
pub open spec fn lz_expand(out: Seq<u8>, offset: nat, length: nat) -> Seq<u8> {
    if 1 <= offset && offset <= out.len() {
        Seq::new(length, |k: int| out[out.len() - offset + (k % (offset as int))])
    } else {
        Seq::empty()
    }
}

/// One decoding step: `out` extended by what the four-byte token `t`
/// produces.
pub open spec fn lz_step(out: Seq<u8>, t: Seq<u8>) -> Seq<u8> {
    if token_offset(t) == 0 && t[2] == 0 {
        out.push(t[3])
    } else {
        out + lz_expand(out, token_offset(t), t[2] as nat)
    }
}

/// Decoding a stream token by token from left to right, appending to
/// `out`; fewer than four trailing bytes are dropped.
pub open spec fn lz_decode_from(s: Seq<u8>, out: Seq<u8>) -> Seq<u8>
    decreases s.len(),
{
    if s.len() < 4 {
        out
    } else {
        lz_decode_from(s.skip(4), lz_step(out, s.take(4)))
    }
}

/// The byte sequence a compressed stream decodes to.
pub open spec fn lz_decode(s: Seq<u8>) -> Seq<u8> {
    lz_decode_from(s, Seq::empty())
}

/// A single well-formed token: either a literal (offset 0, length 0) or a
/// back-reference with a length in 3..=15 and an offset in 1..=4096.
pub open spec fn valid_token(t: Seq<u8>) -> bool {
    (token_offset(t) == 0 && t[2] == 0) || (1 <= token_offset(t) && token_offset(t) <= 4096 && 2
        < t[2] && t[2] <= 15)
}

/// Token shape of a whole stream: a multiple of four bytes, every four of
/// which form a well-formed token.
pub open spec fn lz_wf(s: Seq<u8>) -> bool {
    s.len() % 4 == 0 && forall|t: int|
        0 <= t && 4 * t + 3 < s.len() ==> valid_token(#[trigger] s.subrange(4 * t, 4 * t + 4))
}

/// The first window position the match search considers at position `p`:
/// 4096 bytes back, clamped at the start of the input.
pub open spec fn lz_window_start(p: int) -> int {
    if p > 4096 {
        p - 4096
    } else {
        0
    }
}

/// The match length between window start `i` and position `p`, grown from
/// `m`: bytes keep matching while the length stays under the 15-byte
/// lookahead, the compared bytes stay inside the input, and the match
/// source stays wholly before `p`.
pub open spec fn lz_match_len(s: Seq<u8>, i: int, p: int, m: nat) -> nat
    decreases 15 - m,
{
    if m < 15 && p + m < s.len() && i + m < p && s[i + m] == s[p + m] {
        lz_match_len(s, i, p, m + 1)
    } else {
        m
    }
}

/// The best `(offset, length)` over window starts `i..p`, seeded with the
/// best found so far: a candidate replaces it only when strictly longer,
/// so among equal lengths the smallest start (largest offset) found first
/// wins.
pub open spec fn lz_best_match_from(s: Seq<u8>, i: int, p: int, best_offset: nat, best_len: nat) -> (
    nat,
    nat,
)
    decreases p - i,
{
    if i < p {
        let m = lz_match_len(s, i, p, 0);
        if m > best_len {
            lz_best_match_from(s, i + 1, p, (p - i) as nat, m)
        } else {
            lz_best_match_from(s, i + 1, p, best_offset, best_len)
        }
    } else {
        (best_offset, best_len)
    }
}

/// The greedy search result at position `p`: the longest match over the
/// whole window, `(0, 0)` when the window holds none.
pub open spec fn lz_best_match(s: Seq<u8>, p: int) -> (nat, nat) {
    lz_best_match_from(s, lz_window_start(p), p, 0, 0)
}

/// The token stream that LZ77 compression produces from position `p` on:
/// a back-reference token when the best match is longer than 2 bytes
/// (advancing by the match length), a literal token otherwise (advancing
/// by one byte).
pub open spec fn lz_encode_from(s: Seq<u8>, p: int) -> Seq<u8>
    decreases s.len() - p,
    via lz_encode_from_decreases
{
    if p < 0 || p >= s.len() {
        Seq::empty()
    } else {
        let bm = lz_best_match(s, p);
        if bm.1 > 2 {
            seq![(bm.0 / 256) as u8, (bm.0 % 256) as u8, bm.1 as u8, 0u8] + lz_encode_from(
                s,
                p + bm.1,
            )
        } else {
            seq![0u8, 0u8, 0u8, s[p]] + lz_encode_from(s, p + 1)
        }
    }
}

#[via_fn]
proof fn lz_encode_from_decreases(s: Seq<u8>, p: int) {
    if 0 <= p && p < s.len() {
        lemma_lz_best_match_from_bounds(s, lz_window_start(p), p, 0, 0);
    }
}

/// The token stream that LZ77 compression produces for a whole input.
pub open spec fn lz_encode(s: Seq<u8>) -> Seq<u8> {
    lz_encode_from(s, 0)
}

/// A grown match length stays within the lookahead and the input.
proof fn lemma_lz_match_len_bounds(s: Seq<u8>, i: int, p: int, m: nat)
    requires
        0 <= i < p <= s.len(),
        m <= 15,
        p + m <= s.len(),
    ensures
        m <= lz_match_len(s, i, p, m) <= 15,
        p + lz_match_len(s, i, p, m) <= s.len(),
    decreases 15 - m,
{
    if m < 15 && p + m < s.len() && i + m < p && s[i + m] == s[p + m] {
        lemma_lz_match_len_bounds(s, i, p, m + 1);
    }
}

/// The best match stays within the lookahead and the input.
proof fn lemma_lz_best_match_from_bounds(s: Seq<u8>, i: int, p: int, best_offset: nat, best_len: nat)
    requires
        0 <= i <= p < s.len(),
        best_len <= 15,
        p + best_len <= s.len(),
    ensures
        lz_best_match_from(s, i, p, best_offset, best_len).1 <= 15,
        best_len <= lz_best_match_from(s, i, p, best_offset, best_len).1,
        p + lz_best_match_from(s, i, p, best_offset, best_len).1 <= s.len(),
    decreases p - i,
{
    if i < p {
        lemma_lz_match_len_bounds(s, i, p, 0);
        let m = lz_match_len(s, i, p, 0);
        if m > best_len {
            lemma_lz_best_match_from_bounds(s, i + 1, p, (p - i) as nat, m);
        } else {
            lemma_lz_best_match_from_bounds(s, i + 1, p, best_offset, best_len);
        }
    }
}

/// Size of the encoding: one four-byte token covers at least one input
/// byte, so the stream is at most four times the input and is empty
/// exactly for empty input.
pub proof fn lemma_lz_encode_size(s: Seq<u8>)
    ensures
        lz_encode(s).len() <= 4 * s.len(),
        lz_encode(s).len() == 0 <==> s.len() == 0,
{
    lemma_lz_encode_from_size(s, 0);
}

proof fn lemma_lz_encode_from_size(s: Seq<u8>, p: int)
    requires
        0 <= p <= s.len(),
    ensures
        lz_encode_from(s, p).len() <= 4 * (s.len() - p),
        p < s.len() ==> lz_encode_from(s, p).len() >= 4,
    decreases s.len() - p,
{
    if p < s.len() {
        lemma_lz_best_match_from_bounds(s, lz_window_start(p), p, 0, 0);
        let bm = lz_best_match(s, p);
        if bm.1 > 2 {
            lemma_lz_encode_from_size(s, p + bm.1);
        } else {
            lemma_lz_encode_from_size(s, p + 1);
        }
    }
}

/// Decoding distributes over appending one token at the end of a stream
/// whose length is a multiple of four.
proof fn lemma_lz_decode_from_append(s: Seq<u8>, t: Seq<u8>, out: Seq<u8>)
    requires
        s.len() % 4 == 0,
        t.len() == 4,
    ensures
        lz_decode_from(s + t, out) == lz_step(lz_decode_from(s, out), t),
    decreases s.len(),
{
    if s.len() == 0 {
        assert(s + t =~= t);
        assert(t.skip(4) =~= Seq::<u8>::empty());
        assert(t.take(4) =~= t);
        assert(lz_decode_from(Seq::<u8>::empty(), lz_step(out, t)) == lz_step(out, t));
        assert(lz_decode_from(t, out) == lz_step(out, t));
    } else {
        assert((s + t).take(4) =~= s.take(4));
        assert((s + t).skip(4) =~= s.skip(4) + t);
        lemma_lz_decode_from_append(s.skip(4), t, lz_step(out, s.take(4)));
        assert(lz_decode_from(s + t, out) == lz_decode_from(
            s.skip(4) + t,
            lz_step(out, s.take(4)),
        ));
        assert(lz_decode_from(s, out) == lz_decode_from(s.skip(4), lz_step(out, s.take(4))));
    }
}

/// When the `length` bytes at `p` match the bytes `offset` positions
/// earlier and the whole match source lies before `p`, expanding the
/// back-reference against the first `p` bytes reproduces exactly the
/// `length` bytes at `p`.
proof fn lemma_lz_expand_match(s: Seq<u8>, p: int, offset: int, length: int)
    requires
        1 <= offset <= p,
        0 <= length <= offset,
        p + length <= s.len(),
        forall|k: int| 0 <= k < length ==> s[p - offset + k] == #[trigger] s[p + k],
    ensures
        lz_expand(s.take(p), offset as nat, length as nat) == s.subrange(p, p + length),
{
    let out = s.take(p);
    assert forall|k: int| 0 <= k < length implies #[trigger] lz_expand(
        out,
        offset as nat,
        length as nat,
    )[k] == s[p + k] by {
        vstd::arithmetic::div_mod::lemma_small_mod(k as nat, offset as nat);
        assert(out[p - offset + k] == s[p - offset + k]);
    }
    assert(lz_expand(out, offset as nat, length as nat) =~= s.subrange(p, p + length));
}

/// Appending one back-reference byte: expanding `length + 1` bytes is
/// expanding `length` bytes and then the byte `offset` positions behind
/// the end of the grown output.
proof fn lemma_lz_expand_push(out: Seq<u8>, offset: nat, length: nat)
    requires
        1 <= offset <= out.len(),
    ensures
        lz_expand(out, offset, length + 1) == lz_expand(out, offset, length).push(
            (out + lz_expand(out, offset, length))[out.len() - offset + length],
        ),
{
    let grown = out + lz_expand(out, offset, length);
    let b = grown[out.len() - offset + length];
    if length < offset {
        vstd::arithmetic::div_mod::lemma_small_mod(length, offset);
        assert(b == out[out.len() - offset + length]);
    } else {
        assert((-(offset as int) + length) % (offset as int) == (length as int) % (
        offset as int)) by {
            vstd::arithmetic::div_mod::lemma_mod_sub_multiples_vanish(
                length as int,
                offset as int,
            );
        }
        assert(b == lz_expand(out, offset, length)[length - offset]);
    }
    assert(lz_expand(out, offset, length + 1) =~= lz_expand(out, offset, length).push(b));
}

/// Compress `data` with sliding-window LZ77: at each position search the
/// previous 4096 bytes for the longest match of at most 15 bytes lying
/// entirely before the position, emit a back-reference token when the best
/// match is longer than 2 bytes, and a literal token otherwise.
pub fn lz77_compress(data: &[u8]) -> (compressed: Vec<u8>)
    ensures
        compressed@ == lz_encode(data@),
        lz_decode(compressed@) == data@,
        lz_wf(compressed@),
{
    let mut compressed: Vec<u8> = Vec::new();
    let mut pos: usize = 0;
    proof {
        assert(compressed@ =~= Seq::<u8>::empty());
        assert(data@.take(0) =~= Seq::<u8>::empty());
        assert(compressed@ + lz_encode(data@) =~= lz_encode(data@));
    }
    while pos < data.len()
        invariant
            pos <= data@.len(),
            compressed@.len() % 4 == 0,
            lz_decode(compressed@) == data@.take(pos as int),
            lz_encode(data@) == compressed@ + lz_encode_from(data@, pos as int),
            lz_wf(compressed@),
        decreases data@.len() - pos,
    {
        let window_start: usize = if pos > 4096 {
            pos - 4096
        } else {
            0
        };
        let mut best_offset: usize = 0;
        let mut best_len: usize = 0;
        let mut i: usize = window_start;
        proof {
            assert(window_start == lz_window_start(pos as int));
        }
        while i < pos
            invariant
                window_start <= i <= pos,
                pos < data@.len() <= usize::MAX,
                pos - window_start <= 4096,
                window_start == lz_window_start(pos as int),
                best_len <= 15,
                lz_best_match(data@, pos as int) == lz_best_match_from(
                    data@,
                    i as int,
                    pos as int,
                    best_offset as nat,
                    best_len as nat,
                ),
                best_len > 0 ==> 1 <= best_offset <= pos - window_start && best_len <= best_offset
                    && pos + best_len <= data@.len() && forall|k: int|
                    0 <= k < best_len ==> data@[pos - best_offset + k] == #[trigger] data@[pos + k],
            decreases pos - i,
        {
            let mut match_len: usize = 0;
            while match_len < 15 && pos + match_len < data.len() && i + match_len < pos && data[i
                + match_len] == data[pos + match_len]
                invariant
                    window_start <= i < pos,
                    pos < data@.len() <= usize::MAX,
                    match_len <= 15,
                    i + match_len <= pos,
                    pos + match_len <= data@.len(),
                    lz_match_len(data@, i as int, pos as int, 0) == lz_match_len(
                        data@,
                        i as int,
                        pos as int,
                        match_len as nat,
                    ),
                    forall|k: int|
                        0 <= k < match_len ==> data@[i + k] == #[trigger] data@[pos + k],
                decreases 15 - match_len,
            {
                match_len += 1;
            }
            proof {
                assert(lz_match_len(data@, i as int, pos as int, match_len as nat)
                    == match_len as nat);
            }
            if match_len > best_len {
                best_offset = pos - i;
                best_len = match_len;
            }
            i += 1;
        }
        proof {
            assert(lz_best_match(data@, pos as int) == (best_offset as nat, best_len as nat));
        }
        let ghost pre = compressed@;
        if best_len > 2 {
            compressed.push((best_offset / 256) as u8);
            compressed.push((best_offset % 256) as u8);
            compressed.push(best_len as u8);
            compressed.push(0);
            proof {
                let t = seq![
                    (best_offset / 256) as u8,
                    (best_offset % 256) as u8,
                    best_len as u8,
                    0u8,
                ];
                assert(compressed@ =~= pre + t);
                assert(token_offset(t) == best_offset) by {
                    vstd::arithmetic::div_mod::lemma_fundamental_div_mod(
                        best_offset as int,
                        256,
                    );
                }
                lemma_lz_decode_from_append(pre, t, Seq::empty());
                lemma_lz_expand_match(
                    data@,
                    pos as int,
                    best_offset as int,
                    best_len as int,
                );
                assert(lz_step(data@.take(pos as int), t) == data@.take(pos as int)
                    + data@.subrange(pos as int, pos + best_len));
                assert(data@.take(pos as int) + data@.subrange(pos as int, pos + best_len)
                    =~= data@.take(pos + best_len));
                assert(lz_encode_from(data@, pos as int) == t + lz_encode_from(
                    data@,
                    pos + best_len,
                ));
                assert(pre + lz_encode_from(data@, pos as int) =~= compressed@ + lz_encode_from(
                    data@,
                    pos + best_len,
                ));
                assert forall|j: int|
                    0 <= j && 4 * j + 3 < compressed@.len() implies valid_token(
                    #[trigger] compressed@.subrange(4 * j, 4 * j + 4),
                ) by {
                    if 4 * j + 3 < pre.len() {
                        assert(compressed@.subrange(4 * j, 4 * j + 4) =~= pre.subrange(
                            4 * j,
                            4 * j + 4,
                        ));
                    } else {
                        assert(compressed@.subrange(4 * j, 4 * j + 4) =~= t);
                    }
                }
            }
            pos += best_len;
        } else {
            compressed.push(0);
            compressed.push(0);
            compressed.push(0);
            compressed.push(data[pos]);
            proof {
                let t = seq![0u8, 0u8, 0u8, data@[pos as int]];
                assert(compressed@ =~= pre + t);
                assert(token_offset(t) == 0);
                lemma_lz_decode_from_append(pre, t, Seq::empty());
                assert(lz_step(data@.take(pos as int), t) == data@.take(pos as int).push(
                    data@[pos as int],
                ));
                assert(data@.take(pos as int).push(data@[pos as int]) =~= data@.take(pos + 1));
                assert(lz_encode_from(data@, pos as int) == t + lz_encode_from(data@, pos + 1));
                assert(pre + lz_encode_from(data@, pos as int) =~= compressed@ + lz_encode_from(
                    data@,
                    pos + 1,
                ));
                assert forall|j: int|
                    0 <= j && 4 * j + 3 < compressed@.len() implies valid_token(
                    #[trigger] compressed@.subrange(4 * j, 4 * j + 4),
                ) by {
                    if 4 * j + 3 < pre.len() {
                        assert(compressed@.subrange(4 * j, 4 * j + 4) =~= pre.subrange(
                            4 * j,
                            4 * j + 4,
                        ));
                    } else {
                        assert(compressed@.subrange(4 * j, 4 * j + 4) =~= t);
                    }
                }
            }
            pos += 1;
        }
    }
    proof {
        assert(data@.take(data@.len() as int) =~= data@);
        assert(lz_encode_from(data@, data@.len() as int) == Seq::<u8>::empty());
        assert(compressed@ + Seq::<u8>::empty() =~= compressed@);
    }
    compressed
}

/// Decompress an LZ77 stream: read four-byte tokens, append the literal
/// byte of a literal token, and expand a back-reference by copying from
/// the output produced so far, one byte at a time. Fewer than four
/// trailing bytes are dropped; a back-reference whose offset is 0 or
/// exceeds the output produced so far yields nothing.
pub fn lz77_decompress(data: &[u8]) -> (decompressed: Vec<u8>)
    ensures
        decompressed@ == lz_decode(data@),
{
    let mut decompressed: Vec<u8> = Vec::new();
    let mut i: usize = 0;
    proof {
        assert(data@.skip(0) =~= data@);
        assert(decompressed@ =~= Seq::<u8>::empty());
    }
    while i < data.len() && data.len() - i >= 4
        invariant
            i <= data@.len(),
            lz_decode(data@) == lz_decode_from(data@.skip(i as int), decompressed@),
        decreases data@.len() - i,
    {
        let ghost token = data@.skip(i as int).take(4);
        proof {
            assert(token[0] == data@[i as int] && token[1] == data@[i + 1] && token[2] == data@[i
                + 2] && token[3] == data@[i + 3]);
            assert(data@.skip(i as int).skip(4) =~= data@.skip(i + 4));
        }
        let offset = (data[i] as usize) * 256 + (data[i + 1] as usize);
        let length = data[i + 2] as usize;
        let ghost base = decompressed@;
        if offset == 0 && length == 0 {
            decompressed.push(data[i + 3]);
        } else {
            if 1 <= offset && offset <= decompressed.len() {
                let copy_start = decompressed.len() - offset;
                let mut j: usize = 0;
                proof {
                    assert(lz_expand(base, offset as nat, 0) =~= Seq::<u8>::empty());
                    assert(base + lz_expand(base, offset as nat, 0) =~= base);
                }
                while j < length
                    invariant
                        j <= length <= 255,
                        1 <= offset <= base.len(),
                        copy_start == base.len() - offset,
                        decompressed.len() == base.len() + j,
                        decompressed@ == base + lz_expand(base, offset as nat, j as nat),
                    decreases length - j,
                {
                    proof {
                        lemma_lz_expand_push(base, offset as nat, j as nat);
                    }
                    let b = decompressed[copy_start + j];
                    decompressed.push(b);
                    proof {
                        assert(decompressed@ =~= base + lz_expand(
                            base,
                            offset as nat,
                            (j + 1) as nat,
                        ));
                    }
                    j += 1;
                }
                proof {
                    assert(decompressed@ == lz_step(base, token));
                }
            } else {
                proof {
                    assert(lz_expand(base, offset as nat, length as nat) =~= Seq::<u8>::empty());
                    assert(base + lz_expand(base, offset as nat, length as nat) =~= base);
                    assert(decompressed@ == lz_step(base, token));
                }
            }
        }
        i += 4;
    }
    proof {
        assert(data@.skip(i as int).len() < 4);
    }
    decompressed
}

} // verus!
