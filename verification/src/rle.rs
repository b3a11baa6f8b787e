//! Run-length codec.
//!
//! An encoded stream is a flat concatenation of two-byte `(count, value)`
//! tokens, so its length is always even. A maximal run of equal bytes is
//! split into chunks of at most 255 and one token is emitted per chunk, so
//! a count is never 0 in a well-formed stream. Decoding expands each token
//! into `count` copies of `value`; a dangling trailing byte with no value
//! byte after it is dropped, and a count of 0 simply contributes nothing.

use vstd::prelude::*;

verus! {

/// Length of the longest prefix of `s` whose bytes all equal `s[0]`.
pub open spec fn leading_run(s: Seq<u8>) -> nat
    decreases s.len(),
{
    if s.len() == 0 {
        0
    } else if s.len() >= 2 && s[1] == s[0] {
        1 + leading_run(s.skip(1))
    } else {
        1
    }
}

/// `leading_run` is between 1 and `s.len()` for a nonempty `s`, covers only
/// bytes equal to `s[0]`, and stops at the first byte that differs.
pub proof fn lemma_leading_run(s: Seq<u8>)
    requires
        s.len() > 0,
    ensures
        1 <= leading_run(s) <= s.len(),
        forall|k: int| 0 <= k < leading_run(s) ==> #[trigger] s[k] == s[0],
        leading_run(s) < s.len() ==> s[leading_run(s) as int] != s[0],
    decreases s.len(),
{
    if s.len() >= 2 && s[1] == s[0] {
        let t = s.skip(1);
        lemma_leading_run(t);
        assert forall|k: int| 0 <= k < leading_run(s) implies #[trigger] s[k] == s[0] by {
            if k >= 1 {
                assert(t[k - 1] == t[0]);
            }
        }
    }
}

/// `leading_run` is exactly `n` when the first `n` bytes all equal `s[0]`
/// and either the input ends there or the next byte differs.
pub proof fn lemma_leading_run_is(s: Seq<u8>, n: int)
    requires
        1 <= n <= s.len(),
        forall|k: int| 0 <= k < n ==> #[trigger] s[k] == s[0],
        n == s.len() || s[n] != s[0],
    ensures
        leading_run(s) == n,
{
    lemma_leading_run(s);
    if leading_run(s) < n {
        assert(s[leading_run(s) as int] == s[0]);
    }
    if n < leading_run(s) {
        assert(s[n] == s[0]);
    }
}

/// The token stream that greedy run-length encoding produces: each maximal
/// run is emitted as `(count, value)` tokens with counts capped at 255.
pub open spec fn rle_encode(s: Seq<u8>) -> Seq<u8>
    decreases s.len(),
    via rle_encode_decreases
{
    if s.len() == 0 {
        Seq::empty()
    } else {
        let c = if leading_run(s) <= 255 {
            leading_run(s)
        } else {
            255
        };
        seq![c as u8, s[0]] + rle_encode(s.skip(c as int))
    }
}

#[via_fn]
proof fn rle_encode_decreases(s: Seq<u8>) {
    if s.len() > 0 {
        lemma_leading_run(s);
    }
}

/// The byte sequence a token stream expands to: each `(count, value)` pair
/// contributes `count` copies of `value`; a dangling odd byte is dropped.
pub open spec fn rle_decode(s: Seq<u8>) -> Seq<u8>
    decreases s.len(),
{
    if s.len() < 2 {
        Seq::empty()
    } else {
        Seq::new(s[0] as nat, |k: int| s[1]) + rle_decode(s.skip(2))
    }
}

/// Round-trip identity: decoding an encoded stream restores the input
/// exactly, for every byte sequence.
pub proof fn lemma_rle_round_trip(s: Seq<u8>)
    ensures
        rle_decode(rle_encode(s)) == s,
    decreases s.len(),
{
    if s.len() == 0 {
        assert(rle_decode(rle_encode(s)) =~= s);
    } else {
        lemma_leading_run(s);
        let c: int = if leading_run(s) <= 255 {
            leading_run(s) as int
        } else {
            255
        };
        let enc = rle_encode(s);
        lemma_rle_round_trip(s.skip(c));
        assert(enc.skip(2) =~= rle_encode(s.skip(c)));
        assert(rle_decode(enc) =~= s) by {
            assert(enc[0] == c as u8 && enc[1] == s[0]);
            assert(forall|k: int| 0 <= k < c ==> #[trigger] s[k] == s[0]);
            assert(rle_decode(enc) == Seq::new(c as nat, |k: int| s[0]) + s.skip(c));
        }
    }
}

/// Every count byte of an encoded stream is at least 1, and the stream
/// length is even: two bytes per token.
pub proof fn lemma_rle_encode_shape(s: Seq<u8>)
    ensures
        rle_encode(s).len() % 2 == 0,
        forall|t: int| 0 <= t && 2 * t < rle_encode(s).len() ==> #[trigger] rle_encode(s)[2 * t]
            >= 1,
    decreases s.len(),
{
    if s.len() > 0 {
        lemma_leading_run(s);
        let c: int = if leading_run(s) <= 255 {
            leading_run(s) as int
        } else {
            255
        };
        lemma_rle_encode_shape(s.skip(c));
        let rest = rle_encode(s.skip(c));
        assert forall|t: int| 0 <= t && 2 * t < rle_encode(s).len() implies #[trigger] rle_encode(
            s,
        )[2 * t] >= 1 by {
            if t > 0 {
                assert(rle_encode(s)[2 * t] == rest[2 * (t - 1)]);
            }
        }
    }
}

/// The tokens that one maximal run of `len` copies of `v` is encoded to:
/// one `(255, v)` token per full chunk of 255, then one `(len % 255, v)`
/// token for the remainder, if any.
pub open spec fn rle_run_tokens(v: u8, len: nat) -> Seq<u8>
    decreases len,
{
    if len == 0 {
        Seq::empty()
    } else if len <= 255 {
        seq![len as u8, v]
    } else {
        seq![255u8, v] + rle_run_tokens(v, (len - 255) as nat)
    }
}

/// A run of `len` equal bytes becomes exactly `ceil(len / 255)` tokens,
/// two bytes each.
pub proof fn lemma_rle_run_tokens_count(v: u8, len: nat)
    ensures
        rle_run_tokens(v, len).len() == 2 * ((len + 254) / 255),
    decreases len,
{
    if len == 0 {
        assert((0 + 254) / 255 == 0) by {
            vstd::arithmetic::div_mod::lemma_div_multiples_vanish_fancy(0, 254, 255);
        }
    } else if len <= 255 {
        assert((len + 254) / 255 == 1) by {
            assert(len + 254 == 255 * 1 + (len - 1));
            vstd::arithmetic::div_mod::lemma_div_multiples_vanish_fancy(1, len as int - 1, 255);
        }
    } else {
        lemma_rle_run_tokens_count(v, (len - 255) as nat);
        assert((len + 254) / 255 == 1 + ((len - 255) + 254) / 255) by {
            vstd::arithmetic::div_mod::lemma_div_plus_one(len as int - 1, 255);
        }
    }
}

/// Encoding emits the leading maximal run as exactly its `rle_run_tokens`
/// and then encodes the rest of the input.
pub proof fn lemma_rle_encode_run_split(s: Seq<u8>)
    requires
        s.len() > 0,
    ensures
        rle_encode(s) == rle_run_tokens(s[0], leading_run(s)) + rle_encode(
            s.skip(leading_run(s) as int),
        ),
    decreases s.len(),
{
    lemma_leading_run(s);
    let lr = leading_run(s) as int;
    if lr <= 255 {
        assert(rle_encode(s) == seq![lr as u8, s[0]] + rle_encode(s.skip(lr)));
    } else {
        let t = s.skip(255);
        assert(t[0] == s[0]);
        assert forall|k: int| 0 <= k < lr - 255 implies #[trigger] t[k] == t[0] by {
            assert(s[255 + k] == s[0]);
        }
        if lr - 255 < t.len() {
            assert(t[lr - 255] == s[lr]);
        }
        lemma_leading_run_is(t, lr - 255);
        lemma_rle_encode_run_split(t);
        assert(t.skip(lr - 255) =~= s.skip(lr));
        assert(seq![255u8, s[0]] + (rle_run_tokens(s[0], (lr - 255) as nat) + rle_encode(
            s.skip(lr),
        )) =~= rle_run_tokens(s[0], leading_run(s)) + rle_encode(s.skip(lr)));
    }
}

/// Encoding splits at a run boundary: where two adjacent bytes differ, no
/// emitted token straddles them, so the whole stream is the encoding of
/// the prefix followed by the encoding of the suffix.
pub proof fn lemma_rle_encode_boundary_split(s: Seq<u8>, q: int)
    requires
        0 < q < s.len(),
        s[q - 1] != s[q],
    ensures
        rle_encode(s) == rle_encode(s.take(q)) + rle_encode(s.skip(q)),
    decreases s.len(),
{
    lemma_leading_run(s);
    let lr = leading_run(s) as int;
    assert(lr <= q) by {
        if lr > q {
            assert(s[q - 1] == s[0]);
            assert(s[q] == s[0]);
        }
    }
    let c: int = if lr <= 255 {
        lr
    } else {
        255
    };
    let p = s.take(q);
    assert forall|k: int| 0 <= k < lr implies #[trigger] p[k] == p[0] by {
        assert(s[k] == s[0]);
    }
    if lr < q {
        assert(p[lr] == s[lr]);
    }
    lemma_leading_run_is(p, lr);
    if c == q {
        assert(rle_encode(s) == seq![c as u8, s[0]] + rle_encode(s.skip(q)));
        assert(p.skip(c) =~= Seq::<u8>::empty());
        assert(rle_encode(p) == seq![c as u8, s[0]] + rle_encode(p.skip(c)));
        assert(seq![c as u8, s[0]] + (Seq::<u8>::empty() + rle_encode(s.skip(q))) =~= (seq![
            c as u8,
            s[0],
        ] + Seq::<u8>::empty()) + rle_encode(s.skip(q)));
    } else {
        let u = s.skip(c);
        assert(u[q - c - 1] == s[q - 1]);
        assert(u[q - c] == s[q]);
        lemma_rle_encode_boundary_split(u, q - c);
        assert(u.take(q - c) =~= p.skip(c));
        assert(u.skip(q - c) =~= s.skip(q));
        assert(rle_encode(p) == seq![c as u8, s[0]] + rle_encode(p.skip(c)));
        assert(seq![c as u8, s[0]] + (rle_encode(p.skip(c)) + rle_encode(s.skip(q))) =~= (seq![
            c as u8,
            s[0],
        ] + rle_encode(p.skip(c))) + rle_encode(s.skip(q)));
    }
}

/// Token bound for a maximal run anywhere in a buffer: a run of `len`
/// copies of `v` bounded on both sides by a different byte (or an end of
/// the input) is encoded as exactly its `rle_run_tokens` — `ceil(len /
/// 255)` tokens, each with count at most 255 — between the encodings of
/// what precedes and what follows it.
pub proof fn lemma_rle_run_token_bound_in_buffer(s: Seq<u8>, q: int, len: int)
    requires
        0 <= q,
        1 <= len,
        q + len <= s.len(),
        forall|k: int| q <= k < q + len ==> #[trigger] s[k] == s[q],
        q == 0 || s[q - 1] != s[q],
        q + len == s.len() || s[q + len] != s[q],
    ensures
        rle_encode(s) == rle_encode(s.take(q)) + rle_run_tokens(s[q], len as nat) + rle_encode(
            s.skip(q + len),
        ),
{
    let u = s.skip(q);
    assert(u[0] == s[q]);
    assert forall|k: int| 0 <= k < len implies #[trigger] u[k] == u[0] by {
        assert(s[q + k] == s[q]);
    }
    if len < u.len() {
        assert(u[len] == s[q + len]);
    }
    lemma_leading_run_is(u, len);
    lemma_rle_encode_run_split(u);
    assert(u.skip(len) =~= s.skip(q + len));
    if q == 0 {
        assert(u =~= s);
        assert(s.take(0) =~= Seq::<u8>::empty());
        assert(rle_encode(s) =~= (Seq::<u8>::empty() + rle_run_tokens(s[q], len as nat))
            + rle_encode(s.skip(q + len)));
    } else {
        lemma_rle_encode_boundary_split(s, q);
        assert(rle_encode(s.take(q)) + (rle_run_tokens(s[q], len as nat) + rle_encode(
            s.skip(q + len),
        )) =~= (rle_encode(s.take(q)) + rle_run_tokens(s[q], len as nat)) + rle_encode(
            s.skip(q + len),
        ));
    }
}

/// Token bound for a buffer that is a single run: `len` equal bytes are
/// encoded into exactly `ceil(len / 255)` tokens, two bytes each.
pub proof fn lemma_rle_run_token_bound(v: u8, len: nat)
    ensures
        rle_encode(Seq::new(len, |k: int| v)).len() == 2 * ((len + 254) / 255),
{
    let s = Seq::new(len, |k: int| v);
    lemma_rle_run_tokens_count(v, len);
    if len > 0 {
        lemma_leading_run_is(s, len as int);
        lemma_rle_encode_run_split(s);
        assert(s.skip(len as int) =~= Seq::<u8>::empty());
        assert(rle_encode(s) =~= rle_run_tokens(v, len));
    }
}

/// Compress `data` by run-length encoding: scan left to right, count up to
/// 255 consecutive repetitions of the current byte, emit one
/// `(count, value)` token per chunk and advance past it.
pub fn rle_compress(data: &[u8]) -> (compressed: Vec<u8>)
    ensures
        compressed@ == rle_encode(data@),
        rle_decode(compressed@) == data@,
        compressed@.len() % 2 == 0,
{
    let mut compressed: Vec<u8> = Vec::new();
    let mut i: usize = 0;
    proof {
        assert(data@.skip(0) =~= data@);
        assert(compressed@ + rle_encode(data@) =~= rle_encode(data@));
    }
    while i < data.len()
        invariant
            i <= data@.len(),
            rle_encode(data@) == compressed@ + rle_encode(data@.skip(i as int)),
        decreases data@.len() - i,
    {
        let current = data[i];
        let mut count: usize = 1;
        while i + count < data.len() && data[i + count] == current && count < 255
            invariant
                i < data@.len() <= usize::MAX,
                1 <= count <= 255,
                i + count <= data@.len(),
                current == data@[i as int],
                forall|k: int| 0 <= k < count ==> #[trigger] data@[i + k] == current,
            decreases data@.len() - i - count,
        {
            count += 1;
        }
        proof {
            let s = data@.skip(i as int);
            assert(forall|k: int| 0 <= k < s.len() ==> s[k] == data@[i + k]);
            if count < 255 {
                lemma_leading_run_is(s, count as int);
            } else {
                lemma_leading_run(s);
                if leading_run(s) < 255 {
                    assert(s[leading_run(s) as int] == s[0]);
                }
            }
            assert(s.skip(count as int) =~= data@.skip(i + count));
            assert(rle_encode(s) == seq![count as u8, current] + rle_encode(
                data@.skip(i + count),
            ));
        }
        let ghost pre = compressed@;
        compressed.push(count as u8);
        compressed.push(current);
        proof {
            assert(compressed@ =~= pre + seq![count as u8, current]);
            assert(pre + rle_encode(data@.skip(i as int)) =~= compressed@ + rle_encode(
                data@.skip(i + count),
            ));
        }
        i += count;
    }
    proof {
        assert(data@.skip(data@.len() as int) =~= Seq::<u8>::empty());
        assert(compressed@ + rle_encode(Seq::<u8>::empty()) =~= compressed@);
        lemma_rle_round_trip(data@);
        lemma_rle_encode_shape(data@);
    }
    compressed
}

/// Decompress a run-length stream: read two-byte `(count, value)` tokens
/// and append `count` copies of `value` for each; a dangling trailing byte
/// is dropped.
pub fn rle_decompress(data: &[u8]) -> (decompressed: Vec<u8>)
    ensures
        decompressed@ == rle_decode(data@),
{
    let mut decompressed: Vec<u8> = Vec::new();
    let mut i: usize = 0;
    proof {
        assert(data@.skip(0) =~= data@);
        assert(decompressed@ + rle_decode(data@) =~= rle_decode(data@));
    }
    while i < data.len() && i + 1 < data.len()
        invariant
            i <= data@.len(),
            rle_decode(data@) == decompressed@ + rle_decode(data@.skip(i as int)),
        decreases data@.len() - i,
    {
        let count = data[i] as usize;
        let value = data[i + 1];
        let ghost pre = decompressed@;
        let mut j: usize = 0;
        while j < count
            invariant
                j <= count,
                decompressed@ == pre + Seq::new(j as nat, |k: int| value),
            decreases count - j,
        {
            decompressed.push(value);
            proof {
                assert(decompressed@ =~= pre + Seq::new((j + 1) as nat, |k: int| value));
            }
            j += 1;
        }
        proof {
            let s = data@.skip(i as int);
            assert(s[0] == data@[i as int] && s[1] == data@[i + 1]);
            assert(s.skip(2) =~= data@.skip(i + 2));
            assert(rle_decode(s) == Seq::new(count as nat, |k: int| value) + rle_decode(
                data@.skip(i + 2),
            ));
            assert(pre + rle_decode(s) =~= decompressed@ + rle_decode(data@.skip(i + 2)));
        }
        i += 2;
    }
    proof {
        assert(data@.skip(i as int).len() < 2);
        assert(decompressed@ + rle_decode(data@.skip(i as int)) =~= decompressed@);
    }
    decompressed
}

} // verus!
