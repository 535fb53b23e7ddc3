//! The laws the codec obeys, proved over the same specifications that the
//! executable functions are verified against.

use vstd::prelude::*;

use crate::bits::bits_of_bytes;
use crate::bits::bytes_of_bits;
use crate::bits::lemma_bits_round_trip;
use crate::bits::lemma_bytes_round_trip;
use crate::codec::chunk_at;
use crate::codec::codeword_stream;
use crate::codec::data_stream;
use crate::codec::decode_spec;
use crate::codec::decoded_bit_len;
use crate::codec::encode_spec;
use crate::codec::last_chunk_bits;
use crate::codec::lemma_codeword_stream_len;
use crate::codec::lemma_codeword_stream_window;
use crate::codec::magic;
use crate::codec::num_chunks;
use crate::codec::lemma_num_chunks_bounds;
use crate::codec::valid_encoded;
use crate::codec::window_at;
use crate::corruptor::corrupt_bits;
use crate::corruptor::corrupt_spec;
use crate::corruptor::valid_corruption;
use crate::hamming::data_bits_of;
use crate::hamming::decode_chunk_spec;
use crate::hamming::encode_chunk_spec;
use crate::hamming::lemma_decode_encoded_chunk;
use crate::hamming::lemma_decode_flipped_chunk;
use crate::hamming::valid_codeword_bits;
use vstd::arithmetic::div_mod::lemma_fundamental_div_mod;
use vstd::arithmetic::div_mod::lemma_fundamental_div_mod_converse;

verus! {

/// When every codeword window of a payload decodes to the matching data
/// chunk of a stream, the decoded prefix is that stream, zero-padded.
proof fn lemma_data_stream_collects(
    pb: Seq<bool>,
    bits: Seq<bool>,
    n: int,
    count: int,
    c: int,
    fix: bool,
)
    requires
        valid_codeword_bits(n),
        0 <= c <= count,
        forall|w: int|
            0 <= w < count ==> #[trigger] decode_chunk_spec(window_at(pb, n, w), n, fix)
                == chunk_at(bits, data_bits_of(n), w),
    ensures
        data_stream(pb, n, c, fix) == Seq::new(
            (c * data_bits_of(n)) as nat,
            |i: int| i < bits.len() && bits[i],
        ),
    decreases c,
{
    let k = data_bits_of(n);
    if c == 0 {
        assert(data_stream(pb, n, 0, fix) =~= Seq::new(
            (0 * k) as nat,
            |i: int| i < bits.len() && bits[i],
        ));
    } else {
        lemma_data_stream_collects(pb, bits, n, count, c - 1, fix);
        assert((c - 1) * k + k == c * k) by (nonlinear_arith);
        assert((c - 1) * k >= 0) by (nonlinear_arith)
            requires
                c >= 1,
                k >= 1,
        ;
        assert(data_stream(pb, n, c, fix) =~= Seq::new(
            (c * k) as nat,
            |i: int| i < bits.len() && bits[i],
        ));
    }
}

/// The number of bits in the codeword stream is a multiple of eight, so
/// packing it into bytes pads nothing.
proof fn lemma_stream_len_octets(l: int, k: int, n: int, count: int)
    requires
        valid_codeword_bits(n),
        k == data_bits_of(n),
        l % 8 == 0,
        l >= 0,
        count == num_chunks(l, k),
    ensures
        (count * n) % 8 == 0,
        count >= 0,
{
    lemma_fundamental_div_mod(l, 8);
    let m = l / 8;
    if n == 4 {
        lemma_fundamental_div_mod_converse(l, 1, l, 0);
        assert(count == l);
        assert(count * n == (4 * m) * 8) by (nonlinear_arith)
            requires
                count == l,
                l == 8 * m,
                n == 4,
        ;
        lemma_fundamental_div_mod_converse(count * n, 8, 4 * m, 0);
    } else if n == 8 {
        if l == 0 {
            lemma_fundamental_div_mod_converse(k - 1, k, 0, k - 1);
        } else {
            lemma_num_chunks_bounds(l, k);
        }
        lemma_fundamental_div_mod_converse(count * 8, 8, count, 0);
    } else {
        if l == 0 {
            lemma_fundamental_div_mod_converse(k - 1, k, 0, k - 1);
        } else {
            lemma_num_chunks_bounds(l, k);
        }
        assert(count * 16 == (2 * count) * 8) by (nonlinear_arith);
        lemma_fundamental_div_mod_converse(count * 16, 8, 2 * count, 0);
    }
}

/// When an encoded-shaped buffer carries, window for window, the chunks
/// of `x`'s bit stream, decoding it returns `x`.
proof fn lemma_decode_from_chunks(f: Seq<u8>, x: Seq<u8>, n: int, fix: bool)
    requires
        valid_codeword_bits(n),
        f.len() >= 9,
        f[8] as int == n,
        f[7] as int == last_chunk_bits(8 * (x.len() as int), data_bits_of(n)),
        bits_of_bytes(f.skip(9)).len() == num_chunks(8 * (x.len() as int), data_bits_of(n)) * n,
        forall|w: int|
            0 <= w < num_chunks(8 * (x.len() as int), data_bits_of(n)) ==> #[trigger] decode_chunk_spec(
                window_at(bits_of_bytes(f.skip(9)), n, w),
                n,
                fix,
            ) == chunk_at(bits_of_bytes(x), data_bits_of(n), w),
    ensures
        decode_spec(f, fix) == x,
{
    let k = data_bits_of(n);
    let bits = bits_of_bytes(x);
    let l = 8 * x.len() as int;
    let count = num_chunks(l, k);
    let pb = bits_of_bytes(f.skip(9));
    if x.len() == 0 {
        lemma_fundamental_div_mod_converse(k - 1, k, 0, k - 1);
        assert(count == 0);
    } else {
        lemma_num_chunks_bounds(l, k);
    }
    lemma_fundamental_div_mod_converse(pb.len() as int, n, count, 0);
    assert(pb.len() as int / n == count);
    lemma_data_stream_collects(pb, bits, n, count, count, fix);
    lemma_bytes_round_trip(x);
    if x.len() == 0 {
        assert(decoded_bit_len(0, k, f[7] as int) == 0);
        assert(data_stream(pb, n, 0, fix).take(0) =~= bits);
        assert(decode_spec(f, fix) == bytes_of_bits(bits));
    } else {
        let last = l - k * (count - 1);
        assert(f[7] as int == last);
        assert((count - 1) * k + last == l) by (nonlinear_arith)
            requires
                last == l - k * (count - 1),
        ;
        assert(l <= count * k) by (nonlinear_arith)
            requires
                l <= k * count,
        ;
        assert(decoded_bit_len(count, k, f[7] as int) == l);
        assert(data_stream(pb, n, count, fix).take(l) =~= bits);
        assert(decode_spec(f, fix) == bytes_of_bits(bits));
    }
}

/// Round trip: decoding an encoded buffer returns the original input,
/// whether or not the correction pass runs, and every encoded buffer is
/// accepted by the decoder.
pub proof fn lemma_round_trip(x: Seq<u8>, n: int, fix: bool)
    requires
        valid_codeword_bits(n),
    ensures
        valid_encoded(encode_spec(x, n)),
        decode_spec(encode_spec(x, n), fix) == x,
{
    let f = encode_spec(x, n);
    let bits = bits_of_bytes(x);
    let l = bits.len() as int;
    let k = data_bits_of(n);
    let count = num_chunks(l, k);
    let stream = codeword_stream(bits, n, count);
    lemma_fundamental_div_mod_converse(l, 8, x.len() as int, 0);
    lemma_stream_len_octets(l, k, n, count);
    lemma_codeword_stream_len(bits, n, count);
    let s = count * n;
    lemma_fundamental_div_mod(s, 8);
    let m = s / 8;
    assert(s == 8 * m);
    lemma_fundamental_div_mod_converse(s + 7, 8, m, 7);
    assert(bytes_of_bits(stream).len() == m);
    if l == 0 {
        lemma_fundamental_div_mod_converse(k - 1, k, 0, k - 1);
        assert(count == 0);
    } else {
        lemma_num_chunks_bounds(l, k);
        assert(k * count == k * (count - 1) + k) by (nonlinear_arith);
    }
    assert(0 <= last_chunk_bits(l, k) <= k);
    assert(f.len() == 9 + m);
    assert(f[7] as int == last_chunk_bits(l, k));
    assert(f[8] as int == n);
    assert(f.subrange(0, 7) =~= magic());
    assert(f.skip(9) =~= bytes_of_bits(stream));
    lemma_bits_round_trip(stream);
    assert(bits_of_bytes(f.skip(9)) == stream);
    lemma_fundamental_div_mod_converse(s, n, count, 0);
    assert(((f.len() - 9) * 8) % n == 0);
    assert(valid_encoded(f));
    assert forall|w: int| 0 <= w < count implies #[trigger] decode_chunk_spec(
        window_at(stream, n, w),
        n,
        fix,
    ) == chunk_at(bits, k, w) by {
        lemma_codeword_stream_window(bits, n, count, w);
        lemma_decode_encoded_chunk(chunk_at(bits, k, w), n, fix);
    }
    lemma_decode_from_chunks(f, x, n, fix);
}

/// Single-bit resilience: after the fault injector flips one bit in every
/// codeword, decoding with the correction pass still returns the original
/// input.
#[verifier::rlimit(50)]
pub proof fn lemma_single_bit_resilience(x: Seq<u8>, n: int, idxs: Seq<usize>)
    requires
        valid_codeword_bits(n),
        valid_corruption(encode_spec(x, n), idxs),
    ensures
        valid_encoded(corrupt_spec(encode_spec(x, n), idxs)),
        decode_spec(corrupt_spec(encode_spec(x, n), idxs), true) == x,
{
    let f = encode_spec(x, n);
    let g = corrupt_spec(f, idxs);
    let bits = bits_of_bytes(x);
    let l = bits.len() as int;
    let k = data_bits_of(n);
    let count = num_chunks(l, k);
    let stream = codeword_stream(bits, n, count);
    lemma_round_trip(x, n, true);
    lemma_fundamental_div_mod_converse(l, 8, x.len() as int, 0);
    lemma_stream_len_octets(l, k, n, count);
    lemma_codeword_stream_len(bits, n, count);
    let s = count * n;
    lemma_fundamental_div_mod(s, 8);
    let m = s / 8;
    lemma_fundamental_div_mod_converse(s + 7, 8, m, 7);
    assert(f.skip(9) =~= bytes_of_bits(stream));
    lemma_bits_round_trip(stream);
    let cb = corrupt_bits(stream, n, idxs);
    assert(cb.len() == s);
    assert(g == f.take(9) + bytes_of_bits(cb));
    assert(bytes_of_bits(cb).len() == m);
    assert(g.len() == f.len());
    assert(g[7] == f[7] && g[8] == f[8]);
    assert(g.len() >= 9);
    assert(g.skip(9) =~= bytes_of_bits(cb));
    lemma_bits_round_trip(cb);
    assert(bits_of_bytes(g.skip(9)) == cb);
    assert(idxs.len() == count) by (nonlinear_arith)
        requires
            idxs.len() * n == (f.len() - 9) * 8,
            (f.len() - 9) * 8 == count * n,
            n >= 1,
            idxs.len() >= 0,
            count >= 0,
    ;
    assert(g.subrange(0, 7) =~= magic());
    lemma_fundamental_div_mod_converse(s, n, count, 0);
    assert(valid_encoded(g));
    assert forall|w: int| 0 <= w < count implies #[trigger] decode_chunk_spec(
        window_at(cb, n, w),
        n,
        true,
    ) == chunk_at(bits, k, w) by {
        lemma_codeword_stream_window(bits, n, count, w);
        let ec = encode_chunk_spec(chunk_at(bits, k, w), n);
        let p = idxs[w] as int;
        assert((w + 1) * n <= count * n) by (nonlinear_arith)
            requires
                w + 1 <= count,
                n >= 0,
        ;
        assert(w * n + n == (w + 1) * n) by (nonlinear_arith);
        assert forall|t: int| 0 <= t < n implies window_at(cb, n, w)[t] == ec.update(p, !ec[p])[t]
            by {
            lemma_fundamental_div_mod_converse(w * n + t, n, w, t);
            assert(cb[w * n + t] == if p == t {
                !stream[w * n + t]
            } else {
                stream[w * n + t]
            });
            assert(window_at(stream, n, w)[t] == stream[w * n + t]);
        }
        assert(window_at(cb, n, w) =~= ec.update(p, !ec[p]));
        lemma_decode_flipped_chunk(chunk_at(bits, k, w), n, p);
    }
    lemma_decode_from_chunks(g, x, n, true);
}

/// Header invariants: every encoded buffer opens with the magic constant,
/// byte 8 holds the configured codeword size, and byte 7 holds a final
/// chunk length that is at most the chunk size.
pub proof fn lemma_header_invariants(x: Seq<u8>, n: int)
    requires
        valid_codeword_bits(n),
    ensures
        encode_spec(x, n).len() >= 9,
        encode_spec(x, n).subrange(0, 7) == magic(),
        encode_spec(x, n)[8] as int == n,
        encode_spec(x, n)[7] as int <= data_bits_of(n),
{
    lemma_round_trip(x, n, true);
}

/// Boundary case: empty input encodes to a bare header with zero
/// codewords, and decodes back to empty.
pub proof fn lemma_encode_empty(n: int, fix: bool)
    requires
        valid_codeword_bits(n),
    ensures
        encode_spec(Seq::empty(), n).len() == 9,
        decode_spec(encode_spec(Seq::empty(), n), fix) == Seq::<u8>::empty(),
{
    let x: Seq<u8> = Seq::empty();
    lemma_round_trip(x, n, fix);
    let k = data_bits_of(n);
    lemma_fundamental_div_mod_converse(k - 1, k, 0, k - 1);
    let count = num_chunks(0, k);
    assert(count == 0);
    lemma_codeword_stream_len(bits_of_bytes(x), n, count);
    assert(encode_spec(x, n).len() == 9 + bytes_of_bits(
        codeword_stream(bits_of_bytes(x), n, count),
    ).len());
}

/// Boundary cases of the recorded final-chunk length: an input whose bit
/// length is an exact multiple of the chunk size records a full final
/// chunk, and otherwise the remainder is recorded — in particular one
/// less than the chunk size when the bit length falls one bit short of a
/// multiple.
pub proof fn lemma_last_chunk_size(x: Seq<u8>, n: int)
    requires
        valid_codeword_bits(n),
        x.len() >= 1,
    ensures
        (8 * (x.len() as int)) % data_bits_of(n) == 0 ==> encode_spec(x, n)[7] as int == data_bits_of(n),
        (8 * (x.len() as int)) % data_bits_of(n) != 0 ==> encode_spec(x, n)[7] as int == (8 * (x.len() as int)) % data_bits_of(n),
{
    let k = data_bits_of(n);
    let l = 8 * x.len() as int;
    let f = encode_spec(x, n);
    lemma_num_chunks_bounds(l, k);
    assert(0 <= last_chunk_bits(l, k) <= k) by {
        assert(k * num_chunks(l, k) == k * (num_chunks(l, k) - 1) + k) by (nonlinear_arith);
    }
    assert(f[7] as int == last_chunk_bits(l, k));
    lemma_fundamental_div_mod(l, k);
    let q = l / k;
    let r = l % k;
    if r == 0 {
        assert(l + k - 1 == q * k + (k - 1)) by (nonlinear_arith)
            requires
                l == k * q,
        ;
        lemma_fundamental_div_mod_converse(l + k - 1, k, q, k - 1);
        assert(num_chunks(l, k) == q);
        assert(last_chunk_bits(l, k) == l - k * (q - 1));
        assert(l - k * (q - 1) == k) by (nonlinear_arith)
            requires
                l == k * q,
        ;
    } else {
        assert(l + k - 1 == (q + 1) * k + (r - 1)) by (nonlinear_arith)
            requires
                l == k * q + r,
        ;
        lemma_fundamental_div_mod_converse(l + k - 1, k, q + 1, r - 1);
        assert(num_chunks(l, k) == q + 1);
        assert(last_chunk_bits(l, k) == l - k * q);
        assert(l - k * q == r) by (nonlinear_arith)
            requires
                l == k * q + r,
        ;
    }
}

} // verus!
