//! The Hamming codeword: position map, syndrome, parity construction and
//! single-bit correction.
//!
//! A codeword holds `n` bits, `n` a power of two between 4 and 16.
//! Position 0 is reserved and always zero, positions that are powers of two
//! hold parity bits, and the remaining positions hold data bits in
//! ascending order. The syndrome of a codeword is the XOR of the indices
//! of its set bits: zero for an intact codeword, and the index of the
//! flipped bit after a single flip.

use vstd::prelude::*;

verus! {

/// The supported codeword sizes.
pub open spec fn valid_codeword_bits(n: int) -> bool {
    n == 4 || n == 8 || n == 16
}

/// Number of data bits `k` carried by an `n`-bit codeword: `n - log2(n) - 1`.
pub open spec fn data_bits_of(n: int) -> int {
    if n == 4 {
        1
    } else if n == 8 {
        4
    } else {
        11
    }
}

/// The `i`-th data-carrying position of a codeword: the `i`-th index in
/// `1..16` that is not an exact power of two.
pub open spec fn data_position(i: int) -> int {
    if i == 0 {
        3
    } else if i == 1 {
        5
    } else if i == 2 {
        6
    } else if i == 3 {
        7
    } else if i == 4 {
        9
    } else if i == 5 {
        10
    } else if i == 6 {
        11
    } else if i == 7 {
        12
    } else if i == 8 {
        13
    } else if i == 9 {
        14
    } else {
        15
    }
}

/// Inverse of [`data_position`]: the data index stored at position `p`,
/// or `-1` when `p` is the reserved position 0 or a parity position.
pub open spec fn data_slot_index(p: int) -> int {
    if p == 3 {
        0
    } else if p == 5 {
        1
    } else if p == 6 {
        2
    } else if p == 7 {
        3
    } else if p == 9 {
        4
    } else if p == 10 {
        5
    } else if p == 11 {
        6
    } else if p == 12 {
        7
    } else if p == 13 {
        8
    } else if p == 14 {
        9
    } else if p == 15 {
        10
    } else {
        -1
    }
}

/// Whether `p` is a parity position (an exact power of two below 16).
pub open spec fn is_parity_slot(p: int) -> bool {
    p == 1 || p == 2 || p == 4 || p == 8
}

/// Transform an index into a data chunk to the codeword position that
/// carries it.
pub fn og_index_to_new_index(index: usize) -> (r: usize)
    requires
        index < 11,
    ensures
        r == data_position(index as int),
{
    if index == 0 {
        3
    } else if index == 1 {
        5
    } else if index == 2 {
        6
    } else if index == 3 {
        7
    } else if index == 4 {
        9
    } else if index == 5 {
        10
    } else if index == 6 {
        11
    } else if index == 7 {
        12
    } else if index == 8 {
        13
    } else if index == 9 {
        14
    } else {
        15
    }
}

/// XOR of the indices of the set bits among the first `i` bits of `cw`.
pub open spec fn syndrome_prefix(cw: Seq<bool>, i: int) -> usize
    decreases i,
{
    if i <= 0 {
        0usize
    } else {
        (syndrome_prefix(cw, i - 1) ^ (if cw[i - 1] {
            (i - 1) as usize
        } else {
            0usize
        }))
    }
}

/// The syndrome of a codeword: the XOR of the indices of all its set bits.
pub open spec fn syndrome_of(cw: Seq<bool>) -> usize {
    syndrome_prefix(cw, cw.len() as int)
}

proof fn bv_xor_zero(a: usize)
    by (bit_vector)
    ensures
        (a ^ 0usize) == a,
        (0usize ^ a) == a,
        (a ^ a) == 0usize,
{
}

proof fn bv_xor_rearrange(a: usize, b: usize, c: usize, d: usize)
    by (bit_vector)
    ensures
        ((a ^ b) ^ (c ^ d)) == ((a ^ c) ^ (b ^ d)),
{
}

proof fn bv_xor_below(a: usize, b: usize, n: usize)
    by (bit_vector)
    requires
        n == 4 || n == 8 || n == 16,
        a < n,
        b < n,
    ensures
        (a ^ b) < n,
{
}

proof fn bv_and_ge(s: usize, p: usize)
    by (bit_vector)
    requires
        p == 1 || p == 2 || p == 4 || p == 8,
        (s & p) != 0,
    ensures
        s >= p,
{
}

proof fn bv_parity_cancel(s: usize)
    by (bit_vector)
    requires
        s < 16,
    ensures
        ((((s ^ (if (s & 1usize) != 0usize {
            1usize
        } else {
            0usize
        })) ^ (if (s & 2usize) != 0usize {
            2usize
        } else {
            0usize
        })) ^ (if (s & 4usize) != 0usize {
            4usize
        } else {
            0usize
        })) ^ (if (s & 8usize) != 0usize {
            8usize
        } else {
            0usize
        })) == 0usize,
{
}

/// Compute the syndrome of a bit buffer: the XOR-reduction of the indices
/// of all set bits, zero when no bit is set.
pub fn parity_check(bits: &Vec<bool>) -> (r: usize)
    ensures
        r == syndrome_of(bits@),
{
    let mut r: usize = 0;
    let mut i: usize = 0;
    while i < bits.len()
        invariant
            i <= bits@.len(),
            r == syndrome_prefix(bits@, i as int),
        decreases bits@.len() - i,
    {
        if bits[i] {
            r = r ^ i;
        } else {
            proof {
                bv_xor_zero(r);
            }
        }
        i = i + 1;
    }
    r
}

/// Compute the syndrome of a bit buffer backed by bytes; the reduction is
/// the same as [`parity_check`].
pub fn parity_check_u8(bits: &Vec<bool>) -> (r: usize)
    ensures
        r == syndrome_of(bits@),
{
    parity_check(bits)
}

/// An `n`-bit codeword with the chunk's bits placed at the data positions
/// and every other position zero. Data indices beyond the chunk read as
/// zero, which pads a short final chunk.
pub open spec fn place_data(chunk: Seq<bool>, n: int) -> Seq<bool> {
    Seq::new(
        n as nat,
        |p: int|
            {
                let i = data_slot_index(p);
                0 <= i < chunk.len() && chunk[i]
            },
    )
}

/// Set every parity position whose index has its bit set in the syndrome
/// value `s`; all other positions keep their bit.
pub open spec fn set_parity(cw: Seq<bool>, s: usize) -> Seq<bool> {
    Seq::new(
        cw.len(),
        |p: int|
            if is_parity_slot(p) {
                cw[p] || ((s & (p as usize)) != 0)
            } else {
                cw[p]
            },
    )
}

/// The complete codeword for a data chunk: data bits placed, then parity
/// positions written from the syndrome of the data-only codeword.
pub open spec fn encode_chunk_spec(chunk: Seq<bool>, n: int) -> Seq<bool> {
    set_parity(place_data(chunk, n), syndrome_of(place_data(chunk, n)))
}

/// The data bits read back from the data positions of a codeword.
pub open spec fn extract_data(cw: Seq<bool>, n: int) -> Seq<bool> {
    Seq::new(data_bits_of(n) as nat, |i: int| cw[data_position(i)])
}

/// Single-bit correction: when the syndrome is nonzero it names the flipped
/// position, so flip it back; a zero syndrome means no detected error.
pub open spec fn correct_codeword(cw: Seq<bool>) -> Seq<bool> {
    let s = syndrome_of(cw);
    if s == 0 || s >= cw.len() {
        cw
    } else {
        cw.update(s as int, !cw[s as int])
    }
}

/// The data bits recovered from a received codeword, with or without the
/// single-bit correction applied first.
pub open spec fn decode_chunk_spec(cw: Seq<bool>, n: int, fix: bool) -> Seq<bool> {
    if fix {
        extract_data(correct_codeword(cw), n)
    } else {
        extract_data(cw, n)
    }
}

/// XOR of the indices, below `i`, at which two equal-length bit sequences
/// differ.
spec fn diff_mask(a: Seq<bool>, b: Seq<bool>, i: int) -> usize
    decreases i,
{
    if i <= 0 {
        0usize
    } else {
        (diff_mask(a, b, i - 1) ^ (if a[i - 1] != b[i - 1] {
            (i - 1) as usize
        } else {
            0usize
        }))
    }
}

/// Syndromes of two sequences differ exactly by the XOR of the positions
/// where the sequences differ.
proof fn lemma_syndrome_prefix_diff(a: Seq<bool>, b: Seq<bool>, i: int)
    requires
        a.len() == b.len(),
        0 <= i <= a.len(),
    ensures
        syndrome_prefix(b, i) == (syndrome_prefix(a, i) ^ diff_mask(a, b, i)),
    decreases i,
{
    if i <= 0 {
        bv_xor_zero(syndrome_prefix(a, i));
    } else {
        lemma_syndrome_prefix_diff(a, b, i - 1);
        let sa = syndrome_prefix(a, i - 1);
        let dm = diff_mask(a, b, i - 1);
        let ta: usize = if a[i - 1] {
            (i - 1) as usize
        } else {
            0usize
        };
        let tb: usize = if b[i - 1] {
            (i - 1) as usize
        } else {
            0usize
        };
        let td: usize = if a[i - 1] != b[i - 1] {
            (i - 1) as usize
        } else {
            0usize
        };
        if a[i - 1] == b[i - 1] {
            bv_xor_zero(ta);
            assert(tb == (ta ^ td));
        } else if a[i - 1] {
            bv_xor_zero(ta);
            assert(tb == (ta ^ td));
        } else {
            bv_xor_zero(td);
            assert(tb == (ta ^ td));
        }
        bv_xor_rearrange(sa, dm, ta, td);
    }
}

/// When two sequences differ at exactly one position `p`, the difference
/// mask up to `i` is `p` once `i` has passed `p`, and zero before.
proof fn lemma_diff_mask_single(a: Seq<bool>, b: Seq<bool>, p: int, i: int)
    requires
        a.len() == b.len(),
        0 <= p < a.len(),
        a[p] != b[p],
        forall|j: int| 0 <= j < a.len() && j != p ==> a[j] == b[j],
        0 <= i <= a.len(),
    ensures
        diff_mask(a, b, i) == if i > p {
            p as usize
        } else {
            0usize
        },
    decreases i,
{
    if i <= 0 {
    } else {
        lemma_diff_mask_single(a, b, p, i - 1);
        if i - 1 == p {
            bv_xor_zero(p as usize);
        } else {
            bv_xor_zero(diff_mask(a, b, i - 1));
        }
    }
}

/// Flipping the bit at position `p` XORs the syndrome with `p`.
pub proof fn lemma_syndrome_flip(a: Seq<bool>, p: int)
    requires
        0 <= p < a.len(),
    ensures
        syndrome_of(a.update(p, !a[p])) == (syndrome_of(a) ^ (p as usize)),
{
    let b = a.update(p, !a[p]);
    lemma_diff_mask_single(a, b, p, a.len() as int);
    lemma_syndrome_prefix_diff(a, b, a.len() as int);
}

proof fn lemma_syndrome_prefix_bound(cw: Seq<bool>, n: int, i: int)
    requires
        valid_codeword_bits(n),
        cw.len() == n,
        0 <= i <= n,
    ensures
        syndrome_prefix(cw, i) < n,
    decreases i,
{
    if i <= 0 {
    } else {
        lemma_syndrome_prefix_bound(cw, n, i - 1);
        let t: usize = if cw[i - 1] {
            (i - 1) as usize
        } else {
            0usize
        };
        bv_xor_below(syndrome_prefix(cw, i - 1), t, n as usize);
    }
}

/// The syndrome of an `n`-bit codeword is below `n`, because `n` is a
/// power of two and the syndrome is a XOR of indices below `n`.
pub proof fn lemma_syndrome_bound(cw: Seq<bool>, n: int)
    requires
        valid_codeword_bits(n),
        cw.len() == n,
    ensures
        syndrome_of(cw) < n,
{
    lemma_syndrome_prefix_bound(cw, n, n);
}

/// The position tables are consistent: each data index of an `n`-bit
/// codeword maps to an in-range non-parity position and back.
pub proof fn lemma_position_tables(n: int)
    requires
        valid_codeword_bits(n),
    ensures
        forall|i: int|
            0 <= i < data_bits_of(n) ==> 0 < #[trigger] data_position(i) < n && !is_parity_slot(
                data_position(i),
            ) && data_slot_index(data_position(i)) == i,
        forall|p: int|
            0 <= p < n && 0 <= #[trigger] data_slot_index(p) ==> data_slot_index(p) < data_bits_of(
                n,
            ) && data_position(data_slot_index(p)) == p,
{
}

/// A freshly encoded codeword has syndrome zero: writing the syndrome of
/// the data-only codeword into the parity positions cancels it.
pub proof fn lemma_encoded_chunk_syndrome_zero(chunk: Seq<bool>, n: int)
    requires
        valid_codeword_bits(n),
        chunk.len() == data_bits_of(n),
    ensures
        syndrome_of(encode_chunk_spec(chunk, n)) == 0,
{
    let pd = place_data(chunk, n);
    let s = syndrome_of(pd);
    lemma_syndrome_bound(pd, n);
    let f1: usize = if (s & 1usize) != 0usize {
        1usize
    } else {
        0usize
    };
    let f2: usize = if (s & 2usize) != 0usize {
        2usize
    } else {
        0usize
    };
    let f4: usize = if (s & 4usize) != 0usize {
        4usize
    } else {
        0usize
    };
    let f8: usize = if (s & 8usize) != 0usize {
        8usize
    } else {
        0usize
    };
    let c1 = if (s & 1usize) != 0usize {
        pd.update(1, true)
    } else {
        pd
    };
    let c2 = if (s & 2usize) != 0usize {
        c1.update(2, true)
    } else {
        c1
    };
    let c4 = if (s & 4usize) != 0usize {
        c2.update(4, true)
    } else {
        c2
    };
    let c8 = if (s & 8usize) != 0usize {
        c4.update(8, true)
    } else {
        c4
    };
    assert(!pd[1] && !pd[2]);
    if (s & 1usize) != 0usize {
        bv_and_ge(s, 1);
        assert(c1 == pd.update(1, !pd[1]));
        lemma_syndrome_flip(pd, 1);
    } else {
        bv_xor_zero(s);
    }
    assert(syndrome_of(c1) == (s ^ f1));
    if (s & 2usize) != 0usize {
        bv_and_ge(s, 2);
        assert(!c1[2]);
        assert(c2 == c1.update(2, !c1[2]));
        lemma_syndrome_flip(c1, 2);
    } else {
        bv_xor_zero(syndrome_of(c1));
    }
    assert(syndrome_of(c2) == ((s ^ f1) ^ f2));
    if (s & 4usize) != 0usize {
        bv_and_ge(s, 4);
        assert(s >= 4 && s < n);
        assert(!pd[4]);
        assert(!c2[4]);
        assert(c4 == c2.update(4, !c2[4]));
        lemma_syndrome_flip(c2, 4);
    } else {
        bv_xor_zero(syndrome_of(c2));
    }
    assert(syndrome_of(c4) == (((s ^ f1) ^ f2) ^ f4));
    if (s & 8usize) != 0usize {
        bv_and_ge(s, 8);
        assert(s >= 8 && s < n);
        assert(!pd[8]);
        assert(!c4[8]);
        assert(c8 == c4.update(8, !c4[8]));
        lemma_syndrome_flip(c4, 8);
    } else {
        bv_xor_zero(syndrome_of(c4));
    }
    assert(syndrome_of(c8) == ((((s ^ f1) ^ f2) ^ f4) ^ f8));
    assert(s < 16);
    bv_parity_cancel(s);
    assert(syndrome_of(c8) == 0);
    assert forall|p: int| 0 <= p < n && (s & (p as usize)) != 0 && is_parity_slot(p) implies p
        <= s by {
        bv_and_ge(s, p as usize);
    }
    assert(c8 =~= set_parity(pd, s));
}

/// Reading the data positions of a freshly encoded codeword returns the
/// chunk that was encoded.
pub proof fn lemma_extract_encoded_chunk(chunk: Seq<bool>, n: int)
    requires
        valid_codeword_bits(n),
        chunk.len() == data_bits_of(n),
    ensures
        encode_chunk_spec(chunk, n).len() == n,
        extract_data(encode_chunk_spec(chunk, n), n) == chunk,
{
    lemma_position_tables(n);
    assert(extract_data(encode_chunk_spec(chunk, n), n) =~= chunk);
}

/// Round trip at the codeword level: decoding an intact codeword returns
/// its chunk, with or without the correction pass.
pub proof fn lemma_decode_encoded_chunk(chunk: Seq<bool>, n: int, fix: bool)
    requires
        valid_codeword_bits(n),
        chunk.len() == data_bits_of(n),
    ensures
        decode_chunk_spec(encode_chunk_spec(chunk, n), n, fix) == chunk,
{
    lemma_encoded_chunk_syndrome_zero(chunk, n);
    lemma_extract_encoded_chunk(chunk, n);
}

/// Single-bit resilience at the codeword level: decoding with correction
/// recovers the chunk after any one bit of the codeword was flipped.
pub proof fn lemma_decode_flipped_chunk(chunk: Seq<bool>, n: int, p: int)
    requires
        valid_codeword_bits(n),
        chunk.len() == data_bits_of(n),
        0 <= p < n,
    ensures
        decode_chunk_spec(
            encode_chunk_spec(chunk, n).update(p, !encode_chunk_spec(chunk, n)[p]),
            n,
            true,
        ) == chunk,
{
    let ec = encode_chunk_spec(chunk, n);
    let bad = ec.update(p, !ec[p]);
    lemma_encoded_chunk_syndrome_zero(chunk, n);
    lemma_extract_encoded_chunk(chunk, n);
    lemma_syndrome_flip(ec, p);
    bv_xor_zero(p as usize);
    assert(syndrome_of(bad) == p as usize);
    lemma_position_tables(n);
    if p == 0 {
        assert(extract_data(bad, n) =~= extract_data(ec, n));
    } else {
        assert(bad.update(p, !bad[p]) =~= ec);
    }
}

/// Set the parity positions of a codeword to match the syndrome value
/// `parity`: position `2^b` becomes one when bit `b` of `parity` is set.
pub(crate) fn fix_parity(bits: &mut Vec<bool>, parity: usize)
    requires
        valid_codeword_bits(old(bits)@.len() as int),
        parity < old(bits)@.len(),
    ensures
        final(bits)@ == set_parity(old(bits)@, parity),
{
    if parity & 1 != 0 {
        bits.set(1, true);
    }
    if parity & 2 != 0 {
        bits.set(2, true);
    }
    if parity & 4 != 0 {
        proof {
            bv_and_ge(parity, 4);
        }
        bits.set(4, true);
    }
    if parity & 8 != 0 {
        proof {
            bv_and_ge(parity, 8);
        }
        bits.set(8, true);
    }
    proof {
        assert forall|p: int|
            0 <= p < bits@.len() && is_parity_slot(p) && (parity & (p as usize)) != 0 implies p
            <= parity by {
            bv_and_ge(parity, p as usize);
        }
        assert(bits@ =~= set_parity(old(bits)@, parity));
    }
}

} // verus!
