//! Bit streams and their byte packing.
//!
//! Every buffer in the codec is modelled as a sequence of bits in
//! least-significant-bit-first order: bit `i` of the stream lives in byte
//! `i / 8` at weight `2^(i % 8)`. The executable side works on `Vec<bool>`;
//! the specs relate those vectors to the bytes they pack into.

use vstd::prelude::*;

verus! {

/// Bit `i` (LSB-first) of the byte `b`.
pub open spec fn bit_of_byte(b: u8, i: int) -> bool {
    ((b >> (i as u8)) & 1u8) == 1u8
}

/// The bit stream carried by a byte buffer, LSB-first within each byte.
pub open spec fn bits_of_bytes(bytes: Seq<u8>) -> Seq<bool> {
    Seq::new((bytes.len() * 8) as nat, |i: int| bit_of_byte(bytes[i / 8], i % 8))
}

/// The byte whose low `bits.len()` bits are `bits` (LSB-first) and whose
/// remaining high bits are zero. Meaningful for `bits.len() <= 8`.
pub open spec fn byte_of_bits(bits: Seq<bool>) -> u8
    decreases bits.len(),
{
    if bits.len() == 0 {
        0u8
    } else {
        ((if bits.last() {
            1u8 << ((bits.len() - 1) as u8)
        } else {
            0u8
        }) | byte_of_bits(bits.drop_last()))
    }
}

/// The bytes that pack a bit stream, LSB-first, the final byte zero-padded
/// when the stream length is not a multiple of eight.
pub open spec fn bytes_of_bits(bits: Seq<bool>) -> Seq<u8> {
    Seq::new(((bits.len() + 7) / 8) as nat, |j: int| byte_of_bits(bits.subrange(
        8 * j,
        if 8 * j + 8 <= bits.len() {
            8 * j + 8
        } else {
            bits.len() as int
        },
    )))
}

proof fn bv_or_zero(a: u8)
    by (bit_vector)
    ensures
        (0u8 | a) == a,
        (a | 0u8) == a,
{
}

proof fn bv_or_bound(a: u8, j: u8)
    by (bit_vector)
    requires
        j < 7,
        a < (1u8 << j),
    ensures
        ((1u8 << j) | a) < (1u8 << (j + 1) as u8),
        a < (1u8 << (j + 1) as u8),
{
}

proof fn bv_bit_or_high(a: u8, i: u8, j: u8)
    by (bit_vector)
    requires
        i <= j,
        j < 8,
        a < (1u8 << j),
    ensures
        ((((1u8 << j) | a) >> j) & 1u8) == 1u8,
        ((a >> j) & 1u8) == 0u8,
        i < j ==> ((((1u8 << j) | a) >> i) & 1u8) == ((a >> i) & 1u8),
{
}

/// A packed byte is bounded by two to the number of bits packed into it.
proof fn lemma_byte_of_bits_bound(bits: Seq<bool>)
    requires
        bits.len() < 8,
    ensures
        byte_of_bits(bits) < (1u8 << (bits.len() as u8)),
    decreases bits.len(),
{
    if bits.len() == 0 {
        assert(byte_of_bits(bits) == 0u8);
        assert(0u8 < (1u8 << 0u8)) by (bit_vector);
    } else {
        lemma_byte_of_bits_bound(bits.drop_last());
        let j = (bits.len() - 1) as u8;
        let rest = byte_of_bits(bits.drop_last());
        bv_or_bound(rest, j);
        if bits.last() {
            assert(byte_of_bits(bits) == ((1u8 << j) | rest));
        } else {
            bv_or_zero(rest);
            assert(byte_of_bits(bits) == rest);
        }
    }
}

/// Packing bits into a byte and reading a bit back returns that bit.
proof fn lemma_bit_of_packed_byte(bits: Seq<bool>, i: int)
    requires
        bits.len() <= 8,
        0 <= i < bits.len(),
    ensures
        bit_of_byte(byte_of_bits(bits), i) == bits[i],
    decreases bits.len(),
{
    let j = (bits.len() - 1) as u8;
    let rest = byte_of_bits(bits.drop_last());
    if bits.len() < 8 {
        lemma_byte_of_bits_bound(bits);
    }
    lemma_byte_of_bits_bound(bits.drop_last());
    bv_bit_or_high(rest, i as u8, j);
    if i == bits.len() - 1 {
        if bits.last() {
            assert(byte_of_bits(bits) == ((1u8 << j) | rest));
        } else {
            bv_or_zero(rest);
            assert(byte_of_bits(bits) == rest);
        }
    } else {
        lemma_bit_of_packed_byte(bits.drop_last(), i);
        assert(bits.drop_last()[i] == bits[i]);
        if bits.last() {
            assert(byte_of_bits(bits) == ((1u8 << j) | rest));
        } else {
            bv_or_zero(rest);
            assert(byte_of_bits(bits) == rest);
        }
    }
}

/// Turn a byte buffer into its bit stream.
pub fn bytes_to_bits(bytes: &Vec<u8>) -> (r: Vec<bool>)
    requires
        bytes@.len() * 8 <= usize::MAX,
    ensures
        r@ == bits_of_bytes(bytes@),
{
    let mut r: Vec<bool> = Vec::new();
    let mut i: usize = 0;
    while i < bytes.len()
        invariant
            i <= bytes@.len(),
            bytes@.len() * 8 <= usize::MAX,
            r@.len() == 8 * i,
            forall|jj: int|
                0 <= jj < 8 * i ==> r@[jj] == bit_of_byte(bytes@[jj / 8], jj % 8),
        decreases bytes@.len() - i,
    {
        let b: u8 = bytes[i];
        let mut j: usize = 0;
        while j < 8
            invariant
                j <= 8,
                i < bytes@.len(),
                bytes@.len() * 8 <= usize::MAX,
                b == bytes@[i as int],
                r@.len() == 8 * i + j,
                forall|jj: int|
                    0 <= jj < 8 * i + j ==> r@[jj] == bit_of_byte(bytes@[jj / 8], jj % 8),
            decreases 8 - j,
        {
            r.push(((b >> (j as u8)) & 1u8) == 1u8);
            proof {
                assert((8 * i + j) / 8 == i && (8 * i + j) % 8 == j as int) by (nonlinear_arith)
                    requires
                        0 <= j < 8,
                        0 <= i,
                ;
            }
            j = j + 1;
        }
        i = i + 1;
    }
    proof {
        assert(r@ =~= bits_of_bytes(bytes@));
    }
    r
}

/// Pack a bit stream into bytes, LSB-first, zero-padding the final byte.
pub fn bits_to_bytes(bits: &Vec<bool>) -> (r: Vec<u8>)
    requires
        bits@.len() + 7 <= usize::MAX,
    ensures
        r@ == bytes_of_bits(bits@),
{
    let n_bytes: usize = (bits.len() + 7) / 8;
    let mut r: Vec<u8> = Vec::new();
    let mut i: usize = 0;
    while i < n_bytes
        invariant
            i <= n_bytes,
            n_bytes == (bits@.len() + 7) / 8,
            bits@.len() + 7 <= usize::MAX,
            r@.len() == i,
            forall|jj: int| 0 <= jj < i ==> r@[jj] == bytes_of_bits(bits@)[jj],
        decreases n_bytes - i,
    {
        proof {
            assert(8 * i < bits@.len()) by (nonlinear_arith)
                requires
                    0 <= i,
                    i < (bits@.len() + 7) / 8,
            ;
        }
        let seg_end: usize = if 8 * i + 8 <= bits.len() {
            8 * i + 8
        } else {
            bits.len()
        };
        let ghost seg = bits@.subrange(8 * (i as int), seg_end as int);
        let mut acc: u8 = 0;
        let mut j: usize = 0;
        proof {
            assert(seg.subrange(0, 0) =~= Seq::<bool>::empty());
            assert(byte_of_bits(seg.subrange(0, 0)) == 0u8);
        }
        while j < 8
            invariant
                j <= 8,
                8 * i < bits@.len(),
                seg_end == if 8 * i + 8 <= bits@.len() {
                    8 * i + 8
                } else {
                    bits@.len() as int
                },
                seg == bits@.subrange(8 * (i as int), seg_end as int),
                seg.len() == seg_end - 8 * i,
                acc == byte_of_bits(seg.subrange(
                    0,
                    if j <= seg.len() {
                        j as int
                    } else {
                        seg.len() as int
                    },
                )),
            decreases 8 - j,
        {
            if 8 * i + j < bits.len() {
                let ghost pre = seg.subrange(0, j as int);
                let ghost post = seg.subrange(0, j + 1 as int);
                proof {
                    assert(post.drop_last() =~= pre);
                    assert(post.last() == seg[j as int]);
                    assert(seg[j as int] == bits@[8 * (i as int) + j]);
                }
                if bits[8 * i + j] {
                    acc = acc | (1u8 << (j as u8));
                    proof {
                        let prev = byte_of_bits(pre);
                        assert(((1u8 << (j as u8)) | prev) == (prev | (1u8 << (j as u8))))
                            by (bit_vector);
                    }
                } else {
                    proof {
                        bv_or_zero(byte_of_bits(pre));
                    }
                }
            }
            j = j + 1;
        }
        r.push(acc);
        proof {
            assert(seg.subrange(0, seg.len() as int) =~= seg);
            assert(r@[i as int] == byte_of_bits(seg));
        }
        i = i + 1;
    }
    proof {
        assert(r@ =~= bytes_of_bits(bits@));
    }
    r
}

/// Packing the bit stream of a byte buffer back into bytes is the identity.
pub proof fn lemma_bytes_round_trip(bytes: Seq<u8>)
    ensures
        bytes_of_bits(bits_of_bytes(bytes)) == bytes,
{
    let bits = bits_of_bytes(bytes);
    assert(bits.len() == 8 * bytes.len());
    assert((8 * bytes.len() + 7) / 8 == bytes.len()) by (nonlinear_arith);
    assert forall|j: int| 0 <= j < bytes.len() implies bytes_of_bits(bits)[j] == bytes[j] by {
        let seg = bits.subrange(8 * j, 8 * j + 8);
        assert forall|i: int| 0 <= i < 8 implies seg[i] == bit_of_byte(bytes[j], i) by {
            assert((8 * j + i) / 8 == j && (8 * j + i) % 8 == i) by (nonlinear_arith)
                requires
                    0 <= i < 8,
                    0 <= j,
            ;
        }
        lemma_packed_byte_of_bit_seq(bytes[j], seg);
    }
    assert(bytes_of_bits(bits) =~= bytes);
}

/// A sequence of exactly the eight bits of a byte packs back to that byte.
proof fn lemma_packed_byte_of_bit_seq(b: u8, seg: Seq<bool>)
    requires
        seg.len() == 8,
        forall|i: int| 0 <= i < 8 ==> seg[i] == bit_of_byte(b, i),
    ensures
        byte_of_bits(seg) == b,
{
    let c = byte_of_bits(seg);
    assert forall|i: int| 0 <= i < 8 implies bit_of_byte(c, i) == bit_of_byte(b, i) by {
        lemma_bit_of_packed_byte(seg, i);
    }
    assert(bit_of_byte(c, 0) == bit_of_byte(b, 0) && bit_of_byte(c, 1) == bit_of_byte(b, 1)
        && bit_of_byte(c, 2) == bit_of_byte(b, 2) && bit_of_byte(c, 3) == bit_of_byte(b, 3)
        && bit_of_byte(c, 4) == bit_of_byte(b, 4) && bit_of_byte(c, 5) == bit_of_byte(b, 5)
        && bit_of_byte(c, 6) == bit_of_byte(b, 6) && bit_of_byte(c, 7) == bit_of_byte(b, 7));
    assert(c == b) by (bit_vector)
        requires
            ((((c >> 0u8) & 1u8) == 1u8) == (((b >> 0u8) & 1u8) == 1u8)) && ((((c >> 1u8) & 1u8)
                == 1u8) == (((b >> 1u8) & 1u8) == 1u8)) && ((((c >> 2u8) & 1u8) == 1u8) == (((b
                >> 2u8) & 1u8) == 1u8)) && ((((c >> 3u8) & 1u8) == 1u8) == (((b >> 3u8) & 1u8)
                == 1u8)) && ((((c >> 4u8) & 1u8) == 1u8) == (((b >> 4u8) & 1u8) == 1u8)) && ((((c
                >> 5u8) & 1u8) == 1u8) == (((b >> 5u8) & 1u8) == 1u8)) && ((((c >> 6u8) & 1u8)
                == 1u8) == (((b >> 6u8) & 1u8) == 1u8)) && ((((c >> 7u8) & 1u8) == 1u8) == (((b
                >> 7u8) & 1u8) == 1u8)),
    ;
}

/// Reading the bit stream of the bytes that pack a stream whose length is a
/// whole number of bytes returns the stream itself.
pub proof fn lemma_bits_round_trip(bits: Seq<bool>)
    requires
        bits.len() % 8 == 0,
    ensures
        bits_of_bytes(bytes_of_bits(bits)) == bits,
{
    let bytes = bytes_of_bits(bits);
    assert(bytes.len() == (bits.len() + 7) / 8);
    assert((bits.len() + 7) / 8 == bits.len() / 8) by (nonlinear_arith)
        requires
            bits.len() % 8 == 0,
    ;
    assert(8 * (bits.len() / 8) == bits.len()) by (nonlinear_arith)
        requires
            bits.len() % 8 == 0,
    ;
    assert forall|i: int| 0 <= i < bits.len() implies bits_of_bytes(bytes)[i] == bits[i] by {
        let j = i / 8;
        vstd::arithmetic::div_mod::lemma_fundamental_div_mod(i, 8);
        assert(i == 8 * j + (i % 8));
        assert(8 * j < 8 * bytes.len());
        assert(0 <= j < bytes.len());
        let seg = bits.subrange(8 * j, 8 * j + 8);
        assert(8 * j + 8 <= bits.len()) by (nonlinear_arith)
            requires
                0 <= j < bits.len() / 8,
                8 * (bits.len() / 8) == bits.len(),
        ;
        assert(bytes[j] == byte_of_bits(seg));
        lemma_bit_of_packed_byte(seg, i % 8);
        assert(seg[i % 8] == bits[i]);
    }
    assert(bits_of_bytes(bytes) =~= bits);
}

} // verus!
