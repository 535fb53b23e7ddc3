//! The fault injector: flip exactly one bit inside every codeword window
//! of an encoded buffer, leaving the 9-byte header untouched.
//!
//! The choice of which bit to flip in each window can be supplied
//! explicitly, for deterministic replay, or drawn uniformly at random.

use vstd::prelude::*;

use crate::bits::bits_of_bytes;
use crate::bits::bits_to_bytes;
use crate::bits::bytes_of_bits;
use crate::bits::bytes_to_bits;
use crate::hamming::valid_codeword_bits;
use rand::Rng;

verus! {

/// The payload bit stream with one bit flipped per `n`-bit window: in
/// window `w`, the bit at offset `idxs[w]`.
pub open spec fn corrupt_bits(bits: Seq<bool>, n: int, idxs: Seq<usize>) -> Seq<bool> {
    Seq::new(
        bits.len(),
        |j: int|
            if idxs[j / n] as int == j % n {
                !bits[j]
            } else {
                bits[j]
            },
    )
}

/// The corrupted buffer: the header kept as it was, and each codeword
/// window of the payload with its one chosen bit flipped.
pub open spec fn corrupt_spec(file: Seq<u8>, idxs: Seq<usize>) -> Seq<u8> {
    file.take(9) + bytes_of_bits(
        corrupt_bits(bits_of_bytes(file.skip(9)), file[8] as int, idxs),
    )
}

/// A well-formed corruption of `file`: the buffer has a header and a
/// payload of whole codewords, and the choices name one in-window bit
/// offset per codeword window.
pub open spec fn valid_corruption(file: Seq<u8>, idxs: Seq<usize>) -> bool {
    let n = file[8] as int;
    &&& file.len() >= 9
    &&& valid_codeword_bits(n)
    &&& ((file.len() - 9) * 8) % n == 0
    &&& idxs.len() * n == (file.len() - 9) * 8
    &&& forall|w: int| 0 <= w < idxs.len() ==> (#[trigger] idxs[w]) < n
}

/// Relies on rand::thread_rng and rand::Rng::gen_range: a sample drawn
/// from the non-empty range `0..n` lies below `n`.
#[verifier::external_body]
fn random_index_below(n: usize) -> (r: usize)
    requires
        1 <= n,
    ensures
        r < n,
{
    rand::thread_rng().gen_range(0..n)
}

/// [`corrupt_bits`] restricted to the first `upto` windows; the rest of
/// the stream is still intact.
spec fn corrupt_bits_upto(bits: Seq<bool>, n: int, idxs: Seq<usize>, upto: int) -> Seq<bool> {
    Seq::new(
        bits.len(),
        |j: int|
            if j / n < upto && idxs[j / n] as int == j % n {
                !bits[j]
            } else {
                bits[j]
            },
    )
}

/// Corrupt an encoded buffer with explicit bit choices: flip bit
/// `indices[w]` of codeword window `w`, for every window. The header is
/// untouched and the length is kept.
pub fn corrupt_with_indices(file: &Vec<u8>, indices: &Vec<usize>) -> (r: Vec<u8>)
    requires
        valid_corruption(file@, indices@),
        file@.len() * 8 <= usize::MAX,
    ensures
        r@ == corrupt_spec(file@, indices@),
        r@.len() == file@.len(),
        r@.subrange(0, 9) == file@.subrange(0, 9),
{
    let n = file[8] as usize;
    let payload_len = file.len() - 9;
    let mut payload: Vec<u8> = Vec::new();
    let mut i: usize = 0;
    while i < payload_len
        invariant
            i <= payload_len,
            payload_len == file@.len() - 9,
            file@.len() >= 9,
            file@.len() * 8 <= usize::MAX,
            payload@.len() == i,
            forall|j: int| 0 <= j < i ==> payload@[j] == file@[9 + j],
        decreases payload_len - i,
    {
        payload.push(file[9 + i]);
        i = i + 1;
    }
    proof {
        assert(payload@ =~= file@.skip(9));
    }
    let mut pb = bytes_to_bits(&payload);
    let ghost orig = pb@;
    let count = indices.len();
    proof {
        assert(count as int * n as int == orig.len());
        assert(corrupt_bits_upto(orig, n as int, indices@, 0) =~= orig);
    }
    let mut w: usize = 0;
    while w < count
        invariant
            w <= count,
            count == indices@.len(),
            count as int * n as int == orig.len(),
            orig.len() <= usize::MAX,
            valid_codeword_bits(n as int),
            forall|v: int| 0 <= v < count ==> (#[trigger] indices@[v]) < n,
            pb@.len() == orig.len(),
            pb@ == corrupt_bits_upto(orig, n as int, indices@, w as int),
        decreases count - w,
    {
        proof {
            assert(w as int * n as int + n as int == (w + 1) * n as int) by (nonlinear_arith);
            assert((w + 1) * n as int <= count as int * n as int) by (nonlinear_arith)
                requires
                    (w as int) < (count as int),
                    n as int >= 1,
            ;
        }
        let pos = w * n + indices[w];
        proof {
            vstd::arithmetic::div_mod::lemma_fundamental_div_mod_converse(
                pos as int,
                n as int,
                w as int,
                indices@[w as int] as int,
            );
        }
        let v = pb[pos];
        pb.set(pos, !v);
        proof {
            assert forall|j: int| 0 <= j < orig.len() implies pb@[j] == corrupt_bits_upto(
                orig,
                n as int,
                indices@,
                w as int + 1,
            )[j] by {
                vstd::arithmetic::div_mod::lemma_fundamental_div_mod(j, n as int);
            }
            assert(pb@ =~= corrupt_bits_upto(orig, n as int, indices@, w as int + 1));
        }
        w = w + 1;
    }
    proof {
        assert forall|j: int| 0 <= j < orig.len() implies corrupt_bits_upto(
            orig,
            n as int,
            indices@,
            count as int,
        )[j] == corrupt_bits(orig, n as int, indices@)[j] by {
            vstd::arithmetic::div_mod::lemma_fundamental_div_mod(j, n as int);
            assert(j / (n as int) < (count as int)) by (nonlinear_arith)
                requires
                    n as int >= 1,
                    0 <= j,
                    j < (count as int) * (n as int),
                    (n as int) * (j / (n as int)) + j % (n as int) == j,
                    0 <= j % (n as int),
            ;
        }
        assert(corrupt_bits_upto(orig, n as int, indices@, count as int) =~= corrupt_bits(
            orig,
            n as int,
            indices@,
        ));
    }
    let packed = bits_to_bytes(&pb);
    let mut r: Vec<u8> = Vec::new();
    let mut h: usize = 0;
    while h < 9
        invariant
            h <= 9,
            file@.len() >= 9,
            r@.len() == h,
            forall|j: int| 0 <= j < h ==> r@[j] == file@[j],
        decreases 9 - h,
    {
        r.push(file[h]);
        h = h + 1;
    }
    let mut tail = packed;
    r.append(&mut tail);
    proof {
        assert(r@ =~= corrupt_spec(file@, indices@));
        assert((orig.len() + 7) / 8 == payload_len as int) by (nonlinear_arith)
            requires
                orig.len() == payload_len as int * 8,
                payload_len as int >= 0,
        ;
        assert(r@.subrange(0, 9) =~= file@.subrange(0, 9));
    }
    r
}

/// Corrupt an encoded buffer: flip one uniformly random bit inside every
/// codeword window of the payload. The header is untouched, the length is
/// kept, and the result is some well-formed corruption of the input.
pub fn corrupt(file: &Vec<u8>) -> (r: Vec<u8>)
    requires
        file@.len() >= 9,
        valid_codeword_bits(file@[8] as int),
        ((file@.len() - 9) * 8) % (file@[8] as int) == 0,
        file@.len() * 8 <= usize::MAX,
    ensures
        r@.len() == file@.len(),
        r@.subrange(0, 9) == file@.subrange(0, 9),
        exists|idxs: Seq<usize>|
            valid_corruption(file@, idxs) && r@ == corrupt_spec(file@, idxs),
{
    let n = file[8] as usize;
    let payload_bits = (file.len() - 9) * 8;
    let count = payload_bits / n;
    proof {
        vstd::arithmetic::div_mod::lemma_fundamental_div_mod(payload_bits as int, n as int);
        assert(count as int * n as int == n as int * count as int) by (nonlinear_arith);
    }
    let mut indices: Vec<usize> = Vec::new();
    let mut w: usize = 0;
    while w < count
        invariant
            w <= count,
            valid_codeword_bits(n as int),
            indices@.len() == w,
            forall|v: int| 0 <= v < w ==> (#[trigger] indices@[v]) < n,
        decreases count - w,
    {
        indices.push(random_index_below(n));
        w = w + 1;
    }
    let r = corrupt_with_indices(file, &indices);
    proof {
        assert(valid_corruption(file@, indices@));
        assert(r@ == corrupt_spec(file@, indices@));
    }
    r
}

} // verus!
