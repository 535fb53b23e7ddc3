//! The file-level codec: framing into chunks, the 9-byte header, and the
//! encode / decode pipelines.
//!
//! An encoded buffer is a 7-byte magic constant, one byte holding the true
//! bit length of the final data chunk before padding, one byte holding the
//! codeword size `n`, and then the byte-packed concatenation of all
//! codewords, `n` bits each, in chunk order.

use vstd::prelude::*;

use crate::bits::bits_of_bytes;
use crate::bits::bits_to_bytes;
use crate::bits::bytes_of_bits;
use crate::bits::bytes_to_bits;
use crate::hamming::data_bits_of;
use crate::hamming::data_position;
use crate::hamming::data_slot_index;
use crate::hamming::decode_chunk_spec;
use crate::hamming::encode_chunk_spec;
use crate::hamming::fix_parity;
use crate::hamming::lemma_position_tables;
use crate::hamming::lemma_syndrome_bound;
use crate::hamming::og_index_to_new_index;
use crate::hamming::parity_check;
use crate::hamming::place_data;
use crate::hamming::correct_codeword;
use crate::hamming::valid_codeword_bits;

verus! {

/// The seven magic bytes that open every encoded buffer: ASCII `hamming`.
pub open spec fn magic() -> Seq<u8> {
    seq![104u8, 97u8, 109u8, 109u8, 105u8, 110u8, 103u8]
}

/// Number of `k`-bit chunks that frame a stream of `len_bits` bits: zero
/// for an empty stream, otherwise the rounded-up quotient.
pub open spec fn num_chunks(len_bits: int, k: int) -> int {
    (len_bits + k - 1) / k
}

/// `k` bits of a stream starting at `start`, reading zero past the end.
pub open spec fn padded_slice(bits: Seq<bool>, start: int, k: int) -> Seq<bool> {
    Seq::new(k as nat, |i: int| start + i < bits.len() && bits[start + i])
}

/// The `c`-th `k`-bit data chunk of a stream, the last one zero-padded.
pub open spec fn chunk_at(bits: Seq<bool>, k: int, c: int) -> Seq<bool> {
    padded_slice(bits, c * k, k)
}

/// The true bit length of the final chunk before padding; `k` when the
/// stream length is an exact multiple of `k`, and for the empty stream.
pub open spec fn last_chunk_bits(len_bits: int, k: int) -> int {
    if len_bits == 0 {
        k
    } else {
        len_bits - k * (num_chunks(len_bits, k) - 1)
    }
}

/// The concatenation of the first `c` codewords of the stream.
pub open spec fn codeword_stream(bits: Seq<bool>, n: int, c: int) -> Seq<bool>
    decreases c,
{
    if c <= 0 {
        Seq::empty()
    } else {
        codeword_stream(bits, n, c - 1) + encode_chunk_spec(
            chunk_at(bits, data_bits_of(n), c - 1),
            n,
        )
    }
}

/// The whole encoded buffer for input `x` at codeword size `n`.
pub open spec fn encode_spec(x: Seq<u8>, n: int) -> Seq<u8> {
    let bits = bits_of_bytes(x);
    let k = data_bits_of(n);
    let count = num_chunks(bits.len() as int, k);
    magic() + seq![last_chunk_bits(bits.len() as int, k) as u8, n as u8] + bytes_of_bits(
        codeword_stream(bits, n, count),
    )
}

/// The `c`-th `n`-bit codeword window of a payload bit stream.
pub open spec fn window_at(bits: Seq<bool>, n: int, c: int) -> Seq<bool> {
    bits.subrange(c * n, c * n + n)
}

/// The concatenation of the data bits recovered from the first `c`
/// codeword windows of a payload bit stream.
pub open spec fn data_stream(bits: Seq<bool>, n: int, c: int, fix: bool) -> Seq<bool>
    decreases c,
{
    if c <= 0 {
        Seq::empty()
    } else {
        data_stream(bits, n, c - 1, fix) + decode_chunk_spec(window_at(bits, n, c - 1), n, fix)
    }
}

/// What the decoder accepts: a complete header with the magic constant, a
/// supported codeword size, a final-chunk length within range, and a
/// payload holding a whole number of codewords.
pub open spec fn valid_encoded(file: Seq<u8>) -> bool {
    &&& file.len() >= 9
    &&& file.subrange(0, 7) == magic()
    &&& valid_codeword_bits(file[8] as int)
    &&& file[7] <= data_bits_of(file[8] as int)
    &&& ((file.len() - 9) * 8) % (file[8] as int) == 0
}

/// Bit length of the decoded stream: every chunk contributes `k` bits but
/// the final one only its true length.
pub open spec fn decoded_bit_len(count: int, k: int, last: int) -> int {
    if count == 0 {
        0
    } else {
        (count - 1) * k + last
    }
}

/// The bytes recovered from a valid encoded buffer.
pub open spec fn decode_spec(file: Seq<u8>, fix: bool) -> Seq<u8> {
    let n = file[8] as int;
    let k = data_bits_of(n);
    let pb = bits_of_bytes(file.skip(9));
    let count = pb.len() as int / n;
    let dlen = decoded_bit_len(count, k, file[7] as int);
    bytes_of_bits(data_stream(pb, n, count, fix).take(dlen))
}

/// Errors of the codec, each detected close to its source.
#[derive(Clone, Copy, Debug, PartialEq, Eq, Structural)]
pub enum HammingError {
    /// The requested codeword size is not a supported power of two.
    InvalidChunkSize,
    /// The buffer is shorter than a header, the magic bytes do not match,
    /// or the recorded final-chunk length exceeds the chunk size.
    MalformedHeader,
    /// The payload does not hold a whole number of codewords.
    CorruptedOrTruncatedFile,
}

/// Resilience levels selectable at encode time. The higher the level
/// (1 being the highest), the more resilient the encoded buffer is to
/// corruption, and the more space it takes.
#[derive(Clone, Copy, Debug)]
pub enum HammingLevel {
    /// Codewords of 4 bits carrying 1 data bit: quadruple size, tolerates
    /// one flipped bit among every single data bit.
    L1,
    /// Codewords of 8 bits carrying 4 data bits: double size.
    L2,
    /// Codewords of 16 bits carrying 11 data bits: about 1.4 times the size.
    L3,
}

impl HammingLevel {
    /// The codeword size `n` this level selects.
    pub open spec fn codeword_bits_spec(&self) -> usize {
        match self {
            HammingLevel::L1 => 4usize,
            HammingLevel::L2 => 8usize,
            HammingLevel::L3 => 16usize,
        }
    }

    /// The codeword size `n` this level selects: 4, 8 or 16.
    pub fn codeword_bits(&self) -> (n: usize)
        ensures
            n == self.codeword_bits_spec(),
            valid_codeword_bits(n as int),
    {
        match self {
            HammingLevel::L1 => 4,
            HammingLevel::L2 => 8,
            HammingLevel::L3 => 16,
        }
    }
}

/// The chunk size `k` for a codeword size `n`.
pub(crate) fn chunk_bits_for(n: usize) -> (k: usize)
    requires
        valid_codeword_bits(n as int),
    ensures
        k == data_bits_of(n as int),
{
    if n == 4 {
        1
    } else if n == 8 {
        4
    } else {
        11
    }
}

/// Bounds of the rounded-up chunk count: the chunks cover the stream and
/// all but the last are full.
pub proof fn lemma_num_chunks_bounds(l: int, k: int)
    requires
        k >= 1,
        l >= 1,
    ensures
        num_chunks(l, k) >= 1,
        k * (num_chunks(l, k) - 1) < l,
        l <= k * num_chunks(l, k),
{
    let c = num_chunks(l, k);
    let r = (l + k - 1) % k;
    vstd::arithmetic::div_mod::lemma_fundamental_div_mod(l + k - 1, k);
    assert(l + k - 1 == k * c + r);
    assert(k * (c - 1) == k * c - k) by (nonlinear_arith);
    assert(c >= 1) by (nonlinear_arith)
        requires
            k >= 1,
            l >= 1,
            l <= k * c,
    ;
}

pub(crate) proof fn lemma_codeword_stream_len(bits: Seq<bool>, n: int, c: int)
    requires
        valid_codeword_bits(n),
        c >= 0,
    ensures
        codeword_stream(bits, n, c).len() == c * n,
    decreases c,
{
    if c == 0 {
    } else {
        lemma_codeword_stream_len(bits, n, c - 1);
        assert((c - 1) * n + n == c * n) by (nonlinear_arith);
    }
}

/// Encode a buffer into codewords of `final_chunk_size` bits, or report
/// `InvalidChunkSize` when that size is not a supported power of two.
pub fn encode(file: &Vec<u8>, final_chunk_size: usize) -> (r: Result<Vec<u8>, HammingError>)
    requires
        file@.len() * 64 <= usize::MAX,
    ensures
        valid_codeword_bits(final_chunk_size as int) ==> r is Ok && r->Ok_0@ == encode_spec(
            file@,
            final_chunk_size as int,
        ),
        !valid_codeword_bits(final_chunk_size as int) ==> r is Err && r->Err_0
            == HammingError::InvalidChunkSize,
{
    if final_chunk_size == 4 || final_chunk_size == 8 || final_chunk_size == 16 {
        Ok(encode_sized(file, final_chunk_size))
    } else {
        Err(HammingError::InvalidChunkSize)
    }
}

/// Encode with 4-bit codewords carrying 1 data bit each (level 1).
pub fn encode_4_1(file: &Vec<u8>) -> (r: Vec<u8>)
    requires
        file@.len() * 64 <= usize::MAX,
    ensures
        r@ == encode_spec(file@, 4),
{
    encode_sized(file, 4)
}

/// Encode with 8-bit codewords carrying 4 data bits each (level 2).
pub fn encode_8_4(file: &Vec<u8>) -> (r: Vec<u8>)
    requires
        file@.len() * 64 <= usize::MAX,
    ensures
        r@ == encode_spec(file@, 8),
{
    encode_sized(file, 8)
}

/// Encode with 16-bit codewords carrying 11 data bits each (level 3).
pub fn encode_16_11(file: &Vec<u8>) -> (r: Vec<u8>)
    requires
        file@.len() * 64 <= usize::MAX,
    ensures
        r@ == encode_spec(file@, 16),
{
    encode_sized(file, 16)
}

/// Build one codeword from the `k` data bits that start at `start`,
/// reading zero past the end of the stream.
fn encode_codeword(bits: &Vec<bool>, start: usize, n: usize) -> (cw: Vec<bool>)
    requires
        valid_codeword_bits(n as int),
        start <= bits@.len(),
        bits@.len() + 16 <= usize::MAX,
    ensures
        cw@ == encode_chunk_spec(
            padded_slice(bits@, start as int, data_bits_of(n as int)),
            n as int,
        ),
{
    let k = chunk_bits_for(n);
    let ghost chunk = padded_slice(bits@, start as int, k as int);
    let mut cw: Vec<bool> = Vec::new();
    let mut p: usize = 0;
    while p < n
        invariant
            p <= n,
            cw@.len() == p,
            forall|q: int| 0 <= q < p ==> !cw@[q],
        decreases n - p,
    {
        cw.push(false);
        p = p + 1;
    }
    let mut i: usize = 0;
    while i < k
        invariant
            i <= k,
            k == data_bits_of(n as int),
            valid_codeword_bits(n as int),
            start <= bits@.len(),
            bits@.len() + 16 <= usize::MAX,
            chunk == padded_slice(bits@, start as int, k as int),
            cw@.len() == n,
            forall|q: int|
                0 <= q < n ==> cw@[q] == (0 <= data_slot_index(q) < i && chunk[data_slot_index(q)]),
        decreases k - i,
    {
        proof {
            lemma_position_tables(n as int);
        }
        let pos = og_index_to_new_index(i);
        let bit = if start + i < bits.len() {
            bits[start + i]
        } else {
            false
        };
        cw.set(pos, bit);
        i = i + 1;
    }
    proof {
        lemma_position_tables(n as int);
        assert(cw@ =~= place_data(chunk, n as int));
    }
    let parity = parity_check(&cw);
    proof {
        lemma_syndrome_bound(cw@, n as int);
    }
    fix_parity(&mut cw, parity);
    cw
}

/// Encode with a codeword size already known to be supported.
fn encode_sized(file: &Vec<u8>, n: usize) -> (r: Vec<u8>)
    requires
        valid_codeword_bits(n as int),
        file@.len() * 64 <= usize::MAX,
    ensures
        r@ == encode_spec(file@, n as int),
{
    let bits = bytes_to_bits(file);
    let k = chunk_bits_for(n);
    let l = bits.len();
    let count: usize = (l + k - 1) / k;
    proof {
        if l >= 1 {
            lemma_num_chunks_bounds(l as int, k as int);
        }
    }
    let mut stream: Vec<bool> = Vec::new();
    let mut c: usize = 0;
    while c < count
        invariant
            c <= count,
            count == num_chunks(l as int, k as int),
            l == bits@.len(),
            k == data_bits_of(n as int),
            valid_codeword_bits(n as int),
            bits@.len() + 16 <= usize::MAX,
            stream@ == codeword_stream(bits@, n as int, c as int),
        decreases count - c,
    {
        proof {
            lemma_num_chunks_bounds(l as int, k as int);
            assert(c as int * k as int <= (count - 1) * k as int) by (nonlinear_arith)
                requires
                    c as int <= count - 1,
                    k as int >= 1,
            ;
            assert((count - 1) * k as int == k as int * (count - 1)) by (nonlinear_arith);
        }
        let start = c * k;
        let mut cw = encode_codeword(&bits, start, n);
        stream.append(&mut cw);
        proof {
            assert(chunk_at(bits@, k as int, c as int) == padded_slice(
                bits@,
                c as int * k as int,
                k as int,
            ));
        }
        c = c + 1;
    }
    let last: usize = if l == 0 {
        k
    } else {
        l - (count - 1) * k
    };
    proof {
        if l >= 1 {
            lemma_num_chunks_bounds(l as int, k as int);
            assert(k as int * (count as int - 1) == (count - 1) * k as int) by (nonlinear_arith);
            assert(k as int * count as int == k as int * (count as int - 1) + k as int)
                by (nonlinear_arith);
        }
        assert(last as int == last_chunk_bits(l as int, k as int));
        assert(last <= k);
        lemma_codeword_stream_len(bits@, n as int, count as int);
        vstd::arithmetic::div_mod::lemma_fundamental_div_mod(l as int + k as int - 1, k as int);
        assert(count as int * n as int <= 4 * l as int + 64) by (nonlinear_arith)
            requires
                k as int * count as int <= l as int + k as int - 1 + k as int,
                (n as int == 4 && k as int == 1) || (n as int == 8 && k as int == 4) || (n as int
                    == 16 && k as int == 11),
                l as int >= 0,
                count as int >= 0,
        ;
    }
    let packed = bits_to_bytes(&stream);
    let mut r: Vec<u8> = Vec::new();
    r.push(104u8);
    r.push(97u8);
    r.push(109u8);
    r.push(109u8);
    r.push(105u8);
    r.push(110u8);
    r.push(103u8);
    r.push(last as u8);
    r.push(n as u8);
    let mut tail = packed;
    r.append(&mut tail);
    proof {
        assert(r@ =~= encode_spec(file@, n as int));
    }
    r
}

/// Every decoded window contributes exactly `k` data bits.
pub(crate) proof fn lemma_data_stream_len(bits: Seq<bool>, n: int, c: int, fix: bool)
    requires
        valid_codeword_bits(n),
        c >= 0,
    ensures
        data_stream(bits, n, c, fix).len() == c * data_bits_of(n),
    decreases c,
{
    if c == 0 {
    } else {
        lemma_data_stream_len(bits, n, c - 1, fix);
        assert((c - 1) * data_bits_of(n) + data_bits_of(n) == c * data_bits_of(n))
            by (nonlinear_arith);
    }
}

/// Each `n`-bit window of the codeword stream is the codeword of the
/// matching data chunk.
pub(crate) proof fn lemma_codeword_stream_window(bits: Seq<bool>, n: int, count: int, c: int)
    requires
        valid_codeword_bits(n),
        0 <= c < count,
    ensures
        window_at(codeword_stream(bits, n, count), n, c) == encode_chunk_spec(
            chunk_at(bits, data_bits_of(n), c),
            n,
        ),
    decreases count,
{
    lemma_codeword_stream_len(bits, n, count - 1);
    let k = data_bits_of(n);
    let pre = codeword_stream(bits, n, count - 1);
    let ec = encode_chunk_spec(chunk_at(bits, k, count - 1), n);
    if c == count - 1 {
        assert(window_at(pre + ec, n, c) =~= ec);
    } else {
        lemma_codeword_stream_window(bits, n, count - 1, c);
        assert((c + 1) * n <= (count - 1) * n) by (nonlinear_arith)
            requires
                c + 1 <= count - 1,
                n >= 0,
        ;
        assert(c * n + n == (c + 1) * n) by (nonlinear_arith);
        assert(window_at(pre + ec, n, c) =~= window_at(pre, n, c));
    }
}

/// Decode an encoded buffer back to the original bytes. With `should_fix`
/// the single-bit correction runs on every codeword first; without it the
/// raw data bits are returned as received. Success exactly on buffers with
/// a complete matching header, a supported codeword size, an in-range
/// final-chunk length and a payload of whole codewords; each rejection
/// names its cause.
pub fn decode(file: &Vec<u8>, should_fix: bool) -> (r: Result<Vec<u8>, HammingError>)
    requires
        file@.len() * 8 <= usize::MAX,
    ensures
        r is Ok <==> valid_encoded(file@),
        r is Ok ==> r->Ok_0@ == decode_spec(file@, should_fix),
        !(file@.len() >= 9 && file@.subrange(0, 7) == magic()) ==> r is Err && r->Err_0
            == HammingError::MalformedHeader,
        file@.len() >= 9 && file@.subrange(0, 7) == magic() && !valid_codeword_bits(
            file@[8] as int,
        ) ==> r is Err && r->Err_0 == HammingError::InvalidChunkSize,
        file@.len() >= 9 && file@.subrange(0, 7) == magic() && valid_codeword_bits(file@[8] as int)
            && file@[7] > data_bits_of(file@[8] as int) ==> r is Err && r->Err_0
            == HammingError::MalformedHeader,
        file@.len() >= 9 && file@.subrange(0, 7) == magic() && valid_codeword_bits(file@[8] as int)
            && file@[7] <= data_bits_of(file@[8] as int) && ((file@.len() - 9) * 8) % (
        file@[8] as int) != 0 ==> r is Err && r->Err_0 == HammingError::CorruptedOrTruncatedFile,
{
    if file.len() < 9 {
        return Err(HammingError::MalformedHeader);
    }
    if !(file[0] == 104 && file[1] == 97 && file[2] == 109 && file[3] == 109 && file[4] == 105
        && file[5] == 110 && file[6] == 103) {
        return Err(HammingError::MalformedHeader);
    }
    proof {
        assert(file@.subrange(0, 7) =~= magic());
    }
    let n = file[8] as usize;
    if !(n == 4 || n == 8 || n == 16) {
        return Err(HammingError::InvalidChunkSize);
    }
    let k = chunk_bits_for(n);
    let last = file[7] as usize;
    if last > k {
        return Err(HammingError::MalformedHeader);
    }
    let payload_len = file.len() - 9;
    if (payload_len * 8) % n != 0 {
        return Err(HammingError::CorruptedOrTruncatedFile);
    }
    let mut payload: Vec<u8> = Vec::new();
    let mut i: usize = 0;
    while i < payload_len
        invariant
            i <= payload_len,
            payload_len == file@.len() - 9,
            file@.len() >= 9,
            file@.len() * 8 <= usize::MAX,
            payload@.len() == i,
            forall|j: int| 0 <= j < i ==> payload@[j] == file@[9 + j],
        decreases payload_len - i,
    {
        payload.push(file[9 + i]);
        i = i + 1;
    }
    proof {
        assert(payload@ =~= file@.skip(9));
    }
    let pb = bytes_to_bits(&payload);
    let pb_len = pb.len();
    let count = pb_len / n;
    proof {
        vstd::arithmetic::div_mod::lemma_fundamental_div_mod(pb@.len() as int, n as int);
        assert(count as int * n as int == n as int * count as int) by (nonlinear_arith);
        assert(count as int * n as int == pb@.len());
    }
    let mut out: Vec<bool> = Vec::new();
    let mut c: usize = 0;
    while c < count
        invariant
            c <= count,
            count as int * n as int == pb@.len(),
            pb@.len() <= usize::MAX,
            valid_codeword_bits(n as int),
            k == data_bits_of(n as int),
            out@ == data_stream(pb@, n as int, c as int, should_fix),
            out@.len() == c * k,
        decreases count - c,
    {
        proof {
            assert(c as int * n as int + n as int == (c + 1) * n as int) by (nonlinear_arith);
            assert((c + 1) * n as int <= count as int * n as int) by (nonlinear_arith)
                requires
                    (c as int) < (count as int),
                    n as int >= 1,
            ;
        }
        let base = c * n;
        let mut cw: Vec<bool> = Vec::new();
        let mut j: usize = 0;
        while j < n
            invariant
                j <= n,
                base == c * n,
                base + n <= pb@.len(),
                pb@.len() <= usize::MAX,
                cw@.len() == j,
                forall|q: int| 0 <= q < j ==> cw@[q] == pb@[base + q],
            decreases n - j,
        {
            cw.push(pb[base + j]);
            j = j + 1;
        }
        let ghost win = window_at(pb@, n as int, c as int);
        proof {
            assert(cw@ =~= win);
        }
        if should_fix {
            let s = parity_check(&cw);
            proof {
                lemma_syndrome_bound(cw@, n as int);
            }
            if s != 0 {
                let v = cw[s];
                cw.set(s, !v);
            }
            proof {
                assert(cw@ == correct_codeword(win));
            }
        }
        let ghost fixedcw = cw@;
        proof {
            assert(Seq::new(0nat, |x: int| fixedcw[data_position(x)]) =~= Seq::<bool>::empty());
        }
        let mut i2: usize = 0;
        while i2 < k
            invariant
                i2 <= k,
                k == data_bits_of(n as int),
                valid_codeword_bits(n as int),
                cw@ == fixedcw,
                fixedcw.len() == n,
                out@ == data_stream(pb@, n as int, c as int, should_fix) + Seq::new(
                    i2 as nat,
                    |x: int| fixedcw[data_position(x)],
                ),
            decreases k - i2,
        {
            proof {
                lemma_position_tables(n as int);
            }
            let pos = og_index_to_new_index(i2);
            out.push(cw[pos]);
            proof {
                assert(out@ =~= data_stream(pb@, n as int, c as int, should_fix) + Seq::new(
                    (i2 + 1) as nat,
                    |x: int| fixedcw[data_position(x)],
                ));
            }
            i2 = i2 + 1;
        }
        proof {
            assert(Seq::new(k as nat, |x: int| fixedcw[data_position(x)]) =~= decode_chunk_spec(
                win,
                n as int,
                should_fix,
            ));
            assert(out@ == data_stream(pb@, n as int, c as int + 1, should_fix));
            lemma_data_stream_len(pb@, n as int, c as int + 1, should_fix);
            assert((c as int + 1) * k as int == c as int * k as int + k as int)
                by (nonlinear_arith);
        }
        c = c + 1;
    }
    proof {
        assert(k as int <= n as int);
        assert(count as int * k as int <= count as int * n as int) by (nonlinear_arith)
            requires
                k as int <= n as int,
                count as int >= 0,
        ;
        if count >= 1 {
            assert((count - 1) * k as int + k as int == count as int * k as int)
                by (nonlinear_arith);
        }
    }
    let dlen: usize = if count == 0 {
        0
    } else {
        (count - 1) * k + last
    };
    out.truncate(dlen);
    let res = bits_to_bytes(&out);
    proof {
        assert(out@ == data_stream(pb@, n as int, count as int, should_fix).take(
            decoded_bit_len(count as int, k as int, last as int),
        ));
        assert(res@ == decode_spec(file@, should_fix));
    }
    Ok(res)
}

} // verus!
