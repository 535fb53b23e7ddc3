use hamming_codec::decode;
use hamming_codec::encode;
use hamming_codec::encode_16_11;
use hamming_codec::encode_4_1;
use hamming_codec::encode_8_4;
use hamming_codec::HammingError;
use hamming_codec::HammingLevel;

#[test]
fn it_works() {
    let result = 2 + 2;
    assert_eq!(result, 4);
}

#[test]
fn round_trip_level_1() {
    let file: Vec<u8> = b"hamming test".to_vec();
    let encoded = encode_4_1(&file);
    assert_eq!(decode(&encoded, true).unwrap(), file);
    assert_eq!(decode(&encoded, false).unwrap(), file);
}

#[test]
fn round_trip_level_2() {
    let file: Vec<u8> = b"hamming test".to_vec();
    let encoded = encode_8_4(&file);
    assert_eq!(decode(&encoded, true).unwrap(), file);
    assert_eq!(decode(&encoded, false).unwrap(), file);
}

#[test]
fn round_trip_level_3() {
    let file: Vec<u8> = b"hamming test".to_vec();
    let encoded = encode_16_11(&file);
    assert_eq!(decode(&encoded, true).unwrap(), file);
    assert_eq!(decode(&encoded, false).unwrap(), file);
}

#[test]
fn round_trip_single_byte() {
    let file: Vec<u8> = vec![0xa5];
    for n in [4usize, 8, 16] {
        let encoded = encode(&file, n).unwrap();
        assert_eq!(decode(&encoded, true).unwrap(), file);
    }
}

#[test]
fn encode_rejects_unsupported_codeword_size() {
    let file: Vec<u8> = vec![1, 2, 3];
    assert_eq!(encode(&file, 0), Err(HammingError::InvalidChunkSize));
    assert_eq!(encode(&file, 5), Err(HammingError::InvalidChunkSize));
    assert_eq!(encode(&file, 32), Err(HammingError::InvalidChunkSize));
}

#[test]
fn header_holds_magic_and_parameters() {
    let file: Vec<u8> = b"hamming test".to_vec();
    let encoded = encode_8_4(&file);
    assert_eq!(&encoded[0..7], b"hamming");
    assert_eq!(encoded[7], 4);
    assert_eq!(encoded[8], 8);
}

#[test]
fn scenario_level_2_twelve_bytes() {
    // 12 bytes are 96 bits; at n=8 (k=4) that is 24 full chunks, so the
    // payload holds 24 codewords of one byte each.
    let file: Vec<u8> = b"hamming test".to_vec();
    let encoded = encode_8_4(&file);
    assert_eq!(&encoded[0..7], b"hamming");
    assert_eq!(encoded[7], 4);
    assert_eq!(encoded[8], 8);
    assert_eq!(encoded.len(), 9 + 24);
    let indices: Vec<usize> = (0..24).map(|w| (w * 3 + 1) % 8).collect();
    let corrupted = hamming_codec::corrupt_with_indices(&encoded, &indices);
    assert_eq!(decode(&corrupted, true).unwrap(), file);
}

#[test]
fn empty_input_round_trips() {
    let file: Vec<u8> = Vec::new();
    for n in [4usize, 8, 16] {
        let encoded = encode(&file, n).unwrap();
        assert_eq!(encoded.len(), 9);
        assert_eq!(decode(&encoded, true).unwrap(), file);
    }
}

#[test]
fn exact_multiple_records_full_last_chunk() {
    // At n=4 the chunk size is one bit, and at n=8 it is four bits; every
    // whole-byte input is an exact multiple of both.
    let file: Vec<u8> = vec![0xff, 0x00, 0x55];
    assert_eq!(encode_4_1(&file)[7], 1);
    assert_eq!(encode_8_4(&file)[7], 4);
}

#[test]
fn one_bit_short_records_shorter_last_chunk() {
    // Four bytes are 32 bits; at n=16 the chunk size is 11, and 32 is one
    // bit short of a multiple of 11, so the final chunk holds 10 bits.
    let file: Vec<u8> = vec![1, 2, 3, 4];
    let encoded = encode_16_11(&file);
    assert_eq!(encoded[7], 10);
    assert_eq!(decode(&encoded, true).unwrap(), file);
}

#[test]
fn decode_rejects_short_buffer() {
    let buf: Vec<u8> = b"hammin".to_vec();
    assert_eq!(decode(&buf, true), Err(HammingError::MalformedHeader));
}

#[test]
fn decode_rejects_wrong_magic() {
    let mut buf = encode_8_4(&b"abc".to_vec());
    buf[0] = b'x';
    assert_eq!(decode(&buf, true), Err(HammingError::MalformedHeader));
}

#[test]
fn decode_rejects_unsupported_codeword_size() {
    let mut buf = encode_8_4(&b"abc".to_vec());
    buf[8] = 7;
    assert_eq!(decode(&buf, true), Err(HammingError::InvalidChunkSize));
}

#[test]
fn decode_rejects_oversized_last_chunk() {
    let mut buf = encode_8_4(&b"abc".to_vec());
    buf[7] = 5;
    assert_eq!(decode(&buf, true), Err(HammingError::MalformedHeader));
}

#[test]
fn decode_rejects_ragged_payload() {
    // 16-bit codewords need an even number of payload bytes.
    let mut buf: Vec<u8> = b"hamming".to_vec();
    buf.push(11);
    buf.push(16);
    buf.push(0xab);
    assert_eq!(decode(&buf, true), Err(HammingError::CorruptedOrTruncatedFile));
}

#[test]
fn level_selects_codeword_size() {
    assert_eq!(HammingLevel::L1.codeword_bits(), 4);
    assert_eq!(HammingLevel::L2.codeword_bits(), 8);
    assert_eq!(HammingLevel::L3.codeword_bits(), 16);
}
