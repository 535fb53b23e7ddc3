use hamming_codec::corrupt;
use hamming_codec::corrupt_with_indices;
use hamming_codec::decode;
use hamming_codec::encode_8_4;
use hamming_codec::og_index_to_new_index;
use hamming_codec::parity_check;
use hamming_codec::parity_check_u8;

#[test]
fn lib_it_works() {
    let result = 2 + 2;
    assert_eq!(result, 4);
}

#[test]
fn it_corrupts() {
    let file = format!("hamming{}{}Test", 0u8 as char, 16u8 as char).into_bytes();
    let corrupted_file = corrupt(&file);

    assert_ne!(file, corrupted_file);
}

#[test]
fn test_og_index_to_new_index() {
    assert_eq!(og_index_to_new_index(0), 3);
    assert_eq!(og_index_to_new_index(1), 5);
    assert_eq!(og_index_to_new_index(2), 6);
    assert_eq!(og_index_to_new_index(3), 7);
    assert_eq!(og_index_to_new_index(4), 9);
    assert_eq!(og_index_to_new_index(5), 10);
}

#[test]
fn parity_check_reduces_set_bit_indices() {
    // Bits set at indices 1 and 4: the syndrome is 1 ^ 4 == 5.
    let bits = vec![false, true, false, false, true, false, false, false];
    assert_eq!(parity_check(&bits), 5);
    assert_eq!(parity_check_u8(&bits), 5);
    let empty: Vec<bool> = Vec::new();
    assert_eq!(parity_check(&empty), 0);
    let zeros = vec![false; 8];
    assert_eq!(parity_check(&zeros), 0);
}

#[test]
fn corruption_keeps_header_and_length() {
    let encoded = encode_8_4(&b"hamming test".to_vec());
    let corrupted = corrupt(&encoded);
    assert_eq!(corrupted.len(), encoded.len());
    assert_eq!(&corrupted[0..9], &encoded[0..9]);
}

#[test]
fn corruption_flips_one_bit_per_codeword() {
    let encoded = encode_8_4(&b"hamming test".to_vec());
    let corrupted = corrupt(&encoded);
    for w in 9..encoded.len() {
        // With 8-bit codewords each payload byte is one codeword window,
        // so each must differ from the original in exactly one bit.
        let diff = encoded[w] ^ corrupted[w];
        assert_eq!(diff.count_ones(), 1);
    }
}

#[test]
fn corrupted_file_recovers_with_fix() {
    let file: Vec<u8> = b"hamming test".to_vec();
    let encoded = encode_8_4(&file);
    let corrupted = corrupt(&encoded);
    assert_eq!(decode(&corrupted, true).unwrap(), file);
}

#[test]
fn corruption_visible_without_fix() {
    let file: Vec<u8> = b"hamming test".to_vec();
    let encoded = encode_8_4(&file);
    // Flip the bit at position 3 of every codeword: position 3 carries
    // data, so decoding without the correction pass must show the damage.
    let indices: Vec<usize> = vec![3; 24];
    let corrupted = corrupt_with_indices(&encoded, &indices);
    assert_eq!(decode(&corrupted, true).unwrap(), file);
    assert_ne!(decode(&corrupted, false).unwrap(), file);
}

#[test]
fn explicit_indices_give_deterministic_output() {
    let file: Vec<u8> = vec![0x0f];
    let encoded = encode_8_4(&file);
    let indices: Vec<usize> = vec![0, 7];
    let a = corrupt_with_indices(&encoded, &indices);
    let b = corrupt_with_indices(&encoded, &indices);
    assert_eq!(a, b);
    assert_eq!(a[9], encoded[9] ^ 0x01);
    assert_eq!(a[10], encoded[10] ^ 0x80);
}
