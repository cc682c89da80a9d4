use codecs::arithmetic;
use codecs::huffman;
use codecs::shannon_fano;

fn sample() -> Vec<u8> {
    vec![1, 3, 3, 7, 2, 2, 8, 14, 88, 13, 37, 37, 14, 53, 19, 41, 19, 45]
}

// Huffman

#[test]
fn huffman_test() {
    let input: Vec<u8> = sample();
    let encoded = huffman::encode(&input[..]);
    let decoded = huffman::decode(&encoded[..]);
    assert_eq!(decoded, Some(input));
}

#[test]
fn test_single() {
    let input: Vec<u8> = vec![1];
    let encoded = huffman::encode(&input[..]);
    let decoded = huffman::decode(&encoded[..]);
    assert_eq!(decoded, Some(input));
}

#[test]
fn test_none() {
    let input: Vec<u8> = vec![];
    let encoded = huffman::encode(&input[..]);
    let decoded = huffman::decode(&encoded[..]);
    assert_eq!(decoded, Some(input));
}

fn counts_table(pairs: &[(usize, u32)]) -> Vec<u8> {
    let mut t = vec![0u8; 1024];
    for &(sym, count) in pairs {
        t[4 * sym..4 * sym + 4].copy_from_slice(&count.to_le_bytes());
    }
    t
}

#[test]
fn huffman_one_symbol_layout() {
    // one symbol: its code is a single 0 bit
    let encoded = huffman::encode(&[1]);
    let mut expected = vec![0x00];
    expected.extend(counts_table(&[(1, 1)]));
    expected.push(1);
    assert_eq!(encoded, expected);
}

#[test]
fn huffman_two_symbols_layout() {
    // two symbols of equal count: the lower one gets 0, the other 1
    let encoded = huffman::encode(&[1, 2]);
    let mut expected = vec![0x40];
    expected.extend(counts_table(&[(1, 1), (2, 1)]));
    expected.push(2);
    assert_eq!(encoded, expected);
}

#[test]
fn huffman_empty_layout() {
    let encoded = huffman::encode(&[]);
    assert_eq!(encoded, vec![0u8; 1025]);
}

#[test]
fn huffman_short_input_is_none() {
    assert_eq!(huffman::decode(&[0u8; 1024]), None);
    assert_eq!(huffman::decode(&[]), None);
}

#[test]
fn huffman_roundtrip_text() {
    let input = b"the quick brown fox jumps over the lazy dog, again and again".to_vec();
    let encoded = huffman::encode(&input);
    assert_eq!(huffman::decode(&encoded), Some(input));
}

#[test]
fn huffman_roundtrip_all_bytes() {
    let input: Vec<u8> = (0..=255u8).chain((0..=255u8).rev()).chain(0..40u8).collect();
    let encoded = huffman::encode(&input);
    assert_eq!(huffman::decode(&encoded), Some(input));
}

#[test]
fn huffman_bits_ending_inside_a_word_is_none() {
    // three symbols: one side of the root is a symbol, the other a node, so
    // of the two one-bit strings one decodes and the other runs out
    let mut zero = vec![0x00];
    zero.extend(counts_table(&[(1, 1), (2, 1), (3, 1)]));
    zero.push(1);
    let mut one = zero.clone();
    one[0] = 0x80;
    let a = huffman::decode(&zero);
    let b = huffman::decode(&one);
    assert!(a.is_none() != b.is_none());
    let found = a.or(b).unwrap();
    assert_eq!(found.len(), 1);
    assert!([1, 2, 3].contains(&found[0]));
}

// Shannon-Fano

#[test]
fn shannon_fano_test() {
    let input: Vec<u8> = sample();
    let encoded = shannon_fano::encode(&input[..]);
    let decoded = shannon_fano::decode(&encoded[..]).unwrap();
    assert_eq!(decoded, input);
}

#[test]
fn shannon_fano_two_symbols_layout() {
    let encoded = shannon_fano::encode(&[1, 2]);
    let mut expected = vec![0x40];
    expected.extend(counts_table(&[(1, 1), (2, 1)]));
    expected.push(2);
    assert_eq!(encoded, expected);
}

#[test]
fn shannon_fano_single_byte_roundtrip() {
    let encoded = shannon_fano::encode(&[7]);
    assert_eq!(shannon_fano::decode(&encoded), Some(vec![7]));
}

#[test]
fn shannon_fano_repeated_symbol_reads_one() {
    // one symbol repeated has the empty code word, so no bits are written
    // and the decoder reads back one copy
    let encoded = shannon_fano::encode(&[5, 5, 5]);
    let mut expected = Vec::new();
    expected.extend(counts_table(&[(5, 3)]));
    expected.push(0);
    assert_eq!(encoded, expected);
    assert_eq!(shannon_fano::decode(&encoded), Some(vec![5]));
}

#[test]
fn shannon_fano_roundtrip_text() {
    let input = b"abracadabra, said the wizard to the lizard".to_vec();
    let encoded = shannon_fano::encode(&input);
    assert_eq!(shannon_fano::decode(&encoded), Some(input));
}

#[test]
fn shannon_fano_short_input_is_none() {
    assert_eq!(shannon_fano::decode(&[1u8; 1000]), None);
}

// Arithmetic

#[test]
fn arithmetic_test() {
    let input = vec![1, 3, 3, 7, 4, 4, 4, 4, 4, 4, 4, 4];
    let encoded = arithmetic::encode(&input[..]);
    let decoded = arithmetic::decode(&encoded[..]);
    assert_eq!(input, decoded.unwrap());
}

#[test]
fn arithmetic_layout() {
    let input = vec![1, 3, 3, 7, 4, 4, 4, 4, 4, 4, 4, 4];
    let encoded = arithmetic::encode(&input);
    assert_eq!(encoded.len(), 1036);
    assert_eq!(&encoded[..3], &[2, 167, 64]);
    assert_eq!(&encoded[encoded.len() - 5..], &[12, 0, 0, 0, 2]);
    // the model: cumulative counts, total 12 from symbol 8 on
    let model_at = |i: usize| u32::from_le_bytes([encoded[3 + 4 * i], encoded[4 + 4 * i], encoded[5 + 4 * i], encoded[6 + 4 * i]]);
    assert_eq!(model_at(0), 0);
    assert_eq!(model_at(2), 1);
    assert_eq!(model_at(4), 3);
    assert_eq!(model_at(5), 11);
    assert_eq!(model_at(8), 12);
    assert_eq!(model_at(256), 12);
}

#[test]
fn arithmetic_roundtrips() {
    for input in [
        vec![0u8, 1, 0],
        vec![10, 20, 10, 30, 20, 10],
        b"hello world".to_vec(),
        b"abracadabra".to_vec(),
    ] {
        let encoded = arithmetic::encode(&input);
        assert_eq!(arithmetic::decode(&encoded), Some(input));
    }
}

#[test]
fn arithmetic_exact_bits() {
    assert_eq!(&arithmetic::encode(b"hello world")[..4], &[75, 33, 166, 162]);
    assert_eq!(&arithmetic::encode(&[10, 20, 10, 30, 20, 10])[..1], &[84]);
}

#[test]
fn arithmetic_short_input_is_none() {
    assert_eq!(arithmetic::decode(&[0u8; 1032]), None);
}

// Inputs on which the coders do not finish

#[test]
fn huffman_decodable_checks() {
    let encoded = huffman::encode(&sample());
    assert!(huffman::decodable(&encoded));
    assert!(huffman::decodable(&[0u8; 10]));
    let mut bad = encoded.clone();
    let n = bad.len();
    bad[n - 1] = 9;
    assert!(!huffman::decodable(&bad));
    // two counts whose sum passes u32::MAX
    let mut big = vec![0u8];
    big.extend(counts_table(&[(1, u32::MAX), (2, 1)]));
    big.push(0);
    assert!(!huffman::decodable(&big));
}

#[test]
fn shannon_fano_try_decode_refuses() {
    // no symbol counted: the table is empty
    let mut empty = vec![0u8; 1024];
    empty.push(0);
    assert_eq!(shannon_fano::try_decode(&empty), None);
    // a final byte above 8
    let mut encoded = shannon_fano::encode(&sample());
    let n = encoded.len();
    encoded[n - 1] = 9;
    assert_eq!(shannon_fano::try_decode(&encoded), None);
    // too short: decodes to nothing
    assert_eq!(shannon_fano::try_decode(&[0u8; 3]), Some(None));
    // one symbol and leftover bits: the decoder would never finish
    let mut looping = vec![0xFF];
    looping.extend(counts_table(&[(5, 3)]));
    looping.push(0);
    assert_eq!(shannon_fano::try_decode(&looping), None);
    let good = shannon_fano::encode(&sample());
    assert_eq!(shannon_fano::try_decode(&good), Some(Some(sample())));
}

#[test]
fn arithmetic_try_encode_refuses() {
    // the first symbol is the largest present: the upper bound underflows
    assert_eq!(arithmetic::try_encode(&[5]), None);
    assert_eq!(arithmetic::try_encode(&[0, 1]), None);
    let input = vec![1, 3, 3, 7, 4, 4, 4, 4, 4, 4, 4, 4];
    assert_eq!(arithmetic::try_encode(&input), Some(arithmetic::encode(&input)));
}

#[test]
fn arithmetic_try_decode_refuses() {
    assert_eq!(arithmetic::try_decode(&[0u8; 100]), Some(None));
    let mut encoded = arithmetic::encode(&[1, 3, 3, 7, 4, 4, 4, 4, 4, 4, 4, 4]);
    let n = encoded.len();
    encoded[n - 1] = 9;
    assert_eq!(arithmetic::try_decode(&encoded), None);
    // a model of total 0 with one symbol announced
    let mut zero = vec![0x55];
    zero.extend(vec![0u8; 257 * 4]);
    zero.extend(1u32.to_le_bytes());
    zero.push(0);
    assert_eq!(arithmetic::try_decode(&zero), None);
}

#[test]
fn arithmetic_last_share_can_be_empty() {
    // the interval straddles the middle closely until it holds fewer values
    // than the model's total; the last symbol's share is then empty, the
    // coder writes its bits without stopping, and they do not decode back
    let input: Vec<u8> = vec![
        4, 5, 5, 5, 5, 4, 4, 5, 5, 5, 5, 5, 5, 4, 4, 5, 4, 4, 4, 4, 4, 4, 5, 5, 4, 4, 3,
    ];
    let encoded = arithmetic::try_encode(&input).unwrap();
    let mut decoded = input.clone();
    decoded[25] = 3;
    assert_eq!(arithmetic::try_decode(&encoded), Some(Some(decoded)));
}

#[test]
fn huffman_merges_the_lightest_first() {
    // counts 1, 1, 2, 4 give codes of 3, 3, 2 and 1 bits: 14 bits in all
    let input = vec![0u8, 1, 2, 2, 3, 3, 3, 3];
    let encoded = huffman::encode(&input);
    assert_eq!(encoded.len(), 2 + 256 * 4 + 1);
    assert_eq!(encoded[encoded.len() - 1], 6);
    assert_eq!(huffman::decode(&encoded), Some(input));
}
