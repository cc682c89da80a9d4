use codecs::hamming;
use codecs::parity_check;
use codecs::repetition;

fn sample() -> Vec<u8> {
    vec![1, 3, 3, 7, 2, 2, 8, 14, 88, 13, 37, 37, 14, 53, 19, 41, 19, 45]
}

// Repetition

#[test]
fn repetition_test() {
    let input: Vec<u8> = sample();
    let encoded = repetition::encode(&input[..]);
    let decoded = repetition::decode(&encoded[..]).unwrap();
    assert_eq!(decoded, input);
}

#[test]
fn repetition_exact() {
    // 1010_0000 becomes 111 000 111 000 000 000 000 000
    assert_eq!(repetition::encode(&[0xA0]), vec![0xE3, 0x80, 0x00]);
    assert_eq!(repetition::encode(&[]), Vec::<u8>::new());
}

#[test]
fn repetition_corrects_one_flip_per_group() {
    let input: Vec<u8> = sample();
    let mut encoded = repetition::encode(&input);
    // flip the first bit of every group of three (bit 3k of the stream)
    for k in 0..input.len() * 8 {
        let bit = 3 * k;
        encoded[bit / 8] ^= 0x80 >> (bit % 8);
    }
    assert_eq!(repetition::decode(&encoded), Some(input));
}

#[test]
fn repetition_wrong_length_is_none() {
    assert_eq!(repetition::decode(&[1, 2]), None);
    assert_eq!(repetition::decode(&[1, 2, 3, 4]), None);
    assert_eq!(repetition::decode(&[]), Some(vec![]));
}

// Parity check

#[test]
fn parity_check_test() {
    let input: Vec<u8> = sample();
    let encoded = parity_check::encode(&input[..]);
    let decoded = parity_check::decode(&encoded[..]).unwrap();
    assert_eq!(decoded, input);
}

#[test]
fn parity_check_exact() {
    assert_eq!(parity_check::encode(&[1]), vec![1, 255]);
    assert_eq!(parity_check::encode(&[3]), vec![3, 0]);
    assert_eq!(parity_check::decode(&[1, 255]), Some(vec![1]));
}

#[test]
fn parity_check_detects_flip() {
    let mut encoded = parity_check::encode(&[1, 2, 3]);
    encoded[1] ^= 0x10;
    assert_eq!(parity_check::decode(&encoded), None);
    assert_eq!(parity_check::decode(&[1, 0]), None);
}

#[test]
fn parity_check_misses_the_first_bit() {
    // the flag leaves out the first bit, so flipping it goes unnoticed
    let mut encoded = parity_check::encode(&[1, 2, 3]);
    encoded[0] ^= 0x80;
    assert_eq!(parity_check::decode(&encoded), Some(vec![0x81, 2, 3]));
}

// Hamming(7,4)

#[test]
fn hamming_exact() {
    assert_eq!(hamming::encode(&[0xAB, 0xCD, 0xEF]), vec![178, 183, 81, 239, 226, 224]);
    assert_eq!(hamming::encode(&[1, 2, 3, 4]), vec![104, 3, 162, 22, 133, 122, 18, 0]);
    assert_eq!(hamming::encode(&[0xAB]), vec![178, 182]);
}

#[test]
fn hamming_roundtrip() {
    for input in [vec![0xABu8, 0xCD, 0xEF], vec![1, 2, 3, 4], vec![72, 105, 33], sample()[..16].to_vec()] {
        let encoded = hamming::encode(&input);
        assert_eq!(hamming::decode(&encoded), input);
    }
}

#[test]
fn hamming_loses_the_last_nibble_of_one_byte() {
    // one byte is two blocks; the decoder keeps only the first
    assert_eq!(hamming::decode(&hamming::encode(&[0xAB])), vec![0xA0]);
}

#[test]
fn hamming_keeps_whole_blocks_of_bytes_only() {
    // 18 bytes are 36 blocks: the decoder keeps 35 of them
    let decoded = hamming::decode(&hamming::encode(&sample()));
    let mut expected = sample();
    expected[17] = 0x20;
    assert_eq!(decoded, expected);
}

#[test]
fn hamming_corrects_a_data_bit() {
    let mut encoded = hamming::encode(&[0xAB, 0xCD, 0xEF]);
    // bit 3 of the stream is position 2 of the first block, a data bit
    encoded[0] ^= 0x10;
    assert_eq!(hamming::decode(&encoded), vec![0xAB, 0xCD, 0xEF]);
}

#[test]
fn hamming_corrects_any_single_data_bit() {
    // every data bit of every block of a four-byte input, one at a time
    let input = vec![1u8, 2, 3, 4];
    let encoded = hamming::encode(&input);
    for k in 0..8usize {
        for j in [2usize, 4, 5, 6] {
            let p = 1 + 7 * k + j;
            let mut received = encoded.clone();
            received[p / 8] ^= 0x80 >> (p % 8);
            assert_eq!(hamming::decode(&received), input);
        }
    }
}
