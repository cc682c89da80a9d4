use bit_vec::BitVec;
use codecs::hamming_code::decoder;
use codecs::hamming_code::encoder;

#[test]
fn text_roundtrip() {
    let text = String::from("Hello! How are you?\nkek");
    let coded = encoder::encode(text.clone());
    assert_eq!(decoder::decode(coded), text);
}

#[test]
fn text_exact() {
    assert_eq!(encoder::encode(String::from("Hi!")), "164 48 59 140 32 32");
    assert_eq!(decoder::decode(String::from("164 48 59 140 32 32")), "Hi!");
}

#[test]
fn to_str_joins_with_spaces() {
    assert_eq!(encoder::to_str(vec![1, 22, 255]), "1 22 255");
    assert_eq!(encoder::to_str(vec![0]), "0");
    assert_eq!(encoder::to_str(vec![]), "");
}

#[test]
fn parse_to_u8_reads_numbers() {
    assert_eq!(decoder::parse_to_u8(vec!["0", "17", "255"]), vec![0, 17, 255]);
}

#[test]
fn copy_and_append() {
    let v = BitVec::from_bytes(&[0b1011_0010]);
    let c = encoder::copy_bits(&v, 2, 6);
    assert!(c.eq_vec(&[true, true, false, false]));
    assert_eq!(encoder::copy_bits(&v, 5, 5).len(), 0);
    let w = decoder::append(c, BitVec::from_elem(2, true));
    assert!(w.eq_vec(&[true, true, false, false, true, true]));
}

#[test]
fn powers_of_two() {
    assert!(encoder::is_power_of_two(1, 3));
    assert!(encoder::is_power_of_two(4, 3));
    assert!(!encoder::is_power_of_two(8, 3));
    assert!(!encoder::is_power_of_two(6, 3));
}

#[test]
fn set_parity_block() {
    // data 1010 at positions 3, 5, 6, 7; a check bit is set when its group
    // holds an even number of ones
    let data = BitVec::from_fn(4, |i| i == 0 || i == 2);
    let block = encoder::set_parity(data, 0, 4, 3);
    assert_eq!(block.len(), 7);
    let mut expected = BitVec::from_elem(7, false);
    for (i, b) in [false, true, true, false, false, true, false].iter().enumerate() {
        expected.set(i, *b);
    }
    assert_eq!(block, expected);
}

#[test]
fn index_sets() {
    let s0 = decoder::indexes_to_check(0, 7);
    let mut v0: Vec<u32> = s0.into_iter().collect();
    v0.sort();
    assert_eq!(v0, vec![2, 4, 6]);
    let mut v1: Vec<u32> = decoder::indexes_to_check(1, 7).into_iter().collect();
    v1.sort();
    assert_eq!(v1, vec![2, 5, 6]);
    let mut v2: Vec<u32> = decoder::indexes_to_check(2, 7).into_iter().collect();
    v2.sort();
    assert_eq!(v2, vec![4, 5, 6]);
}

#[test]
fn counting_mistakes() {
    let v = BitVec::from_bytes(&[0b1010_0000]);
    assert_eq!(decoder::count_mistakes(&v, 3), 1);
    assert_eq!(decoder::count_mistakes(&v, 8), 6);
}

#[test]
fn parity_check_block() {
    let block = encoder::set_parity(BitVec::from_fn(4, |i| i == 0 || i == 2), 0, 4, 3);
    let data = decoder::parity_check(block.clone());
    assert!(data.eq_vec(&[true, false, true, false]));
    let mut bad = block;
    let b = bad.get(4).unwrap();
    bad.set(4, !b);
    assert!(decoder::parity_check(bad).eq_vec(&[true, false, true, false]));
}

#[test]
fn checking_for_eight_strips_padding() {
    let coded = BitVec::from_bytes(&[178, 183, 81, 239, 226, 224]);
    let t = decoder::checking_for_eight(coded);
    assert_eq!(t.len(), 42);
}
