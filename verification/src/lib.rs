//! Channel and entropy codes for byte strings: repetition, parity check and
//! Hamming(7,4) codes, and Huffman, Shannon–Fano and arithmetic coding.
//! The functions at the root code and decode byte slices with each of them.
pub mod arithmetic;
pub mod bits;
pub mod frame;
pub mod hamming;
pub mod hamming_code;
pub mod huffman;
pub mod le;
pub mod parity_check;
pub mod repetition;
pub mod shannon_fano;

use vstd::prelude::*;

verus! {

/// Huffman coding (see `huffman::encode`).
pub fn huff_encode(input: &[u8]) -> (r: Vec<u8>)
    requires
        input@.len() <= u32::MAX,
        input@.len() * 256 <= usize::MAX,
    ensures
        r@ == huffman::spec_encode(input@),
{
    huffman::encode(input)
}

/// Huffman decoding (see `huffman::decode`).
pub fn huff_decode(input: &[u8]) -> (r: Option<Vec<u8>>)
    requires
        huffman::decode_ok(input@),
    ensures
        match r {
            Some(v) => huffman::spec_decode(input@) == Some(v@),
            None => huffman::spec_decode(input@) is None,
        },
{
    huffman::decode(input)
}

/// Arithmetic coding (see `arithmetic::encode`).
pub fn ar_encode(input: &[u8]) -> (r: Vec<u8>)
    requires
        arithmetic::encode_ok(input@),
    ensures
        r@ == arithmetic::spec_encode(input@),
{
    arithmetic::encode(input)
}

/// Arithmetic decoding (see `arithmetic::decode`).
pub fn ar_decode(input: &[u8]) -> (r: Option<Vec<u8>>)
    requires
        arithmetic::decode_ok(input@),
    ensures
        match r {
            Some(v) => arithmetic::spec_decode(input@) == Some(v@),
            None => arithmetic::spec_decode(input@) is None,
        },
{
    arithmetic::decode(input)
}

/// Shannon–Fano coding (see `shannon_fano::encode`).
pub fn sf_encode(input: &[u8]) -> (r: Vec<u8>)
    requires
        1 <= input@.len() <= u32::MAX,
        input@.len() * 256 <= usize::MAX,
    ensures
        r@ == shannon_fano::spec_encode(input@),
{
    shannon_fano::encode(input)
}

/// Shannon–Fano decoding (see `shannon_fano::decode`).
pub fn sf_decode(input: &[u8]) -> (r: Option<Vec<u8>>)
    requires
        shannon_fano::decode_ok(input@),
    ensures
        match r {
            Some(v) => shannon_fano::spec_decode(input@) == Some(v@),
            None => shannon_fano::spec_decode(input@) is None,
        },
{
    shannon_fano::decode(input)
}

/// Threefold repetition coding (see `repetition::encode`).
pub fn rep_encode(input: &[u8]) -> (r: Vec<u8>)
    requires
        input@.len() * 24 <= usize::MAX,
    ensures
        r@ == repetition::spec_encode(input@),
{
    repetition::encode(input)
}

/// Threefold repetition decoding (see `repetition::decode`).
pub fn rep_decode(input: &[u8]) -> (r: Option<Vec<u8>>)
    requires
        input@.len() % 3 != 0 || input@.len() * 8 <= usize::MAX,
    ensures
        match r {
            Some(v) => repetition::spec_decode(input@) == Some(v@),
            None => repetition::spec_decode(input@) is None,
        },
{
    repetition::decode(input)
}

/// Parity check coding (see `parity_check::encode`).
pub fn pc_encode(input: &[u8]) -> (r: Vec<u8>)
    requires
        input@.len() > 0,
        input@.len() * 8 <= usize::MAX,
    ensures
        r@ == parity_check::spec_encode(input@),
{
    parity_check::encode(input)
}

/// Parity check decoding (see `parity_check::decode`).
pub fn pc_decode(input: &[u8]) -> (r: Option<Vec<u8>>)
    requires
        input@.len() > 1,
        (input@.len() - 1) * 8 <= usize::MAX,
    ensures
        match r {
            Some(v) => parity_check::spec_decode(input@) == Some(v@),
            None => parity_check::spec_decode(input@) is None,
        },
{
    parity_check::decode(input)
}

/// Hamming(7,4) coding (see `hamming::encode`).
pub fn ham_encode(input: &[u8]) -> (r: Vec<u8>)
    requires
        input@.len() * 8 <= usize::MAX,
        hamming::block_count(input@.len()) * 7 < usize::MAX,
    ensures
        r@ == hamming::spec_encode(input@),
{
    hamming::encode(input)
}

/// Hamming(7,4) decoding (see `hamming::decode`).
pub fn ham_decode(input: &[u8]) -> (r: Vec<u8>)
    requires
        input@.len() >= 1,
        input@.len() * 8 <= usize::MAX,
    ensures
        r@ == hamming::spec_decode(input@),
{
    hamming::decode(input)
}

} // verus!
