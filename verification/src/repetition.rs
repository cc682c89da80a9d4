//! Repetition code: every bit is sent three times and read back by
//! majority vote.
use crate::bits::{
    bits_of, bits_to_bytes, bv_from_bytes, bv_from_elem, bv_get, bv_len, bv_set, bv_to_bytes, bytes_to_bits,
    lemma_bits_bytes_bits_exact, lemma_bytes_bits_bytes,
};
use vstd::prelude::*;

verus! {

/// How many times each bit is repeated.
pub const REPETITION_NUM: usize = 3;

/// Every bit of `b` three times in a row.
pub open spec fn repeat_bits(b: Seq<bool>) -> Seq<bool> {
    Seq::new(b.len() * 3, |i: int| b[i / 3])
}

/// Whether at least two of the three bits `3i, 3i + 1, 3i + 2` of `b` are set.
pub open spec fn majority_at(b: Seq<bool>, i: int) -> bool {
    (if b[3 * i] { 1int } else { 0int }) + (if b[3 * i + 1] { 1int } else { 0int }) + (if b[3 * i + 2] {
        1int
    } else {
        0int
    }) > 1
}

/// The majority vote of each group of three bits (a shorter last group is dropped).
pub open spec fn majority_bits(b: Seq<bool>) -> Seq<bool> {
    Seq::new(b.len() / 3, |i: int| majority_at(b, i))
}

/// What `encode` returns: the bits of the input, each repeated three times,
/// packed into bytes.
pub open spec fn spec_encode(input: Seq<u8>) -> Seq<u8> {
    bits_to_bytes(repeat_bits(bytes_to_bits(input)))
}

/// What `decode` returns: `None` unless the length is a multiple of three,
/// else the majority vote of each group of three bits, packed into bytes.
pub open spec fn spec_decode(input: Seq<u8>) -> Option<Seq<u8>> {
    if input.len() % 3 != 0 {
        None
    } else {
        Some(bits_to_bytes(majority_bits(bytes_to_bits(input))))
    }
}

/// Encodes `input` with the repetition code.
pub fn encode(input: &[u8]) -> (r: Vec<u8>)
    requires
        input@.len() * 24 <= usize::MAX,
    ensures
        r@ == spec_encode(input@),
{
    let bit_vec_in = bv_from_bytes(input);
    let n = bv_len(&bit_vec_in);
    let mut bit_vec_out = bv_from_elem(n * REPETITION_NUM, false);
    let len = bv_len(&bit_vec_out);
    let ghost b = bits_of(bit_vec_in);
    let mut i: usize = 0;
    while i < len
        invariant
            len == n * 3,
            n == b.len(),
            b == bits_of(bit_vec_in),
            i <= len,
            bits_of(bit_vec_out).len() == len,
            forall|j: int| 0 <= j < i ==> bits_of(bit_vec_out)[j] == b[j / 3],
        decreases len - i,
    {
        let bit = bv_get(&bit_vec_in, i / REPETITION_NUM);
        bv_set(&mut bit_vec_out, i, bit.unwrap());
        i += 1;
    }
    assert(bits_of(bit_vec_out) =~= repeat_bits(b));
    bv_to_bytes(&bit_vec_out)
}

/// Decodes a repetition-coded byte string; `None` when its length is not a
/// multiple of three.
pub fn decode(input: &[u8]) -> (r: Option<Vec<u8>>)
    requires
        input@.len() % 3 != 0 || input@.len() * 8 <= usize::MAX,
    ensures
        match r {
            Some(v) => spec_decode(input@) == Some(v@),
            None => spec_decode(input@) is None,
        },
{
    if input.len() % REPETITION_NUM != 0 {
        return None;
    }
    let bit_vec_in = bv_from_bytes(input);
    let n = bv_len(&bit_vec_in);
    let mut bit_vec_out = bv_from_elem(n / 3, false);
    let len = bv_len(&bit_vec_out);
    let ghost b = bits_of(bit_vec_in);
    let mut i: usize = 0;
    while i < len
        invariant
            len == n / 3,
            n == b.len(),
            b == bits_of(bit_vec_in),
            i <= len,
            bits_of(bit_vec_out).len() == len,
            forall|j: int| 0 <= j < i ==> bits_of(bit_vec_out)[j] == majority_at(b, j),
        decreases len - i,
    {
        let mut sum: usize = 0;
        let mut x: usize = 0;
        while x < REPETITION_NUM
            invariant
                i < len,
                len == n / 3,
                n == b.len(),
                b == bits_of(bit_vec_in),
                x <= 3,
                sum <= x,
                sum == (if x > 0 && b[3 * i] { 1int } else { 0int }) + (if x > 1 && b[3 * i + 1] {
                    1int
                } else {
                    0int
                }) + (if x > 2 && b[3 * i + 2] { 1int } else { 0int }),
            decreases 3 - x,
        {
            if bv_get(&bit_vec_in, i * 3 + x).unwrap() {
                sum += 1;
            }
            x += 1;
        }
        bv_set(&mut bit_vec_out, i, sum > REPETITION_NUM / 2);
        i += 1;
    }
    assert(bits_of(bit_vec_out) =~= majority_bits(b));
    Some(bv_to_bytes(&bit_vec_out))
}

/// Decoding an encoded byte string gives it back.
pub proof fn lemma_roundtrip(input: Seq<u8>)
    ensures
        spec_decode(spec_encode(input)) == Some(input),
{
    let b = bytes_to_bits(input);
    let r = repeat_bits(b);
    lemma_bits_bytes_bits_exact(r);
    let e = spec_encode(input);
    assert(e.len() == input.len() * 3);
    assert forall|i: int| 0 <= i < b.len() implies #[trigger] majority_at(r, i) == b[i] by {
        assert((3 * i) / 3 == i);
        assert((3 * i + 1) / 3 == i);
        assert((3 * i + 2) / 3 == i);
    }
    assert(majority_bits(r) =~= b);
    lemma_bytes_bits_bytes(input);
}

/// The majority vote recovers every bit when at most one bit of each group
/// of three was flipped.
pub proof fn lemma_corrects_one_error_per_group(b: Seq<bool>, c: Seq<bool>)
    requires
        c.len() == b.len() * 3,
        forall|i: int, j: int|
            #![trigger c[i], c[j]]
            0 <= i < j < c.len() && i / 3 == j / 3 && c[i] != b[i / 3] ==> c[j] == b[j / 3],
    ensures
        majority_bits(c) == b,
{
    assert forall|i: int| 0 <= i < b.len() implies #[trigger] majority_at(c, i) == b[i] by {
        assert((3 * i) / 3 == i);
        assert((3 * i + 1) / 3 == i);
        assert((3 * i + 2) / 3 == i);
        let (c0, c1, c2) = (c[3 * i], c[3 * i + 1], c[3 * i + 2]);
    }
    assert(majority_bits(c) =~= b);
}

/// Decoding the coded bytes with at most one bit wrong in each group of
/// three gives the input back.
pub proof fn lemma_decodes_with_errors(input: Seq<u8>, received: Seq<u8>)
    requires
        received.len() == spec_encode(input).len(),
        forall|i: int, j: int|
            #![trigger bytes_to_bits(received)[i], bytes_to_bits(received)[j]]
            0 <= i < j < bytes_to_bits(received).len() && i / 3 == j / 3 && bytes_to_bits(received)[i]
                != bytes_to_bits(spec_encode(input))[i] ==> bytes_to_bits(received)[j] == bytes_to_bits(
                spec_encode(input),
            )[j],
    ensures
        spec_decode(received) == Some(input),
{
    let b = bytes_to_bits(input);
    let r = repeat_bits(b);
    let c = bytes_to_bits(received);
    lemma_bits_bytes_bits_exact(r);
    assert(bytes_to_bits(spec_encode(input)) == r);
    assert(received.len() == input.len() * 3);
    assert forall|i: int, j: int|
        #![trigger c[i], c[j]]
        0 <= i < j < c.len() && i / 3 == j / 3 && c[i] != b[i / 3] implies c[j] == b[j / 3] by {
        assert(r[i] == b[i / 3]);
        assert(r[j] == b[j / 3]);
    }
    lemma_corrects_one_error_per_group(b, c);
    lemma_bytes_bits_bytes(input);
}

} // verus!
