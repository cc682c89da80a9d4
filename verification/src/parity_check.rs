//! Single parity check code: one byte appended to the data tells whether
//! the data bits after the first one hold an even number of set bits (0 for
//! even, 255 for odd).
use crate::bits::{bits_of, bv_from_bytes, bv_get, bv_len, bytes_to_bits, count_ones};
use vstd::prelude::*;
use vstd::slice::slice_to_vec;

verus! {

/// Whether `b` holds an odd number of set bits.
pub open spec fn odd_ones(b: Seq<bool>) -> bool
    decreases b.len(),
{
    if b.len() == 0 {
        false
    } else {
        odd_ones(b.drop_last()) != b.last()
    }
}

/// The parity flag of a non-empty bit string: `true` when the bits after the
/// first one hold an even number of set bits, that is when the parity of all
/// bits equals the first bit.
pub open spec fn parity_flag(b: Seq<bool>) -> bool {
    odd_ones(b) == b[0]
}

/// The byte appended by `encode`: 0 for an even flag, 255 for an odd one.
pub open spec fn parity_byte(flag: bool) -> u8 {
    if flag {
        0
    } else {
        255
    }
}

/// What `encode` returns: the input followed by its parity byte.
pub open spec fn spec_encode(input: Seq<u8>) -> Seq<u8> {
    input.push(parity_byte(parity_flag(bytes_to_bits(input))))
}

/// What `decode` returns: the data without its last byte when the last byte
/// (read as even when it holds fewer than five set bits) agrees with the
/// parity flag of the data, else `None`.
pub open spec fn spec_decode(input: Seq<u8>) -> Option<Seq<u8>> {
    let data = input.drop_last();
    let even_byte = count_ones(bytes_to_bits(seq![input.last()])) < 5;
    if even_byte == parity_flag(bytes_to_bits(data)) {
        Some(data)
    } else {
        None
    }
}

/// The fold that computes the parity flag: starting from the negated first
/// bit, each bit of `b` toggles the result.
fn parity_fold(bit_vec: &bit_vec::BitVec) -> (r: bool)
    requires
        bits_of(*bit_vec).len() > 0,
    ensures
        r == parity_flag(bits_of(*bit_vec)),
{
    let ghost b = bits_of(*bit_vec);
    let n = bv_len(bit_vec);
    let mut acc = !bv_get(bit_vec, 0).unwrap();
    let mut k: usize = 0;
    while k < n
        invariant
            n == b.len(),
            b == bits_of(*bit_vec),
            n > 0,
            k <= n,
            acc == (!b[0] != odd_ones(b.take(k as int))),
        decreases n - k,
    {
        let x = bv_get(bit_vec, k).unwrap();
        assert(b.take(k + 1).drop_last() =~= b.take(k as int));
        acc = acc != x;
        k += 1;
    }
    assert(b.take(n as int) =~= b);
    acc
}

/// Appends the parity byte to `input`.
pub fn encode(input: &[u8]) -> (r: Vec<u8>)
    requires
        input@.len() > 0,
        input@.len() * 8 <= usize::MAX,
    ensures
        r@ == spec_encode(input@),
{
    let bit_vec = bv_from_bytes(input);
    let is_even = parity_fold(&bit_vec);
    let mut vec = slice_to_vec(input);
    vec.push(if is_even { 0 } else { 255 });
    vec
}

/// Checks and removes the parity byte; `None` when the check fails.
pub fn decode(input: &[u8]) -> (r: Option<Vec<u8>>)
    requires
        input@.len() > 1,
        (input@.len() - 1) * 8 <= usize::MAX,
    ensures
        match r {
            Some(v) => spec_decode(input@) == Some(v@),
            None => spec_decode(input@) is None,
        },
{
    let len = input.len();
    let bit_vec = bv_from_bytes(&input[0..len - 1]);
    let is_even = parity_fold(&bit_vec);
    let last = bv_from_bytes(&input[len - 1..len]);
    let ghost lb = bits_of(last);
    assert(input@.subrange(len - 1, len as int) =~= seq![input@.last()]);
    assert(input@.subrange(0, len - 1) =~= input@.drop_last());
    let mut one_count: u32 = 0;
    let mut k: usize = 0;
    while k < 8
        invariant
            lb == bits_of(last),
            lb.len() == 8,
            k <= 8,
            one_count == count_ones(lb.take(k as int)),
            one_count <= k,
        decreases 8 - k,
    {
        assert(lb.take(k + 1).drop_last() =~= lb.take(k as int));
        if bv_get(&last, k).unwrap() {
            one_count += 1;
        }
        k += 1;
    }
    assert(lb.take(8) =~= lb);
    let is_even_byte = one_count < 5;
    if is_even_byte == is_even {
        let mut vec = slice_to_vec(input);
        vec.pop();
        assert(vec@ =~= input@.drop_last());
        Some(vec)
    } else {
        None
    }
}

/// The parity byte of an even flag has no set bit, that of an odd flag has
/// eight.
proof fn lemma_parity_byte_ones(flag: bool)
    ensures
        (count_ones(bytes_to_bits(seq![parity_byte(flag)])) < 5) == flag,
{
    let b = bytes_to_bits(seq![parity_byte(flag)]);
    reveal_with_fuel(count_ones, 9);
    assert(b.len() == 8);
    if flag {
        assert(0u8 & 0x80u8 == 0 && 0u8 & 0x40u8 == 0 && 0u8 & 0x20u8 == 0 && 0u8 & 0x10u8 == 0 && 0u8 & 0x08u8
            == 0 && 0u8 & 0x04u8 == 0 && 0u8 & 0x02u8 == 0 && 0u8 & 0x01u8 == 0) by (bit_vector);
        assert(b =~= seq![false, false, false, false, false, false, false, false]);
    } else {
        assert(255u8 & 0x80u8 != 0 && 255u8 & 0x40u8 != 0 && 255u8 & 0x20u8 != 0 && 255u8 & 0x10u8 != 0 && 255u8
            & 0x08u8 != 0 && 255u8 & 0x04u8 != 0 && 255u8 & 0x02u8 != 0 && 255u8 & 0x01u8 != 0) by (bit_vector);
        assert(b =~= seq![true, true, true, true, true, true, true, true]);
    }
}

/// Decoding an encoded non-empty byte string gives it back.
pub proof fn lemma_roundtrip(input: Seq<u8>)
    requires
        input.len() > 0,
    ensures
        spec_decode(spec_encode(input)) == Some(input),
{
    let e = spec_encode(input);
    assert(e.drop_last() =~= input);
    lemma_parity_byte_ones(parity_flag(bytes_to_bits(input)));
}

/// Flipping one bit flips the parity.
proof fn lemma_odd_ones_flip(b: Seq<bool>, j: int)
    requires
        0 <= j < b.len(),
    ensures
        odd_ones(b.update(j, !b[j])) == !odd_ones(b),
    decreases b.len(),
{
    let c = b.update(j, !b[j]);
    if j < b.len() - 1 {
        lemma_odd_ones_flip(b.drop_last(), j);
        assert(c.drop_last() =~= b.drop_last().update(j, !b[j]));
    } else {
        assert(c.drop_last() =~= b.drop_last());
    }
}

/// A single flipped data bit, other than the very first one, makes `decode`
/// refuse the coded string.  (The flag does not depend on the first bit, so
/// a flip there goes unnoticed.)
pub proof fn lemma_detects_flip(input: Seq<u8>, received: Seq<u8>, j: int)
    requires
        input.len() > 0,
        received.len() == input.len(),
        1 <= j < 8 * input.len(),
        bytes_to_bits(received) == bytes_to_bits(input).update(j, !bytes_to_bits(input)[j]),
    ensures
        spec_decode(received.push(spec_encode(input).last())) is None,
{
    let b = bytes_to_bits(input);
    let r = received.push(spec_encode(input).last());
    assert(r.drop_last() =~= received);
    lemma_odd_ones_flip(b, j);
    lemma_parity_byte_ones(parity_flag(b));
    assert(bytes_to_bits(received)[0] == b[0]);
}

/// `decode` accepts data followed by a byte `z` exactly when `z`, read as
/// even for fewer than five set bits, agrees with the parity byte `encode`
/// appends to the data; it then gives the data back.
pub proof fn lemma_decode_accepts(data: Seq<u8>, z: u8)
    requires
        data.len() > 0,
    ensures
        spec_decode(data.push(z)) is Some <==> ((count_ones(bytes_to_bits(seq![z])) < 5) == (spec_encode(
            data,
        ).last() == 0)),
        spec_decode(data.push(z)) is Some ==> spec_decode(data.push(z)) == Some(data),
{
    assert(data.push(z).drop_last() =~= data);
    assert(data.push(z).last() == z);
}

} // verus!
