//! Bit sequences: the `BitVec` of the `bit_vec` crate, seen through the
//! sequence of bits it holds, and the packing of bits into bytes
//! (most significant bit first) that `BitVec::from_bytes` and
//! `BitVec::to_bytes` use.
use bit_vec::BitVec;
use vstd::prelude::*;

verus! {

#[verifier::external_type_specification]
#[verifier::external_body]
#[verifier::reject_recursive_types(B)]
pub struct ExBitVec<B>(BitVec<B>);

/// The bits that a `BitVec` holds, first bit first.
pub uninterp spec fn bits_of(v: BitVec) -> Seq<bool>;

// ---------------------------------------------------------------------------
// Bytes and bits
// ---------------------------------------------------------------------------

/// Bit `k` of byte `b`, counted from the most significant bit (`k == 0`).
pub open spec fn byte_bit(b: u8, k: int) -> bool {
    if k == 0 {
        b & 0x80u8 != 0
    } else if k == 1 {
        b & 0x40u8 != 0
    } else if k == 2 {
        b & 0x20u8 != 0
    } else if k == 3 {
        b & 0x10u8 != 0
    } else if k == 4 {
        b & 0x08u8 != 0
    } else if k == 5 {
        b & 0x04u8 != 0
    } else if k == 6 {
        b & 0x02u8 != 0
    } else {
        b & 0x01u8 != 0
    }
}

/// The bits of a byte string, eight per byte, most significant bit first.
pub open spec fn bytes_to_bits(s: Seq<u8>) -> Seq<bool> {
    Seq::new(s.len() * 8, |i: int| byte_bit(s[i / 8], i % 8))
}

/// Bit `i` of `b`, or `false` past its end.
pub open spec fn bit_at(b: Seq<bool>, i: int) -> bool {
    0 <= i < b.len() && b[i]
}

/// The byte made of eight bits, the first one most significant.
pub open spec fn pack8(b0: bool, b1: bool, b2: bool, b3: bool, b4: bool, b5: bool, b6: bool, b7: bool) -> u8 {
    (if b0 { 0x80u8 } else { 0u8 }) | (if b1 { 0x40u8 } else { 0u8 }) | (if b2 { 0x20u8 } else { 0u8 }) | (
    if b3 { 0x10u8 } else { 0u8 }) | (if b4 { 0x08u8 } else { 0u8 }) | (if b5 { 0x04u8 } else { 0u8 }) | (
    if b6 { 0x02u8 } else { 0u8 }) | (if b7 { 0x01u8 } else { 0u8 })
}

/// Byte `j` of the packing of `b`: bits `8j .. 8j + 8`, missing bits read as `false`.
pub open spec fn packed_byte(b: Seq<bool>, j: int) -> u8 {
    pack8(
        bit_at(b, 8 * j),
        bit_at(b, 8 * j + 1),
        bit_at(b, 8 * j + 2),
        bit_at(b, 8 * j + 3),
        bit_at(b, 8 * j + 4),
        bit_at(b, 8 * j + 5),
        bit_at(b, 8 * j + 6),
        bit_at(b, 8 * j + 7),
    )
}

/// Number of bytes needed for `n` bits.
pub open spec fn bytes_for(n: nat) -> nat {
    (n + 7) / 8
}

/// The bytes of a bit sequence, eight bits per byte, most significant bit
/// first, the last byte filled up with `false` bits.
pub open spec fn bits_to_bytes(b: Seq<bool>) -> Seq<u8> {
    Seq::new(bytes_for(b.len()), |j: int| packed_byte(b, j))
}

/// A bit sequence followed by `false` bits up to a multiple of eight.
pub open spec fn pad_to_bytes(b: Seq<bool>) -> Seq<bool> {
    Seq::new(bytes_for(b.len()) * 8, |i: int| bit_at(b, i))
}

proof fn lemma_pack_unpack(x: u8)
    by (bit_vector)
    ensures
        ((if x & 0x80u8 != 0 { 0x80u8 } else { 0u8 }) | (if x & 0x40u8 != 0 { 0x40u8 } else { 0u8 }) | (
        if x & 0x20u8 != 0 { 0x20u8 } else { 0u8 }) | (if x & 0x10u8 != 0 { 0x10u8 } else { 0u8 }) | (
        if x & 0x08u8 != 0 { 0x08u8 } else { 0u8 }) | (if x & 0x04u8 != 0 { 0x04u8 } else { 0u8 }) | (
        if x & 0x02u8 != 0 { 0x02u8 } else { 0u8 }) | (if x & 0x01u8 != 0 { 0x01u8 } else { 0u8 })) == x,
{
}

proof fn lemma_unpack_pack(b0: bool, b1: bool, b2: bool, b3: bool, b4: bool, b5: bool, b6: bool, b7: bool)
    ensures
        byte_bit(pack8(b0, b1, b2, b3, b4, b5, b6, b7), 0) == b0,
        byte_bit(pack8(b0, b1, b2, b3, b4, b5, b6, b7), 1) == b1,
        byte_bit(pack8(b0, b1, b2, b3, b4, b5, b6, b7), 2) == b2,
        byte_bit(pack8(b0, b1, b2, b3, b4, b5, b6, b7), 3) == b3,
        byte_bit(pack8(b0, b1, b2, b3, b4, b5, b6, b7), 4) == b4,
        byte_bit(pack8(b0, b1, b2, b3, b4, b5, b6, b7), 5) == b5,
        byte_bit(pack8(b0, b1, b2, b3, b4, b5, b6, b7), 6) == b6,
        byte_bit(pack8(b0, b1, b2, b3, b4, b5, b6, b7), 7) == b7,
{
    let x = pack8(b0, b1, b2, b3, b4, b5, b6, b7);
    assert(x == pack8(b0, b1, b2, b3, b4, b5, b6, b7));
    assert(
        x == ((if b0 { 0x80u8 } else { 0u8 }) | (if b1 { 0x40u8 } else { 0u8 }) | (if b2 { 0x20u8 } else { 0u8 }) | (
    if b3 { 0x10u8 } else { 0u8 }) | (if b4 { 0x08u8 } else { 0u8 }) | (if b5 { 0x04u8 } else { 0u8 }) | (
    if b6 { 0x02u8 } else { 0u8 }) | (if b7 { 0x01u8 } else { 0u8 }))
        ==> (x & 0x80u8 != 0) == b0 && (x & 0x40u8 != 0) == b1 && (x & 0x20u8 != 0) == b2 && (x & 0x10u8 != 0) == b3
            && (x & 0x08u8 != 0) == b4 && (x & 0x04u8 != 0) == b5 && (x & 0x02u8 != 0) == b6 && (x & 0x01u8 != 0) == b7
    ) by (bit_vector);
}

/// Packing the bits of a byte string gives the byte string back.
pub proof fn lemma_bytes_bits_bytes(s: Seq<u8>)
    ensures
        bits_to_bytes(bytes_to_bits(s)) == s,
{
    let b = bytes_to_bits(s);
    assert forall|j: int| 0 <= j < s.len() implies #[trigger] packed_byte(b, j) == s[j] by {
        let x = s[j];
        assert forall|k: int| 0 <= k < 8 implies bit_at(b, 8 * j + k) == byte_bit(x, k) by {
            assert((8 * j + k) / 8 == j);
            assert((8 * j + k) % 8 == k);
        }
        assert(bit_at(b, 8 * j) == byte_bit(x, 0));
        assert(bit_at(b, 8 * j + 1) == byte_bit(x, 1));
        assert(bit_at(b, 8 * j + 2) == byte_bit(x, 2));
        assert(bit_at(b, 8 * j + 3) == byte_bit(x, 3));
        assert(bit_at(b, 8 * j + 4) == byte_bit(x, 4));
        assert(bit_at(b, 8 * j + 5) == byte_bit(x, 5));
        assert(bit_at(b, 8 * j + 6) == byte_bit(x, 6));
        assert(bit_at(b, 8 * j + 7) == byte_bit(x, 7));
        lemma_pack_unpack(x);
    }
    assert(bytes_for(b.len()) == s.len());
    assert(bits_to_bytes(b) =~= s);
}

/// Unpacking the bytes of a bit sequence gives the sequence back, followed
/// by the `false` bits that fill up the last byte.
pub proof fn lemma_bits_bytes_bits(b: Seq<bool>)
    ensures
        bytes_to_bits(bits_to_bytes(b)) == pad_to_bytes(b),
{
    let s = bits_to_bytes(b);
    let r = bytes_to_bits(s);
    assert forall|i: int| 0 <= i < r.len() implies #[trigger] r[i] == bit_at(b, i) by {
        let j = i / 8;
        let k = i % 8;
        assert(i == 8 * j + k);
        lemma_unpack_pack(
            bit_at(b, 8 * j),
            bit_at(b, 8 * j + 1),
            bit_at(b, 8 * j + 2),
            bit_at(b, 8 * j + 3),
            bit_at(b, 8 * j + 4),
            bit_at(b, 8 * j + 5),
            bit_at(b, 8 * j + 6),
            bit_at(b, 8 * j + 7),
        );
    }
    assert(r =~= pad_to_bytes(b));
}

/// A bit sequence whose length is a multiple of eight comes back unchanged
/// from its bytes.
pub proof fn lemma_bits_bytes_bits_exact(b: Seq<bool>)
    requires
        b.len() % 8 == 0,
    ensures
        bytes_to_bits(bits_to_bytes(b)) == b,
{
    lemma_bits_bytes_bits(b);
    assert(pad_to_bytes(b) =~= b);
}

/// Number of set bits in `b`.
pub open spec fn count_ones(b: Seq<bool>) -> nat
    decreases b.len(),
{
    if b.len() == 0 {
        0
    } else {
        count_ones(b.drop_last()) + if b.last() {
            1nat
        } else {
            0nat
        }
    }
}

/// Number of clear bits in `b`.
pub open spec fn count_zeros(b: Seq<bool>) -> nat
    decreases b.len(),
{
    if b.len() == 0 {
        0
    } else {
        count_zeros(b.drop_last()) + if b.last() {
            0nat
        } else {
            1nat
        }
    }
}

/// `2` to the power `e`.
pub open spec fn pow2(e: nat) -> nat
    decreases e,
{
    if e == 0 {
        1
    } else {
        2 * pow2((e - 1) as nat)
    }
}

/// Powers of two grow with the exponent.
pub proof fn lemma_pow2_strictly_increases(a: nat, b: nat)
    requires
        a < b,
    ensures
        pow2(a) < pow2(b),
    decreases b,
{
    if a + 1 < b {
        lemma_pow2_strictly_increases(a, (b - 1) as nat);
    }
    lemma_pow2_positive((b - 1) as nat);
}

/// Powers of two are positive.
pub proof fn lemma_pow2_positive(e: nat)
    ensures
        pow2(e) > 0,
    decreases e,
{
    if e > 0 {
        lemma_pow2_positive((e - 1) as nat);
    }
}

/// The first powers of two.
pub proof fn lemma_pow2_values()
    ensures
        pow2(0) == 1,
        pow2(1) == 2,
        pow2(2) == 4,
        pow2(3) == 8,
        pow2(32) == 0x1_0000_0000,
{
    reveal_with_fuel(pow2, 33);
}

// ---------------------------------------------------------------------------
// Trusted items of the bit_vec crate
// ---------------------------------------------------------------------------

/// `BitVec::new`: an empty bit vector.
#[verifier::external_body]
pub(crate) fn bv_new() -> (r: BitVec)
    ensures
        bits_of(r) == Seq::<bool>::empty(),
{
    BitVec::new()
}

/// `BitVec::from_elem`: `len` copies of `bit`.
#[verifier::external_body]
pub(crate) fn bv_from_elem(len: usize, bit: bool) -> (r: BitVec)
    ensures
        bits_of(r) == Seq::new(len as nat, |i: int| bit),
{
    BitVec::from_elem(len, bit)
}

/// `BitVec::from_bytes`: eight bits per byte, most significant bit first.
/// It panics with "capacity overflow" when the bit count exceeds `usize`.
#[verifier::external_body]
pub(crate) fn bv_from_bytes(bytes: &[u8]) -> (r: BitVec)
    requires
        bytes@.len() * 8 <= usize::MAX,
    ensures
        bits_of(r) == bytes_to_bits(bytes@),
{
    BitVec::from_bytes(bytes)
}

/// `BitVec::to_bytes`: eight bits per byte, most significant bit first,
/// the last byte filled up with zero bits.
#[verifier::external_body]
pub(crate) fn bv_to_bytes(v: &BitVec) -> (r: Vec<u8>)
    ensures
        r@ == bits_to_bytes(bits_of(*v)),
{
    v.to_bytes()
}

/// `BitVec::len`: the number of bits held.
#[verifier::external_body]
pub(crate) fn bv_len(v: &BitVec) -> (r: usize)
    ensures
        r == bits_of(*v).len(),
{
    v.len()
}

/// `BitVec::get`: the bit at `i`, `None` past the end.
#[verifier::external_body]
pub(crate) fn bv_get(v: &BitVec, i: usize) -> (r: Option<bool>)
    ensures
        i < bits_of(*v).len() ==> r == Some(bits_of(*v)[i as int]),
        i >= bits_of(*v).len() ==> r is None,
{
    v.get(i)
}

/// `BitVec::set`: replaces the bit at `i`; it panics when `i` is out of bounds.
#[verifier::external_body]
pub(crate) fn bv_set(v: &mut BitVec, i: usize, x: bool)
    requires
        i < bits_of(*old(v)).len(),
    ensures
        bits_of(*final(v)) == bits_of(*old(v)).update(i as int, x),
{
    v.set(i, x)
}

/// `BitVec::push`: appends one bit; it panics when the length would
/// overflow `usize`.
#[verifier::external_body]
pub(crate) fn bv_push(v: &mut BitVec, b: bool)
    requires
        bits_of(*old(v)).len() < usize::MAX,
    ensures
        bits_of(*final(v)) == bits_of(*old(v)).push(b),
{
    v.push(b)
}

/// `BitVec::pop`: removes and returns the last bit, `None` when empty.
#[verifier::external_body]
pub(crate) fn bv_pop(v: &mut BitVec) -> (r: Option<bool>)
    ensures
        bits_of(*old(v)).len() == 0 ==> r is None && bits_of(*final(v)) == bits_of(*old(v)),
        bits_of(*old(v)).len() > 0 ==> r == Some(bits_of(*old(v)).last()) && bits_of(*final(v))
            == bits_of(*old(v)).drop_last(),
{
    v.pop()
}

/// `BitVec::all`: whether every bit is set.
#[verifier::external_body]
pub(crate) fn bv_all(v: &BitVec) -> (r: bool)
    ensures
        r == (forall|i: int| 0 <= i < bits_of(*v).len() ==> bits_of(*v)[i]),
{
    v.all()
}

/// `PartialEq::eq` of `BitVec`: whether the two hold the same bits.  The
/// crate compares the lengths and then the storage blocks, whose bits past
/// the length it keeps clear.
#[verifier::external_body]
pub(crate) fn bv_eq(a: &BitVec, b: &BitVec) -> (r: bool)
    ensures
        r == (bits_of(*a) == bits_of(*b)),
{
    a == b
}

/// `Clone` of `BitVec`: a bit vector holding the same bits.
#[verifier::external_body]
pub(crate) fn bv_clone(v: &BitVec) -> (r: BitVec)
    ensures
        bits_of(r) == bits_of(*v),
{
    v.clone()
}

} // verus!
