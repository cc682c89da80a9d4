//! Little-endian `u32` fields, read and written through the `byteorder`
//! crate.
use byteorder::{ByteOrder, LittleEndian, WriteBytesExt};
use vstd::prelude::*;

verus! {

/// The four bytes of `x`, least significant first.
pub open spec fn le_bytes(x: u32) -> Seq<u8> {
    seq![(x % 256) as u8, ((x / 256) % 256) as u8, ((x / 65536) % 256) as u8, (x / 16777216) as u8]
}

/// The `u32` whose least significant byte comes first in `s`.
pub open spec fn le_value(s: Seq<u8>) -> u32 {
    (s[0] as int + 256 * (s[1] as int) + 65536 * (s[2] as int) + 16777216 * (s[3] as int)) as u32
}

/// Reading the bytes of a value gives the value back.
pub proof fn lemma_le_roundtrip(x: u32)
    ensures
        le_value(le_bytes(x)) == x,
{
    let b = le_bytes(x);
    assert(b[0] as int == x % 256);
    assert(b[1] as int == (x / 256) % 256);
    assert(b[2] as int == (x / 65536) % 256);
    assert(b[3] as int == x / 16777216);
    assert(x as int == x % 256 + 256 * ((x / 256) % 256) + 65536 * ((x / 65536) % 256) + 16777216 * (x
        / 16777216)) by (nonlinear_arith);
}

/// `WriteBytesExt::write_u32::<LittleEndian>` on a `Vec<u8>`: appends the
/// four bytes of `x`, least significant first.  Writing to a `Vec` cannot
/// fail, so the `unwrap` never panics.
#[verifier::external_body]
pub(crate) fn write_u32_le(out: &mut Vec<u8>, x: u32)
    ensures
        final(out)@ == old(out)@ + le_bytes(x),
{
    out.write_u32::<LittleEndian>(x).unwrap()
}

/// `ByteOrder::read_u32` of `LittleEndian`: the `u32` held by the first four
/// bytes of `buf`, least significant first; it panics on fewer than four
/// bytes.
#[verifier::external_body]
pub(crate) fn read_u32_le(buf: &[u8]) -> (r: u32)
    requires
        buf@.len() >= 4,
    ensures
        r == le_value(buf@),
{
    LittleEndian::read_u32(buf)
}

} // verus!
