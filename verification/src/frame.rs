//! The frame shared by the entropy coders: symbol counts, the table of
//! counts written as little-endian `u32`, and the data bits packed into
//! bytes, followed by a byte telling how many bits the last data byte holds.
use crate::bits::{
    bits_of, bits_to_bytes, bv_from_bytes, bv_pop, bytes_to_bits, lemma_bits_bytes_bits, pad_to_bytes,
};
use crate::le::{le_bytes, le_value, lemma_le_roundtrip, read_u32_le, write_u32_le};
use bit_vec::BitVec;
use vstd::prelude::*;

verus! {

/// Number of the counts `freqs[i] > 0` with `i < n`.
pub open spec fn count_nonzero(freqs: Seq<u32>, n: int) -> int
    decreases n,
{
    if n <= 0 {
        0
    } else {
        count_nonzero(freqs, n - 1) + if freqs[n - 1] > 0 {
            1int
        } else {
            0int
        }
    }
}

/// The sum of the counts `freqs[i]` with `i < n`.
pub open spec fn freq_total(freqs: Seq<u32>, n: int) -> int
    decreases n,
{
    if n <= 0 {
        0
    } else {
        freq_total(freqs, n - 1) + freqs[n - 1]
    }
}

/// Number of occurrences of `b` in `s`.
pub open spec fn occurrences(s: Seq<u8>, b: u8) -> nat
    decreases s.len(),
{
    if s.len() == 0 {
        0
    } else {
        occurrences(s.drop_last(), b) + if s.last() == b {
            1nat
        } else {
            0nat
        }
    }
}

/// The symbol counts of `s`, one per byte value.
pub open spec fn freqs_of(s: Seq<u8>) -> Seq<u32> {
    Seq::new(256, |i: int| occurrences(s, i as u8) as u32)
}

pub proof fn lemma_occurrences_le(s: Seq<u8>, b: u8)
    ensures
        occurrences(s, b) <= s.len(),
    decreases s.len(),
{
    if s.len() > 0 {
        lemma_occurrences_le(s.drop_last(), b);
    }
}

/// A symbol of `s` occurs in `s`.
pub proof fn lemma_occurs(s: Seq<u8>, k: int)
    requires
        0 <= k < s.len(),
    ensures
        occurrences(s, s[k]) > 0,
    decreases s.len(),
{
    if k < s.len() - 1 {
        lemma_occurs(s.drop_last(), k);
    }
}

pub proof fn lemma_freq_total_bump(f: Seq<u32>, j: int, n: int)
    requires
        0 <= j < f.len(),
        0 <= n <= f.len(),
        f[j] < u32::MAX,
    ensures
        freq_total(f.update(j, (f[j] + 1) as u32), n) == freq_total(f, n) + if j < n {
            1int
        } else {
            0int
        },
    decreases n,
{
    if n > 0 {
        lemma_freq_total_bump(f, j, n - 1);
    }
}

/// The counts of the symbols of `s` add up to its length.
pub proof fn lemma_freqs_total(s: Seq<u8>)
    requires
        s.len() <= u32::MAX,
    ensures
        freq_total(freqs_of(s), 256) == s.len(),
    decreases s.len(),
{
    if s.len() == 0 {
        assert(freq_total(freqs_of(s), 256) == 0) by {
            assert forall|n: int| 0 <= n <= 256 implies #[trigger] freq_total(freqs_of(s), n) == 0 by {
                lemma_freq_total_zero(freqs_of(s), n);
            }
        }
    } else {
        let t = s.drop_last();
        let x = s.last();
        lemma_freqs_total(t);
        lemma_occurrences_le(t, x);
        assert(freqs_of(s) =~= freqs_of(t).update(x as int, (freqs_of(t)[x as int] + 1) as u32));
        lemma_freq_total_bump(freqs_of(t), x as int, 256);
    }
}

pub proof fn lemma_freq_total_zero(f: Seq<u32>, n: int)
    requires
        0 <= n <= f.len(),
        forall|i: int| 0 <= i < f.len() ==> f[i] == 0,
    ensures
        freq_total(f, n) == 0,
    decreases n,
{
    if n > 0 {
        lemma_freq_total_zero(f, n - 1);
    }
}

/// Partial sums of counts grow with their length.
pub proof fn lemma_freq_total_mono(f: Seq<u32>, a: int, b: int)
    requires
        0 <= a <= b <= f.len(),
    ensures
        freq_total(f, a) <= freq_total(f, b),
    decreases b - a,
{
    if a < b {
        lemma_freq_total_mono(f, a, b - 1);
    }
}

/// Partial sums of counts are not negative.
pub proof fn lemma_freq_total_nonneg(f: Seq<u32>, n: int)
    ensures
        freq_total(f, n) >= 0,
    decreases n,
{
    if n > 0 {
        lemma_freq_total_nonneg(f, n - 1);
    }
}

/// The code words of the symbols of `s`, one after the other.
pub open spec fn code_bits(codes: Map<u8, Seq<bool>>, s: Seq<u8>) -> Seq<bool>
    decreases s.len(),
{
    if s.len() == 0 {
        Seq::<bool>::empty()
    } else {
        codes[s[0]] + code_bits(codes, s.drop_first())
    }
}

pub proof fn lemma_code_bits_push(codes: Map<u8, Seq<bool>>, s: Seq<u8>, x: u8)
    ensures
        code_bits(codes, s.push(x)) == code_bits(codes, s) + codes[x],
    decreases s.len(),
{
    if s.len() == 0 {
        assert(s.push(x).drop_first() =~= s);
        assert(codes[x] + Seq::<bool>::empty() =~= codes[x]);
        assert(Seq::<bool>::empty() + codes[x] =~= codes[x]);
    } else {
        lemma_code_bits_push(codes, s.drop_first(), x);
        assert(s.push(x).drop_first() =~= s.drop_first().push(x));
        assert(s.push(x)[0] == s[0]);
        assert(codes[s[0]] + (code_bits(codes, s.drop_first()) + codes[x]) =~= (codes[s[0]] + code_bits(
            codes,
            s.drop_first(),
        )) + codes[x]);
    }
}

/// The counts `f[0..n]` as little-endian `u32`, one after the other.
pub open spec fn le_table(f: Seq<u32>, n: int) -> Seq<u8>
    decreases n,
{
    if n <= 0 {
        Seq::<u8>::empty()
    } else {
        le_table(f, n - 1) + le_bytes(f[n - 1])
    }
}

pub proof fn lemma_le_table(f: Seq<u32>, n: int)
    requires
        0 <= n <= f.len(),
    ensures
        le_table(f, n).len() == 4 * n,
        forall|i: int| 0 <= i < n ==> #[trigger] le_table(f, n).subrange(4 * i, 4 * i + 4) == le_bytes(f[i]),
    decreases n,
{
    if n > 0 {
        lemma_le_table(f, n - 1);
        let t = le_table(f, n);
        let p = le_table(f, n - 1);
        assert forall|i: int| 0 <= i < n implies #[trigger] t.subrange(4 * i, 4 * i + 4) == le_bytes(f[i]) by {
            if i < n - 1 {
                assert(t.subrange(4 * i, 4 * i + 4) =~= p.subrange(4 * i, 4 * i + 4));
            } else {
                assert(t.subrange(4 * i, 4 * i + 4) =~= le_bytes(f[i]));
            }
        }
    }
}

pub proof fn lemma_code_bits_len(codes: Map<u8, Seq<bool>>, s: Seq<u8>)
    requires
        forall|k: int| #![trigger s[k]] 0 <= k < s.len() ==> codes[s[k]].len() <= 255,
    ensures
        code_bits(codes, s).len() <= 255 * s.len(),
    decreases s.len(),
{
    if s.len() > 0 {
        let t = s.drop_first();
        assert forall|k: int| #![trigger t[k]] 0 <= k < t.len() implies codes[t[k]].len() <= 255 by {
            assert(t[k] == s[k + 1]);
        }
        lemma_code_bits_len(codes, t);
        assert(codes[s[0]].len() <= 255);
    }
}


/// The bit strings that a map of bit vectors holds.
pub open spec fn code_view(m: Map<u8, BitVec>) -> Map<u8, Seq<bool>> {
    Map::new(|k: u8| m.dom().contains(k), |k: u8| bits_of(m[k]))
}

pub proof fn lemma_code_view_insert(m: Map<u8, BitVec>, k: u8, v: BitVec)
    ensures
        code_view(m.insert(k, v)) == code_view(m).insert(k, bits_of(v)),
{
    assert(code_view(m.insert(k, v)) =~= code_view(m).insert(k, bits_of(v)));
}

/// The `u32` stored little-endian at `off` in `input`.
pub open spec fn u32_at(input: Seq<u8>, off: int) -> u32 {
    le_value(input.subrange(off, off + 4))
}

/// The 256 counts stored just before the final byte of a coded string.
pub open spec fn read_freqs(input: Seq<u8>) -> Seq<u32> {
    let base = input.len() - 1025;
    Seq::new(256, |i: int| u32_at(input, base + 4 * i))
}

/// The data bits of a coded string that ends in `trailer` bytes after its
/// data bytes: the bits of the data bytes without the unused bits of the
/// last one, which the final byte counts (0 for a full byte).
pub open spec fn data_bits(input: Seq<u8>, trailer: int) -> Seq<bool> {
    let n = input.len();
    let last = input[n - 1];
    let b = bytes_to_bits(input.subrange(0, n - trailer));
    if last == 0 || b.len() == 0 {
        b
    } else {
        b.take(b.len() - (8 - last))
    }
}

/// Counts the occurrences of each byte value in `input`.  A count past
/// `u32::MAX` would overflow, so the input is at most that long.
pub fn count_freqs(input: &[u8]) -> (r: [u32; 256])
    requires
        input@.len() <= u32::MAX,
    ensures
        r@ == freqs_of(input@),
{
    let mut freqs: [u32; 256] = [0; 256];
    assert(freqs@ =~= freqs_of(input@.take(0)));
    let mut i: usize = 0;
    while i < input.len()
        invariant
            i <= input@.len(),
            input@.len() <= u32::MAX,
            freqs@ == freqs_of(input@.take(i as int)),
        decreases input@.len() - i,
    {
        let b = input[i];
        proof {
            lemma_occurrences_le(input@.take(i as int), b);
            assert(input@.take(i as int + 1).drop_last() =~= input@.take(i as int));
        }
        freqs[b as usize] = freqs[b as usize] + 1;
        assert(freqs@ =~= freqs_of(input@.take(i as int + 1)));
        i += 1;
    }
    assert(input@.take(input@.len() as int) =~= input@);
    freqs
}

/// Appends the counts `freqs` as little-endian `u32`.
pub fn push_table(out: &mut Vec<u8>, freqs: &[u32])
    ensures
        final(out)@ == old(out)@ + le_table(freqs@, freqs@.len() as int),
{
    let ghost start = out@;
    let mut k: usize = 0;
    assert(start + le_table(freqs@, 0) =~= start);
    while k < freqs.len()
        invariant
            k <= freqs@.len(),
            out@ == start + le_table(freqs@, k as int),
        decreases freqs@.len() - k,
    {
        write_u32_le(out, freqs[k]);
        assert(start + le_table(freqs@, k as int + 1) =~= start + le_table(freqs@, k as int) + le_bytes(
            freqs@[k as int],
        ));
        k += 1;
    }
}

/// Reads the little-endian `u32` at `off`.
pub fn read_u32_at(input: &[u8], off: usize) -> (r: u32)
    requires
        off + 4 <= input@.len(),
    ensures
        r == u32_at(input@, off as int),
{
    let n = input.len();
    assert(off + 4 <= n);
    read_u32_le(vstd::slice::slice_subrange(input, off, off + 4))
}

/// Reads the 256 counts of a coded string of at least 1025 bytes.
pub fn read_table(input: &[u8]) -> (r: [u32; 256])
    requires
        input@.len() >= 1025,
    ensures
        r@ == read_freqs(input@),
{
    let n = input.len();
    let base = n - 1025;
    let mut freqs: [u32; 256] = [0; 256];
    let mut i: usize = 0;
    while i < 256
        invariant
            n == input@.len(),
            input@.len() >= 1025,
            base == input@.len() - 1025,
            i <= 256,
            freqs@.len() == 256,
            forall|j: int| 0 <= j < i ==> freqs@[j] == #[trigger] read_freqs(input@)[j],
        decreases 256 - i,
    {
        freqs[i] = read_u32_at(input, base + 4 * i);
        i += 1;
    }
    assert(freqs@ =~= read_freqs(input@));
    freqs
}

/// Unpacks the data bits of a coded string that ends in `trailer` bytes
/// after its data, dropping the unused bits of the last data byte.  A final
/// byte above 8 makes `8 - last` underflow, so it is at most 8.
pub fn read_data_bits(input: &[u8], trailer: usize) -> (r: BitVec)
    requires
        1 <= trailer <= input@.len(),
        input@[input@.len() - 1] <= 8,
        (input@.len() - trailer) * 8 <= usize::MAX,
    ensures
        bits_of(r) == data_bits(input@, trailer as int),
{
    let n = input.len();
    let mut bits = bv_from_bytes(vstd::slice::slice_subrange(input, 0, n - trailer));
    let ghost all_bits = bits_of(bits);
    let last = input[n - 1];
    if last > 0 {
        let mut k: u8 = 0;
        while k < 8 - last
            invariant
                last <= 8,
                k <= 8 - last,
                all_bits.len() % 8 == 0,
                bits_of(bits) == if all_bits.len() == 0 {
                    all_bits
                } else {
                    all_bits.take(all_bits.len() - k)
                },
            decreases 8 - last - k,
        {
            bv_pop(&mut bits);
            proof {
                if all_bits.len() > 0 {
                    assert(all_bits.take(all_bits.len() - k).drop_last() =~= all_bits.take(
                        all_bits.len() - (k + 1),
                    ));
                }
            }
            k += 1;
        }
    }
    bits
}

/// The coded string made of the bits `b`, the counts `f` and the number of
/// bits in the last data byte.
pub open spec fn frame(b: Seq<bool>, f: Seq<u32>) -> Seq<u8> {
    bits_to_bytes(b) + le_table(f, 256) + seq![(b.len() % 8) as u8]
}

/// The counts and the data bits of a frame read back as written.
pub proof fn lemma_frame(b: Seq<bool>, f: Seq<u32>)
    requires
        f.len() == 256,
    ensures
        frame(b, f).len() >= 1025,
        frame(b, f)[frame(b, f).len() - 1] < 8,
        (frame(b, f).len() - 1025) * 8 <= b.len() + 7,
        read_freqs(frame(b, f)) == f,
        data_bits(frame(b, f), 1025) == b,
{
    let data = bits_to_bytes(b);
    let table = le_table(f, 256);
    let enc = frame(b, f);
    lemma_le_table(f, 256);
    assert(enc.subrange(0, data.len() as int) =~= data);
    assert forall|i: int| 0 <= i < 256 implies #[trigger] read_freqs(enc)[i] == f[i] by {
        assert(enc.subrange(data.len() + 4 * i, data.len() + 4 * i + 4) =~= table.subrange(4 * i, 4 * i + 4));
        lemma_le_roundtrip(f[i]);
    }
    assert(read_freqs(enc) =~= f);
    lemma_bits_bytes_bits(b);
    let padded = pad_to_bytes(b);
    assert(data_bits(enc, 1025) =~= b) by {
        assert(bytes_to_bits(enc.subrange(0, enc.len() - 1025)) == padded);
        if b.len() % 8 != 0 {
            assert(padded.len() - (8 - b.len() % 8) == b.len());
            assert(padded.take(b.len() as int) =~= b);
        } else {
            assert(padded =~= b);
        }
    }
}

} // verus!
