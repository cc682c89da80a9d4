//! Arithmetic coding of byte strings with a static model.
//!
//! The model is the cumulative table of the symbol counts (scaled down when
//! the input is long).  The coder keeps a 32-bit interval `[lower, upper]`
//! that each symbol narrows to its share; whenever the interval lies in one
//! half the common top bit is written, and while it straddles the middle
//! narrowly an underflow bit is held back.  The coded form is the packed
//! bits, the 257 entries of the model and the input length as little-endian
//! `u32`, and the number of bits in the last data byte.
use crate::bits::{bits_of, bits_to_bytes, bv_get, bv_len, bv_new, bv_push, bv_to_bytes};
use crate::bits::{bytes_to_bits, lemma_bits_bytes_bits, pad_to_bytes};
use crate::frame::{
    count_freqs, data_bits, freq_total, freqs_of, le_table, lemma_freq_total_mono, lemma_freq_total_nonneg,
    lemma_freqs_total, lemma_le_table,
    lemma_occurrences_le, lemma_occurs, push_table, read_data_bits, read_u32_at, u32_at,
};
use crate::le::{le_bytes, lemma_le_roundtrip, write_u32_le};
use bit_vec::BitVec;
use vstd::arithmetic::power2::{lemma2_to64, lemma_pow2_adds, lemma_pow2_pos, lemma_pow2_unfold, pow2};
use vstd::prelude::*;

verus! {

/// The top bit of the 32-bit interval bounds.
pub const MASK_0: u32 = 0x8000_0000;

/// The bit below the top bit.
pub const MASK_1: u32 = 0x4000_0000;

/// The total count that the model keeps to (for inputs shorter than this).
pub const MAX_PROB: u32 = 0x4000_0000;

// ---------------------------------------------------------------------------
// Renormalisation
// ---------------------------------------------------------------------------

/// One pass of the renormalisation of the interval `[l, u]`, with `uf`
/// held-back bits and the bits `out` written: when both bounds share their
/// top bit it is written, then the held-back bits inverted; when the
/// interval straddles the middle within its two inner quarters an underflow
/// bit is held back; then both bounds shift left (the upper one taking a 1).
/// `None` when neither holds and renormalisation stops.
pub open spec fn renorm_step(u: u32, l: u32, uf: nat, out: Seq<bool>) -> Option<(u32, u32, nat, Seq<bool>)> {
    if u & MASK_0 == l & MASK_0 {
        let b = u & MASK_0 != 0;
        Some(((u << 1u32) | 1u32, l << 1u32, 0nat, out.push(b) + Seq::new(uf, |i: int| !b)))
    } else if l & MASK_1 != 0 && u & MASK_0 == 0 {
        Some((((u | MASK_1) << 1u32) | 1u32, (l & !(MASK_0 | MASK_1)) << 1u32, uf + 1, out))
    } else {
        None
    }
}

/// Renormalisation passes until one stops it, at most `fuel` of them;
/// `None` when the held-back count would pass `i32::MAX` (or the passes run
/// out, which 33 never do).
pub open spec fn renormalize(u: u32, l: u32, uf: nat, out: Seq<bool>, fuel: nat) -> Option<
    (u32, u32, nat, Seq<bool>),
>
    decreases fuel,
{
    if fuel == 0 {
        None
    } else {
        match renorm_step(u, l, uf, out) {
            None => Some((u, l, uf, out)),
            Some((u2, l2, uf2, out2)) => if uf2 > i32::MAX {
                None
            } else {
                renormalize(u2, l2, uf2, out2, (fuel - 1) as nat)
            },
        }
    }
}

/// The mask of the low `k` bits.
pub open spec fn low_mask(k: u64) -> u64 {
    ((1u64 << k) - 1u64) as u64
}

/// Whether the low `k` bits of `l` are clear and those of `u` set.
pub open spec fn low_bits(u: u32, l: u32, k: u64) -> bool {
    &&& (l as u64) & low_mask(k) == 0u64
    &&& (u as u64) & low_mask(k) == low_mask(k)
}

/// Each pass clears one more low bit of the lower bound and sets one more of
/// the upper bound.
proof fn lemma_renorm_low_bits(u: u32, l: u32, k: u64)
    by (bit_vector)
    requires
        k < 32,
        (l as u64) & low_mask(k) == 0u64,
        (u as u64) & low_mask(k) == low_mask(k),
    ensures
        ((l << 1u32) as u64) & low_mask((k + 1) as u64) == 0u64,
        (((u << 1u32) | 1u32) as u64) & low_mask((k + 1) as u64) == low_mask((k + 1) as u64),
        (((l & !(0x8000_0000u32 | 0x4000_0000u32)) << 1u32) as u64) & low_mask((k + 1) as u64) == 0u64,
        ((((u | 0x4000_0000u32) << 1u32) | 1u32) as u64) & low_mask((k + 1) as u64) == low_mask(
            (k + 1) as u64,
        ),
{
}

/// After 32 passes the bounds are 0 and `u32::MAX`, where renormalisation
/// stops.
proof fn lemma_renorm_stops(u: u32, l: u32)
    by (bit_vector)
    requires
        (l as u64) & low_mask(32u64) == 0u64,
        (u as u64) & low_mask(32u64) == low_mask(32u64),
    ensures
        u & 0x8000_0000u32 != l & 0x8000_0000u32,
        l & 0x4000_0000u32 == 0,
{
}

proof fn lemma_low_bits_zero(u: u32, l: u32)
    by (bit_vector)
    ensures
        (l as u64) & low_mask(0u64) == 0u64,
        (u as u64) & low_mask(0u64) == low_mask(0u64),
{
}

/// Renormalises the interval `[lower, upper]`, writing to `output` the bits
/// it settles (see `renorm_step`).  Returns `false` when the held-back
/// count would pass `i32::MAX`, where the coder cannot go on.
fn write_bits(output: &mut BitVec, underflow_bits: &mut i32, upper: &mut u32, lower: &mut u32) -> (ok: bool)
    requires
        *old(underflow_bits) >= 0,
        bits_of(*old(output)).len() + *old(underflow_bits) + 33 <= usize::MAX,
    ensures
        ok == renormalize(*old(upper), *old(lower), *old(underflow_bits) as nat, bits_of(*old(output)), 33) is Some,
        ok ==> renormalize(*old(upper), *old(lower), *old(underflow_bits) as nat, bits_of(*old(output)), 33)
            == Some((*final(upper), *final(lower), *final(underflow_bits) as nat, bits_of(*final(output)))),
        *final(underflow_bits) >= 0,
        bits_of(*final(output)).len() + *final(underflow_bits) <= bits_of(*old(output)).len()
            + *old(underflow_bits) + 32,
{
    let ghost target = renormalize(*upper, *lower, *underflow_bits as nat, bits_of(*output), 33);
    let ghost start = bits_of(*output).len() + *underflow_bits;
    let ghost mut k: u64 = 0;
    proof {
        lemma_low_bits_zero(*upper, *lower);
    }
    loop
        invariant
            k <= 32,
            low_bits(*upper, *lower, k),
            *underflow_bits >= 0,
            target == renormalize(*old(upper), *old(lower), *old(underflow_bits) as nat, bits_of(*old(output)), 33),
            start == bits_of(*old(output)).len() + *old(underflow_bits),
            renormalize(*upper, *lower, *underflow_bits as nat, bits_of(*output), (33 - k) as nat) == target,
            bits_of(*output).len() + *underflow_bits == start + k,
            start + 33 <= usize::MAX,
        ensures
            target == Some((*upper, *lower, *underflow_bits as nat, bits_of(*output))),
            *underflow_bits >= 0,
            bits_of(*output).len() + *underflow_bits <= start + 32,
        decreases 32 - k,
    {
        proof {
            if k == 32 {
                lemma_renorm_stops(*upper, *lower);
            }
        }
        let ghost u0 = *upper;
        let ghost l0 = *lower;
        if *upper & MASK_0 == *lower & MASK_0 {
            let b = *upper & MASK_0 != 0;
            let ghost before = bits_of(*output);
            let ghost pending = *underflow_bits as nat;
            bv_push(output, b);
            while *underflow_bits > 0
                invariant
                    0 <= *underflow_bits <= pending,
                    b == (*upper & MASK_0 != 0),
                    bits_of(*output) == before.push(b) + Seq::new((pending - *underflow_bits) as nat, |i: int| !b),
                    before.len() + pending + 1 <= usize::MAX,
                decreases *underflow_bits,
            {
                bv_push(output, *upper & MASK_0 == 0);
                *underflow_bits -= 1;
                assert(before.push(b) + Seq::new((pending - *underflow_bits) as nat, |i: int| !b) =~= (before.push(b)
                    + Seq::new((pending - *underflow_bits - 1) as nat, |i: int| !b)).push(!b));
            }
        } else if (*lower & MASK_1 != 0) && (*upper & MASK_0 == 0) {
            if *underflow_bits == i32::MAX {
                return false;
            }
            *underflow_bits += 1;
            *lower &= !(MASK_0 | MASK_1);
            *upper |= MASK_1;
        } else {
            break;
        }
        *lower <<= 1;
        *upper <<= 1;
        *upper |= 1;
        proof {
            lemma_renorm_low_bits(u0, l0, k);
            k = (k + 1) as u64;
        }
    }
    true
}

// ---------------------------------------------------------------------------
// The model
// ---------------------------------------------------------------------------

/// The counts scaled down for an input of `len` bytes: unchanged below
/// `MAX_PROB`, else each nonzero count divided by `len / MAX_PROB + 1` and
/// kept at least 1.
pub open spec fn scaled(freqs: Seq<u32>, len: nat) -> Seq<u32> {
    if len < MAX_PROB {
        freqs
    } else {
        let r = ((len as u32) / MAX_PROB + 1) as u32;
        Seq::new(
            freqs.len(),
            |i: int|
                if freqs[i] == 0 {
                    0u32
                } else if freqs[i] / r >= 1 {
                    (freqs[i] / r) as u32
                } else {
                    1u32
                },
        )
    }
}

/// Scales the counts down for long inputs (see `scaled`).
fn scale_freqs(input: &[u8], freqs: &mut [u32; 256])
    ensures
        final(freqs)@ == scaled(old(freqs)@, input@.len()),
{
    if input.len() < MAX_PROB as usize {
        return ;
    }
    #[verifier::truncate]
    let rescale = (input.len() as u32) / MAX_PROB + 1;
    let ghost f0 = freqs@;
    let mut i: usize = 0;
    while i < 256
        invariant
            i <= 256,
            f0.len() == 256,
            input@.len() >= MAX_PROB,
            rescale == ((input@.len() as u32) / MAX_PROB + 1) as u32,
            freqs@.len() == 256,
            forall|j: int| 0 <= j < i ==> freqs@[j] == #[trigger] scaled(f0, input@.len())[j],
            forall|j: int| i <= j < 256 ==> freqs@[j] == #[trigger] f0[j],
        decreases 256 - i,
    {
        if freqs[i] != 0 {
            let q = freqs[i] / rescale;
            freqs[i] = if q >= 1 {
                q
            } else {
                1
            };
        }
        i += 1;
    }
    assert(freqs@ =~= scaled(f0, input@.len()));
}

/// The cumulative table of the counts: entry `i` is the sum of the counts
/// below symbol `i`, entry 256 their total.
pub open spec fn model_of(freqs: Seq<u32>) -> Seq<u32> {
    Seq::new(257, |i: int| freq_total(freqs, i) as u32)
}

/// Builds the cumulative table; the sums are `u32`, so the total must fit.
fn model(freqs: &[u32; 256]) -> (r: [u32; 257])
    requires
        freq_total(freqs@, 256) <= u32::MAX,
    ensures
        r@ == model_of(freqs@),
{
    let mut m: [u32; 257] = [0; 257];
    m[0] = 0;
    let mut i: usize = 0;
    while i < 256
        invariant
            i <= 256,
            freqs@.len() == 256,
            m@.len() == 257,
            freq_total(freqs@, 256) <= u32::MAX,
            forall|j: int| 0 <= j <= i ==> m@[j] == #[trigger] freq_total(freqs@, j),
        decreases 256 - i,
    {
        proof {
            lemma_freq_total_mono(freqs@, i as int + 1, 256);
            assert(freq_total(freqs@, i as int + 1) == freq_total(freqs@, i as int) + freqs@[i as int]);
        }
        m[i + 1] = m[i] + freqs[i];
        i += 1;
    }
    assert(m@ =~= model_of(freqs@));
    m
}

/// Scaling does not raise a count, so the total stays at most the length.
proof fn lemma_scaled_total(freqs: Seq<u32>, len: nat, n: int)
    requires
        0 <= n <= freqs.len(),
    ensures
        freq_total(scaled(freqs, len), n) <= freq_total(freqs, n),
    decreases n,
{
    if n > 0 {
        lemma_scaled_total(freqs, len, n - 1);
        if len >= MAX_PROB {
            let r = ((len as u32) / MAX_PROB + 1) as u32;
            let x = freqs[n - 1];
            assert(r >= 1);
            assert(x / r <= x) by (nonlinear_arith)
                requires
                    r >= 1,
            ;
        }
    }
}

/// The model of the input's counts, scaled down for long inputs.
pub open spec fn ar_model(input: Seq<u8>) -> Seq<u32> {
    model_of(scaled(freqs_of(input), input.len()))
}

// ---------------------------------------------------------------------------
// Coding
// ---------------------------------------------------------------------------

/// The interval `[l, u]` narrowed to the share `[lo_c, hi_c)` of `sum`:
/// `u` becomes `l + range * hi_c / sum - 1` and `l` becomes
/// `l + range * lo_c / sum` (the quotients cut to `u32`).  `None` where the
/// step cannot be taken: `u < l`, `sum == 0`, or a bound leaving `u32`.
pub open spec fn narrow(u: u32, l: u32, lo_c: u32, hi_c: u32, sum: u32) -> Option<(u32, u32)> {
    if u < l || sum == 0 {
        None
    } else {
        let range = u - l + 1;
        let a = (range * hi_c / (sum as int)) as u32;
        let b = (range * lo_c / (sum as int)) as u32;
        if l + a == 0 || l + a > u32::MAX || l + b > u32::MAX {
            None
        } else {
            Some(((l + a - 1) as u32, (l + b) as u32))
        }
    }
}

/// The coder state after the first `n` symbols of `input` with the model
/// `m`: upper bound, lower bound, held-back bits and bits written.  `None`
/// where a step cannot be taken.
pub open spec fn coder_run(input: Seq<u8>, m: Seq<u32>, n: int) -> Option<(u32, u32, nat, Seq<bool>)>
    decreases n,
{
    if n <= 0 {
        Some((0xFFFF_FFFFu32, 0u32, 0nat, Seq::<bool>::empty()))
    } else {
        match coder_run(input, m, n - 1) {
            None => None,
            Some((u, l, uf, out)) => {
                let s = input[n - 1] as int;
                match narrow(u, l, m[s], m[s + 1], m[256]) {
                    None => None,
                    Some((u2, l2)) => renormalize(u2, l2, uf, out, 33),
                }
            },
        }
    }
}

/// The bits of a coder state when the input ends: the bit below the top of
/// the lower bound, then the held-back bits and one more, inverted.
pub open spec fn finish(l: u32, uf: nat, out: Seq<bool>) -> Seq<bool> {
    out.push(l & MASK_1 != 0) + Seq::new(uf + 1, |i: int| l & MASK_1 == 0)
}

/// The bits that `encode` writes for `input`.
pub open spec fn ar_bits(input: Seq<u8>) -> Seq<bool> {
    let (u, l, uf, out) = coder_run(input, ar_model(input), input.len() as int)->0;
    finish(l, uf, out)
}

/// What `encode` returns: the packed bits, the model, the input length, and
/// the number of bits in the last data byte (0 for a full one).
pub open spec fn spec_encode(input: Seq<u8>) -> Seq<u8> {
    let b = ar_bits(input);
    bits_to_bytes(b) + le_table(ar_model(input), 257) + le_bytes(input.len() as u32) + seq![(b.len() % 8) as u8]
}

/// The inputs that `encode` codes: at most `u32::MAX` bytes, no coder step
/// that leaves `u32` or lets the held-back count pass `i32::MAX`, and bits
/// that fit in a `usize`.
pub open spec fn encode_ok(input: Seq<u8>) -> bool {
    &&& input.len() <= u32::MAX
    &&& input.len() * 32 + 64 <= usize::MAX
    &&& match coder_run(input, ar_model(input), input.len() as int) {
        Some((_, _, uf, _)) => uf < i32::MAX,
        None => false,
    }
}

/// Codes `input` arithmetically with the model of its counts; `None` outside
/// `encode_ok`.
pub fn try_encode(input: &[u8]) -> (r: Option<Vec<u8>>)
    ensures
        match r {
            Some(v) => encode_ok(input@) && v@ == spec_encode(input@),
            None => !encode_ok(input@),
        },
{
    if input.len() > u32::MAX as usize || input.len() > (usize::MAX - 64) / 32 {
        return None;
    }
    let mut counts = count_freqs(input);
    let ghost raw = counts@;
    scale_freqs(input, &mut counts);
    proof {
        lemma_freqs_total(input@);
        lemma_scaled_total(raw, input@.len(), 256);
    }
    let freqs = model(&counts);
    let ghost m = freqs@;
    assert(m == ar_model(input@));
    let mut output = bv_new();
    let sum = freqs[256] as u64;
    let mut lower: u32 = 0;
    let mut upper: u32 = 0xFFFF_FFFF;
    let mut underflow_bits: i32 = 0;
    let mut i: usize = 0;
    while i < input.len()
        invariant
            i <= input@.len(),
            input@.len() <= u32::MAX,
            input@.len() * 32 + 64 <= usize::MAX,
            m == ar_model(input@),
            m == freqs@,
            m.len() == 257,
            sum == m[256],
            underflow_bits >= 0,
            coder_run(input@, m, i as int) == Some((upper, lower, underflow_bits as nat, bits_of(output))),
            bits_of(output).len() + underflow_bits <= 32 * i,
        decreases input@.len() - i,
    {
        let s = input[i] as usize;
        proof {
            if coder_run(input@, m, i as int + 1) is Some {
                assert(narrow(upper, lower, m[s as int], m[s + 1], m[256]) is Some);
            }
        }
        if upper < lower || sum == 0 {
            proof {
                lemma_run_stops(input@, m, i as int + 1, input@.len() as int);
            }
            return None;
        }
        let range: u64 = upper as u64 - lower as u64 + 1;
        assert(range * (m[s + 1] as u64) <= 0xFFFF_FFFF_FFFF_FFFFu64) by (nonlinear_arith)
            requires
                range <= 0x1_0000_0000u64,
        ;
        assert(range * (m[s as int] as u64) <= 0xFFFF_FFFF_FFFF_FFFFu64) by (nonlinear_arith)
            requires
                range <= 0x1_0000_0000u64,
        ;
        #[verifier::truncate]
        let a = (range * freqs[s + 1] as u64 / sum) as u32;
        #[verifier::truncate]
        let b = (range * freqs[s] as u64 / sum) as u32;
        if lower as u64 + a as u64 == 0 || lower as u64 + a as u64 > u32::MAX as u64 || lower as u64 + b as u64
            > u32::MAX as u64 {
            proof {
                lemma_run_stops(input@, m, i as int + 1, input@.len() as int);
            }
            return None;
        }
        upper = lower + a - 1;
        lower = lower + b;
        if !write_bits(&mut output, &mut underflow_bits, &mut upper, &mut lower) {
            proof {
                lemma_run_stops(input@, m, i as int + 1, input@.len() as int);
            }
            return None;
        }
        i += 1;
    }
    if underflow_bits == i32::MAX {
        return None;
    }
    let ghost out0 = bits_of(output);
    let ghost uf0 = underflow_bits as nat;
    let flag = lower & MASK_1 != 0;
    bv_push(&mut output, flag);
    let count = underflow_bits + 1;
    let mut k: i32 = 0;
    while k < count
        invariant
            0 <= k <= count,
            count == uf0 + 1,
            out0.len() + uf0 + 2 <= usize::MAX,
            flag == (lower & MASK_1 != 0),
            bits_of(output) == out0.push(flag) + Seq::new(k as nat, |j: int| !flag),
        decreases count - k,
    {
        bv_push(&mut output, lower & MASK_1 == 0);
        assert(out0.push(flag) + Seq::new((k + 1) as nat, |j: int| !flag) =~= (out0.push(flag) + Seq::new(
            k as nat,
            |j: int| !flag,
        )).push(!flag));
        k += 1;
    }
    assert(bits_of(output) =~= ar_bits(input@));
    let free_bits = bv_len(&output) % 8;
    let mut bytes = bv_to_bytes(&output);
    push_table(&mut bytes, &freqs);
    write_u32_le(&mut bytes, input.len() as u32);
    bytes.push(free_bits as u8);
    Some(bytes)
}

/// A run that stops at `i` symbols stops for good.
proof fn lemma_run_stops(input: Seq<u8>, m: Seq<u32>, i: int, n: int)
    requires
        0 <= i <= n,
        coder_run(input, m, i) is None,
    ensures
        coder_run(input, m, n) is None,
    decreases n - i,
{
    if i < n {
        lemma_run_stops(input, m, i, n - 1);
    }
}

/// Codes `input` arithmetically with the model of its counts.  Outside
/// `encode_ok` a coder step leaves its integer type, so the input must lie
/// inside it.
pub fn encode(input: &[u8]) -> (r: Vec<u8>)
    requires
        encode_ok(input@),
    ensures
        r@ == spec_encode(input@),
{
    try_encode(input).unwrap()
}

// ---------------------------------------------------------------------------
// Decoding
// ---------------------------------------------------------------------------

/// The model stored in a coded string of at least 1033 bytes.
pub open spec fn read_model(input: Seq<u8>) -> Seq<u32> {
    let base = input.len() - 1033;
    Seq::new(257, |i: int| u32_at(input, base + 4 * i))
}

/// The number of symbols stored in a coded string of at least 1033 bytes.
pub open spec fn read_len(input: Seq<u8>) -> u32 {
    u32_at(input, input.len() - 5)
}

/// The code value for the bounds `[l, u]` scaled to the model's total:
/// `((code - l + 1) * sum - 1) / (u - l + 1)`, cut to `u32`.  `None` where
/// it cannot be formed: `u < l`, `code < l`, or `sum == 0`.
pub open spec fn unscaled_value(u: u32, l: u32, code: u32, sum: u32) -> Option<u32> {
    if u < l || code < l || sum == 0 {
        None
    } else {
        Some((((code - l + 1) * sum - 1) / (u - l + 1)) as u32)
    }
}

fn unscaled(upper: u32, lower: u32, code: u32, sum: u64) -> (r: u32)
    requires
        sum <= u32::MAX,
        unscaled_value(upper, lower, code, sum as u32) is Some,
    ensures
        unscaled_value(upper, lower, code, sum as u32) == Some(r),
{
    let range: u64 = upper as u64 - lower as u64 + 1;
    let mut unscaled: u64 = code as u64 - lower as u64 + 1;
    assert(unscaled * sum <= 0xFFFF_FFFF_FFFF_FFFFu64) by (nonlinear_arith)
        requires
            unscaled <= 0x1_0000_0000u64,
            sum <= 0xFFFF_FFFFu64,
    ;
    assert(unscaled * sum >= 1) by (nonlinear_arith)
        requires
            unscaled >= 1,
            sum >= 1,
    ;
    unscaled = unscaled * sum;
    unscaled = unscaled - 1;
    #[verifier::truncate]
    let r = (unscaled / range) as u32;
    r
}

/// The binary search for the symbol whose share `[m[v], m[v + 1])` holds
/// `x`, over the symbols `first..=last`, looking at `middle`: below its
/// share the search goes left, at or above it right.  `None` where a bound
/// would leave `u8`.
pub open spec fn search(m: Seq<u32>, x: u32, first: int, last: int, middle: int) -> Option<u8>
    decreases last - first,
    when 0 <= first <= middle <= last <= 255
{
    if x < m[middle] {
        if middle == 0 || middle - 1 < first {
            None
        } else {
            search(m, x, first, middle - 1, first + (middle - 1 - first) / 2)
        }
    } else if x >= m[middle + 1] {
        if middle == 255 || last < middle + 1 {
            None
        } else {
            search(m, x, middle + 1, last, middle + 1 + (last - middle - 1) / 2)
        }
    } else {
        Some(middle as u8)
    }
}

/// The bounds shifted left (the upper one taking a 1) and the next data bit,
/// if any, shifted into the code value.
pub open spec fn shift_in(u: u32, l: u32, c: u32, pos: int, bits: Seq<bool>) -> (u32, u32, u32, int) {
    let c1 = c << 1u32;
    if 0 <= pos < bits.len() {
        ((u << 1u32) | 1u32, l << 1u32, if bits[pos] { c1 | 1u32 } else { c1 }, pos + 1)
    } else {
        ((u << 1u32) | 1u32, l << 1u32, c1, pos)
    }
}

/// One pass of the decoder's renormalisation, as the coder's (the code
/// value follows the bounds, with the bit below the top flipped on an
/// underflow); `None` when it stops.
pub open spec fn read_step(u: u32, l: u32, c: u32, pos: int, bits: Seq<bool>) -> Option<(u32, u32, u32, int)> {
    if u & MASK_0 == l & MASK_0 {
        Some(shift_in(u, l, c, pos, bits))
    } else if l & MASK_1 != 0 && u & MASK_0 == 0 {
        Some(shift_in(u | MASK_1, l & !(MASK_0 | MASK_1), c ^ MASK_1, pos, bits))
    } else {
        None
    }
}

/// The decoder's renormalisation passes, at most `fuel` of them.
pub open spec fn read_renorm(u: u32, l: u32, c: u32, pos: int, bits: Seq<bool>, fuel: nat) -> (u32, u32, u32, int)
    decreases fuel,
{
    if fuel == 0 {
        (u, l, c, pos)
    } else {
        match read_step(u, l, c, pos, bits) {
            None => (u, l, c, pos),
            Some((u2, l2, c2, p2)) => read_renorm(u2, l2, c2, p2, bits, (fuel - 1) as nat),
        }
    }
}

/// The number of bits read into the first code value: 32, or the bit count
/// (cut to `u32`) when that is smaller.
pub open spec fn first_bits(bits: Seq<bool>) -> u32 {
    if (bits.len() as u32) < 32 {
        bits.len() as u32
    } else {
        32u32
    }
}

/// The code value after reading the first `k` bits, most significant first.
pub open spec fn code_prefix(bits: Seq<bool>, k: int) -> u32
    decreases k,
{
    if k <= 0 {
        0u32
    } else {
        let c = code_prefix(bits, k - 1) << 1u32;
        if bits[k - 1] {
            c | 1u32
        } else {
            c
        }
    }
}

/// The first code value: the first bits, moved to the top when fewer than 32.
pub open spec fn first_code(bits: Seq<bool>) -> u32 {
    let c = code_prefix(bits, first_bits(bits) as int);
    if bits.len() < 32 {
        c << ((32 - bits.len()) as u32)
    } else {
        c
    }
}

/// The decoder after `n` symbols: the symbols, the bounds, the code value and
/// the next bit to read; `None` where a step cannot be taken.
pub open spec fn dec_run(m: Seq<u32>, bits: Seq<bool>, n: int) -> Option<(Seq<u8>, u32, u32, u32, int)>
    decreases n,
{
    if n <= 0 {
        Some((Seq::<u8>::empty(), 0xFFFF_FFFFu32, 0u32, first_code(bits), first_bits(bits) as int))
    } else {
        match dec_run(m, bits, n - 1) {
            None => None,
            Some((out, u, l, c, p)) => match unscaled_value(u, l, c, m[256]) {
                None => None,
                Some(x) => match search(m, x, 0, 255, 127) {
                    None => None,
                    Some(v) => match narrow(u, l, m[v as int], m[v + 1], m[256]) {
                        None => None,
                        Some((u2, l2)) => {
                            let (u3, l3, c3, p3) = read_renorm(u2, l2, c, p, bits, 33);
                            Some((out.push(v), u3, l3, c3, p3))
                        },
                    },
                },
            },
        }
    }
}

/// What `decode` returns: `None` for fewer than 1033 bytes, else the stored
/// number of symbols read with the stored model.
pub open spec fn spec_decode(input: Seq<u8>) -> Option<Seq<u8>> {
    if input.len() < 1033 {
        None
    } else {
        match dec_run(read_model(input), data_bits(input, 1033), read_len(input) as int) {
            Some((out, _, _, _, _)) => Some(out),
            None => None,
        }
    }
}

/// The inputs that `decode` works on: too short to hold the model, or with a
/// final byte of at most 8, at least one data bit (the first code value is
/// shifted by 32 minus the bit count), and decoder steps that can all be
/// taken.
pub open spec fn decode_ok(input: Seq<u8>) -> bool {
    input.len() < 1033 || {
        &&& input[input.len() - 1] <= 8
        &&& (input.len() - 1033) * 8 <= usize::MAX
        &&& data_bits(input, 1033).len() >= 1
        &&& dec_run(read_model(input), data_bits(input, 1033), read_len(input) as int) is Some
    }
}

/// Decodes what `encode` wrote (`Some(None)` when the input is shorter than
/// the model); `None` outside `decode_ok`.
pub fn try_decode(input: &[u8]) -> (r: Option<Option<Vec<u8>>>)
    ensures
        match r {
            Some(d) => decode_ok(input@) && match d {
                Some(v) => spec_decode(input@) == Some(v@),
                None => spec_decode(input@) is None,
            },
            None => !decode_ok(input@),
        },
{
    if input.len() < 258 * 4 + 1 {
        return Some(None);
    }
    let n = input.len();
    if input[n - 1] > 8 || n - 1033 > usize::MAX / 8 {
        return None;
    }
    let bits = read_data_bits(input, 1033);
    if bv_len(&bits) == 0 {
        return None;
    }
    let base = n - 1033;
    let mut freqs: [u32; 257] = [0; 257];
    let mut k: usize = 0;
    while k < 257
        invariant
            n == input@.len(),
            n >= 1033,
            base == n - 1033,
            k <= 257,
            freqs@.len() == 257,
            forall|j: int| 0 <= j < k ==> freqs@[j] == #[trigger] read_model(input@)[j],
        decreases 257 - k,
    {
        freqs[k] = read_u32_at(input, base + 4 * k);
        k += 1;
    }
    assert(freqs@ =~= read_model(input@));
    let len = read_u32_at(input, base + 1028);
    let sum = freqs[256] as u64;
    let ghost m = freqs@;
    let ghost db = bits_of(bits);
    let nbits = bv_len(&bits);
    let mut i: usize = 0;
    let mut code: u32 = 0;
    #[verifier::truncate]
    let nb32 = nbits as u32;
    let cap: u32 = if nb32 < 32 {
        nb32
    } else {
        32
    };
    assert(cap == first_bits(db));
    let mut t: u32 = 0;
    while t < cap
        invariant
            cap == first_bits(db),
            cap <= 32,
            cap <= nbits,
            nbits == db.len(),
            db == bits_of(bits),
            t <= cap,
            i == t,
            code == code_prefix(db, t as int),
        decreases cap - t,
    {
        code = code << 1;
        if bv_get(&bits, i).unwrap() {
            code = code | 1;
        }
        i += 1;
        t += 1;
    }
    if nbits < 32 {
        code = code << ((32 - nbits) as u32);
    }
    assert(code == first_code(db));
    let mut output: Vec<u8> = Vec::new();
    let mut lower: u32 = 0;
    let mut upper: u32 = 0xFFFF_FFFF;
    let mut s: u32 = 0;
    while s < len
        invariant
            m == freqs@,
            m.len() == 257,
            m == read_model(input@),
            db == bits_of(bits),
            db == data_bits(input@, 1033),
            nbits == db.len(),
            len == read_len(input@),
            sum == m[256],
            s <= len,
            i <= nbits,
            nbits >= 1,
            input@.len() >= 1033,
            input@[input@.len() - 1] <= 8,
            (input@.len() - 1033) * 8 <= usize::MAX,
            dec_run(m, db, s as int) == Some((output@, upper, lower, code, i as int)),
        decreases len - s,
    {
        if upper < lower || code < lower || sum == 0 {
            proof {
                lemma_dec_stops(m, db, s as int + 1, len as int);
            }
            return None;
        }
        let unscl = unscaled(upper, lower, code, sum);
        let ghost x = unscl;
        let mut first: u8 = 0;
        let mut last: u8 = 255;
        let mut middle: u8 = last / 2;
        loop
            invariant
                m == freqs@,
                m.len() == 257,
                x == unscl,
                first <= middle <= last,
                search(m, x, first as int, last as int, middle as int) == search(m, x, 0, 255, 127),
                dec_run(m, db, s as int) == Some((output@, upper, lower, code, i as int)),
                unscaled_value(upper, lower, code, m[256]) == Some(x),
                s < len,
                m == read_model(input@),
                db == data_bits(input@, 1033),
                len == read_len(input@),
                nbits == db.len(),
                nbits >= 1,
                input@.len() >= 1033,
                input@[input@.len() - 1] <= 8,
                (input@.len() - 1033) * 8 <= usize::MAX,
            ensures
                search(m, x, 0, 255, 127) == Some(middle),
            decreases last - first,
        {
            if unscl < freqs[middle as usize] {
                if middle == 0 || middle - 1 < first {
                    proof {
                        lemma_dec_stops(m, db, s as int + 1, len as int);
                    }
                    return None;
                }
                last = middle - 1;
                middle = first + (last - first) / 2;
            } else if unscl >= freqs[middle as usize + 1] {
                if middle == 255 || last < middle + 1 {
                    proof {
                        lemma_dec_stops(m, db, s as int + 1, len as int);
                    }
                    return None;
                }
                first = middle + 1;
                middle = first + (last - first) / 2;
            } else {
                break;
            }
        }
        let val = middle;
        output.push(val);
        let range: u64 = upper as u64 - lower as u64 + 1;
        assert(range * (m[val + 1] as u64) <= 0xFFFF_FFFF_FFFF_FFFFu64) by (nonlinear_arith)
            requires
                range <= 0x1_0000_0000u64,
        ;
        assert(range * (m[val as int] as u64) <= 0xFFFF_FFFF_FFFF_FFFFu64) by (nonlinear_arith)
            requires
                range <= 0x1_0000_0000u64,
        ;
        #[verifier::truncate]
        let a = (range * freqs[val as usize + 1] as u64 / sum) as u32;
        #[verifier::truncate]
        let b = (range * freqs[val as usize] as u64 / sum) as u32;
        if lower as u64 + a as u64 == 0 || lower as u64 + a as u64 > u32::MAX as u64 || lower as u64 + b as u64
            > u32::MAX as u64 {
            proof {
                lemma_dec_stops(m, db, s as int + 1, len as int);
            }
            return None;
        }
        upper = lower + a - 1;
        lower = lower + b;
        let ghost target = read_renorm(upper, lower, code, i as int, db, 33);
        let ghost mut kk: u64 = 0;
        proof {
            lemma_low_bits_zero(upper, lower);
        }
        loop
            invariant
                kk <= 32,
                low_bits(upper, lower, kk),
                i <= nbits,
                nbits == db.len(),
                db == bits_of(bits),
                read_renorm(upper, lower, code, i as int, db, (33 - kk) as nat) == target,
            ensures
                target == (upper, lower, code, i as int),
                i <= nbits,
            decreases 32 - kk,
        {
            proof {
                if kk == 32 {
                    lemma_renorm_stops(upper, lower);
                }
            }
            let ghost u0 = upper;
            let ghost l0 = lower;
            if upper & MASK_0 == lower & MASK_0 {
            } else if (lower & MASK_1 != 0) && (upper & MASK_0 == 0) {
                lower &= !(MASK_0 | MASK_1);
                upper |= MASK_1;
                code ^= MASK_1;
            } else {
                break;
            }
            lower <<= 1;
            upper <<= 1;
            upper |= 1;
            code <<= 1;
            if i < nbits {
                if bv_get(&bits, i).unwrap() {
                    code |= 1;
                }
                i += 1;
            }
            proof {
                lemma_renorm_low_bits(u0, l0, kk);
                kk = (kk + 1) as u64;
            }
        }
        s += 1;
    }
    Some(Some(output))
}

/// A run that stops at `i` symbols stops for good.
proof fn lemma_dec_stops(m: Seq<u32>, bits: Seq<bool>, i: int, n: int)
    requires
        0 <= i <= n,
        dec_run(m, bits, i) is None,
    ensures
        dec_run(m, bits, n) is None,
    decreases n - i,
{
    if i < n {
        lemma_dec_stops(m, bits, i, n - 1);
    }
}

/// Decodes what `encode` wrote; `None` when the input is shorter than the
/// model.  Outside `decode_ok` a decoder step leaves its integer type, so
/// the input must lie inside it.
pub fn decode(input: &[u8]) -> (r: Option<Vec<u8>>)
    requires
        decode_ok(input@),
    ensures
        match r {
            Some(v) => spec_decode(input@) == Some(v@),
            None => spec_decode(input@) is None,
        },
{
    try_decode(input).unwrap()
}

// ---------------------------------------------------------------------------
// Decoding what was coded
// ---------------------------------------------------------------------------

/// Bit `i` of `b` as a number; 0 past the end.
pub open spec fn bit_val(b: Seq<bool>, i: int) -> int {
    if 0 <= i < b.len() && b[i] {
        1
    } else {
        0
    }
}

/// The value of the `k` bits of `b` from position `e` on, the first most
/// significant; bits past the end count as 0.
pub open spec fn win(b: Seq<bool>, e: int, k: nat) -> int
    decreases k,
{
    if k == 0 {
        0
    } else {
        2 * win(b, e, (k - 1) as nat) + bit_val(b, e + k - 1)
    }
}

proof fn lemma_win_bounds(b: Seq<bool>, e: int, k: nat)
    ensures
        0 <= win(b, e, k) < pow2(k),
    decreases k,
{
    if k > 0 {
        lemma_win_bounds(b, e, (k - 1) as nat);
        lemma_pow2_unfold(k);
    } else {
        lemma2_to64();
    }
}

/// The first of `k + 1` bits weighs `2^k`.
proof fn lemma_win_front(b: Seq<bool>, e: int, k: nat)
    ensures
        win(b, e, k + 1) == bit_val(b, e) * pow2(k) + win(b, e + 1, k),
    decreases k,
{
    if k == 0 {
        lemma2_to64();
        assert(win(b, e, 1) == 2 * win(b, e, 0) + bit_val(b, e));
        assert(win(b, e + 1, 0) == 0);
    } else {
        lemma_win_front(b, e, (k - 1) as nat);
        lemma_pow2_unfold(k);
        let p = pow2((k - 1) as nat);
        assert(win(b, e, k) == bit_val(b, e) * p + win(b, e + 1, (k - 1) as nat));
        let t = bit_val(b, e);
        assert(t * pow2(k) == 2 * (t * p)) by (nonlinear_arith)
            requires
                pow2(k) == 2 * p,
        ;
        assert(win(b, e, k + 1) == 2 * win(b, e, k) + bit_val(b, e + k));
        assert(win(b, e + 1, k) == 2 * win(b, e + 1, (k - 1) as nat) + bit_val(b, e + 1 + k - 1));
    }
}

/// Moving a 32-bit window one bit on.
proof fn lemma_win_shift(b: Seq<bool>, e: int)
    ensures
        win(b, e + 1, 32) == 2 * win(b, e, 32) + bit_val(b, e + 32) - 0x1_0000_0000 * bit_val(b, e),
        win(b, e, 32) >= 0x8000_0000 <==> bit_val(b, e) == 1,
{
    lemma_win_front(b, e, 32);
    lemma_win_front(b, e, 31);
    lemma_win_bounds(b, e + 1, 31);
    lemma2_to64();
    assert(win(b, e, 33) == 2 * win(b, e, 32) + bit_val(b, e + 32));
}

/// Bits past the end add zeros at the bottom of a window.
proof fn lemma_win_past_end(b: Seq<bool>, e: int, k: nat, j: nat)
    requires
        e + k >= b.len(),
    ensures
        win(b, e, k + j) == win(b, e, k) * pow2(j),
    decreases j,
{
    if j == 0 {
        lemma2_to64();
    } else {
        lemma_win_past_end(b, e, k, (j - 1) as nat);
        lemma_pow2_unfold(j);
        assert(win(b, e, k + j) == 2 * win(b, e, (k + j - 1) as nat) + bit_val(b, e + k + j - 1));
        let p = pow2((j - 1) as nat);
        let w = win(b, e, k);
        assert(w * pow2(j) == 2 * (w * p)) by (nonlinear_arith)
            requires
                pow2(j) == 2 * p,
        ;
    }
}

proof fn lemma_shl1(x: u32)
    by (bit_vector)
    ensures
        x & 0x8000_0000u32 == 0 ==> (x << 1u32) as u64 == 2 * (x as u64),
        x & 0x8000_0000u32 != 0 ==> (x << 1u32) as u64 + 0x1_0000_0000u64 == 2 * (x as u64),
        ((x << 1u32) | 1u32) as u64 == (x << 1u32) as u64 + 1,
        x & 0x8000_0000u32 != 0 <==> x >= 0x8000_0000u32,
        x & 0x8000_0000u32 == 0 || x & 0x8000_0000u32 == 0x8000_0000u32,
        x & 0x4000_0000u32 != 0 <==> (x % 0x8000_0000u32) >= 0x4000_0000u32,
{
}

/// Reading the first bits one by one gives their value.
proof fn lemma_code_prefix(b: Seq<bool>, k: int)
    requires
        0 <= k <= 32,
        k <= b.len(),
    ensures
        code_prefix(b, k) as int == win(b, 0, k as nat),
    decreases k,
{
    if k > 0 {
        lemma_code_prefix(b, k - 1);
        lemma_win_bounds(b, 0, (k - 1) as nat);
        lemma2_to64();
        if k - 1 < 31 {
            vstd::arithmetic::power2::lemma_pow2_strictly_increases((k - 1) as nat, 31);
        }
        let c = code_prefix(b, k - 1);
        lemma_shl1(c);
        assert(c < 0x8000_0000u32);
        assert(code_prefix(b, k) == if b[k - 1] { (c << 1u32) | 1u32 } else { c << 1u32 });

        assert(win(b, 0, k as nat) == 2 * win(b, 0, (k - 1) as nat) + bit_val(b, k - 1));
    }
}

/// The first code value is the first 32-bit window of the bits, when the
/// decoder reads `min(32, len)` bits first.
proof fn lemma_first_code(b: Seq<bool>)
    requires
        b.len() >= 1,
        first_bits(b) as int == if b.len() < 32 {
            b.len() as int
        } else {
            32
        },
    ensures
        first_code(b) as int == win(b, 0, 32),
{
    lemma2_to64();
    if b.len() >= 32 {
        lemma_code_prefix(b, 32);
    } else {
        let n = b.len() as int;
        lemma_code_prefix(b, n);
        let c = code_prefix(b, n);
        let sh = (32 - n) as u32;
        lemma_win_bounds(b, 0, n as nat);
        lemma_win_past_end(b, 0, n as nat, sh as nat);
        lemma_pow2_adds(n as nat, sh as nat);
        assert(c * pow2(sh as nat) < pow2(32)) by (nonlinear_arith)
            requires
                c < pow2(n as nat),
                pow2(sh as nat) > 0,
                pow2(32) == pow2(n as nat) * pow2(sh as nat),
        ;
        lemma_pow2_pos(sh as nat);
        vstd::bits::lemma_u32_shl_is_mul(c, sh);
    }
}

/// The next bit the decoder reads once the coder has written `n` bits: the
/// one after the 32-bit window at `n`, or the end.
pub open spec fn read_pos(n: int, len: int) -> int {
    if n + 32 <= len {
        n + 32
    } else {
        len
    }
}

/// The state that renormalisation from no held-back bits reaches.
pub open spec fn renormalized(u: u32, l: u32, out: Seq<bool>, fuel: nat) -> (u32, u32, nat, Seq<bool>) {
    renormalize(u, l, 0, out, fuel)->0
}

/// What renormalisation keeps from an ordered interval: no bit is held back,
/// the interval stays ordered, the written bits only grow, and it stops
/// with the bounds in different halves.
proof fn lemma_renorm_facts(u: u32, l: u32, out: Seq<bool>, fuel: nat)
    requires
        l <= u,
        renormalize(u, l, 0, out, fuel) is Some,
    ensures
        renormalized(u, l, out, fuel).2 == 0,
        renormalized(u, l, out, fuel).1 < 0x8000_0000,
        0x8000_0000 <= renormalized(u, l, out, fuel).0,
        out.is_prefix_of(renormalized(u, l, out, fuel).3),
    decreases fuel,
{
    lemma_shl1(u);
    lemma_shl1(l);
    match renorm_step(u, l, 0, out) {
        None => {
            assert(out.subrange(0, out.len() as int) =~= out);
            assert(renormalized(u, l, out, fuel) == (u, l, 0nat, out));
            assert(u & 0x8000_0000u32 != l & 0x8000_0000u32);
            assert(l < 0x8000_0000u32) by {
                if l >= 0x8000_0000u32 {
                    assert(l & 0x8000_0000u32 != 0);
                    assert(u & 0x8000_0000u32 != 0);
                }
            }
        },
        Some((u1, l1, uf1, out1)) => {
            let b0 = u & MASK_0 != 0;
            assert(out1 =~= out.push(b0));
            assert(l1 <= u1);
            assert(renormalized(u, l, out, fuel) == renormalized(u1, l1, out1, (fuel - 1) as nat));
            lemma_renorm_facts(u1, l1, out1, (fuel - 1) as nat);
            let out2 = renormalized(u, l, out, fuel).3;
            assert(out.is_prefix_of(out2)) by {
                assert(out2.subrange(0, out1.len() as int) =~= out1);
                assert(out2.subrange(0, out.len() as int) =~= out1.subrange(0, out.len() as int));
                assert(out1.subrange(0, out.len() as int) =~= out);
            }
        },
    }
}

/// When the bits end up in the window of the renormalised interval, they
/// were in the window of the interval before.
proof fn lemma_renorm_back(u: u32, l: u32, out: Seq<bool>, fuel: nat, b: Seq<bool>)
    requires
        l <= u,
        renormalize(u, l, 0, out, fuel) is Some,
        renormalized(u, l, out, fuel).3.is_prefix_of(b),
        renormalized(u, l, out, fuel).1 <= win(b, renormalized(u, l, out, fuel).3.len() as int, 32)
            <= renormalized(u, l, out, fuel).0,
    ensures
        l <= win(b, out.len() as int, 32) <= u,
    decreases fuel,
{
    lemma_shl1(u);
    lemma_shl1(l);
    if let Some((u1, l1, uf1, out1)) = renorm_step(u, l, 0, out) {
        let b0 = u & MASK_0 != 0;
        let e = out.len() as int;
        assert(out1 =~= out.push(b0));
        lemma_renorm_facts(u1, l1, out1, (fuel - 1) as nat);
        lemma_renorm_back(u1, l1, out1, (fuel - 1) as nat, b);
        assert(b[e] == b0) by {
            let out2 = renormalized(u, l, out, fuel).3;
            assert(out2[e] == out1[e]);
        }
        lemma_win_shift(b, e);
    }
}

/// The decoder's renormalisation follows the coder's: the same bounds, and
/// the code value moves along the bits as a 32-bit window.
proof fn lemma_renorm_forward(u: u32, l: u32, out: Seq<bool>, fuel: nat, b: Seq<bool>, c: u32, pos: int)
    requires
        l <= u,
        renormalize(u, l, 0, out, fuel) is Some,
        renormalized(u, l, out, fuel).3.is_prefix_of(b),
        c as int == win(b, out.len() as int, 32),
        pos == read_pos(out.len() as int, b.len() as int),
    ensures
        ({
            let (u2, l2, uf2, out2) = renormalized(u, l, out, fuel);
            &&& read_renorm(u, l, c, pos, b, fuel).0 == u2
            &&& read_renorm(u, l, c, pos, b, fuel).1 == l2
            &&& read_renorm(u, l, c, pos, b, fuel).2 as int == win(b, out2.len() as int, 32)
            &&& read_renorm(u, l, c, pos, b, fuel).3 == read_pos(out2.len() as int, b.len() as int)
        }),
    decreases fuel,
{
    lemma_shl1(u);
    lemma_shl1(l);
    lemma_shl1(c);
    let e = out.len() as int;
    lemma_win_bounds(b, e, 32);
    lemma2_to64();
    match renorm_step(u, l, 0, out) {
        None => {},
        Some((u1, l1, uf1, out1)) => {
            let b0 = u & MASK_0 != 0;
            assert(out1 =~= out.push(b0));
            lemma_renorm_facts(u1, l1, out1, (fuel - 1) as nat);
            assert(b[e] == b0) by {
                let out2 = renormalized(u, l, out, fuel).3;
                assert(out2[e] == out1[e]);
            }
            lemma_win_shift(b, e);
            let (u3, l3, c3, p3) = shift_in(u, l, c, pos, b);
            assert(read_step(u, l, c, pos, b) == Some((u3, l3, c3, p3)));
            assert(c3 as int == win(b, e + 1, 32));
            lemma_renorm_forward(u1, l1, out1, (fuel - 1) as nat, b, c3, p3);
        },
    }
}

/// The binary search finds the symbol whose share holds `x`, when the
/// table does not decrease.
proof fn lemma_search(m: Seq<u32>, x: u32, first: int, last: int, middle: int, v: int)
    requires
        m.len() == 257,
        forall|i: int, j: int| 0 <= i <= j <= 256 ==> m[i] <= m[j],
        0 <= first <= v <= last <= 255,
        middle == first + (last - first) / 2,
        m[v] <= x < m[v + 1],
    ensures
        search(m, x, first, last, middle) == Some(v as u8),
    decreases last - first,
{
    if x < m[middle] {
        assert(v < middle) by {
            if v >= middle {
                assert(m[middle] <= m[v]);
            }
        }
        lemma_search(m, x, first, middle - 1, first + (middle - 1 - first) / 2, v);
    } else if x >= m[middle + 1] {
        assert(v > middle) by {
            if v <= middle {
                assert(m[v + 1] <= m[middle + 1]);
            }
        }
        lemma_search(m, x, middle + 1, last, middle + 1 + (last - middle - 1) / 2, v);
    } else {
        assert(v == middle) by {
            if v < middle {
                assert(m[v + 1] <= m[middle]);
            } else if v > middle {
                assert(m[middle + 1] <= m[v]);
            }
        }
    }
}

/// A code value inside the share of `[lo, hi)` of `[l, u]` scales back into
/// `[lo, hi)`.
proof fn lemma_unscaled(u: u32, l: u32, c: u32, lo: u32, hi: u32, sum: u32)
    requires
        l <= c <= u,
        1 <= sum,
        lo <= hi <= sum,
        l + (u - l + 1) * lo / (sum as int) <= c,
        c <= l + (u - l + 1) * hi / (sum as int) - 1,
    ensures
        unscaled_value(u, l, c, sum) matches Some(x) && lo <= x < hi,
{
    let r: int = u - l + 1;
    let d: int = c - l;
    let t: int = sum as int;
    let q: int = r * lo / t;
    let p: int = r * hi / t;
    let y: int = (d + 1) * t - 1;
    let x: int = y / r;
    assert(q * t <= r * lo < (q + 1) * t) by (nonlinear_arith)
        requires
            t >= 1,
            q == r * lo / t,
    ;
    assert(p * t <= r * hi) by (nonlinear_arith)
        requires
            t >= 1,
            p == r * hi / t,
    ;
    assert(d >= q && d + 1 <= p);
    assert(y >= r * lo) by (nonlinear_arith)
        requires
            d >= q,
            t >= 1,
            r * lo < (q + 1) * t,
            y == (d + 1) * t - 1,
    ;
    assert(y < r * hi) by (nonlinear_arith)
        requires
            d + 1 <= p,
            t >= 1,
            p * t <= r * hi,
            y == (d + 1) * t - 1,
    ;
    assert(lo <= x < hi) by (nonlinear_arith)
        requires
            r >= 1,
            r * lo <= y < r * hi,
            x == y / r,
    ;
    assert(((c - l + 1) * sum - 1) / (u - l + 1) == x);
}

proof fn lemma_cast_top()
    ensures
        (0x1_0000_0000int) as u32 == 0u32,
{
    assert((0x1_0000_0000int) as u32 == 0u32) by (bit_vector);
}

/// A narrowing that keeps an ordered interval lies inside the old one, its
/// bounds the exact shares.
proof fn lemma_narrow(u: u32, l: u32, lo: u32, hi: u32, sum: u32)
    requires
        l <= u,
        lo <= hi <= sum,
        narrow(u, l, lo, hi, sum) matches Some((u2, l2)) && l2 <= u2,
    ensures
        ({
            let (u2, l2) = narrow(u, l, lo, hi, sum)->0;
            &&& l <= l2 <= u2 <= u
            &&& l2 == l + (u - l + 1) * lo / (sum as int)
            &&& u2 == l + (u - l + 1) * hi / (sum as int) - 1
        }),
{
    let r: int = u - l + 1;
    let t: int = sum as int;
    let a: int = r * hi / t;
    let b: int = r * lo / t;
    assert(0 <= b <= a <= r) by (nonlinear_arith)
        requires
            t >= 1,
            0 <= lo <= hi <= t,
            r >= 1,
            a == r * hi / t,
            b == r * lo / t,
    ;
    if a == 0x1_0000_0000 {
        lemma_cast_top();
        assert(l == 0);
    }
}

/// Whether the narrowing for symbol `k` of `input` keeps an ordered
/// interval (or the coder stops before it).
pub open spec fn narrowing_ordered(input: Seq<u8>, k: int) -> bool {
    let m = ar_model(input);
    match coder_run(input, m, k) {
        Some((u, l, uf, out)) => match narrow(u, l, m[input[k] as int], m[input[k] + 1], m[256]) {
            Some((u2, l2)) => l2 <= u2,
            None => true,
        },
        None => true,
    }
}

/// Whether every narrowing of the coder on `input` keeps an ordered
/// interval.  (The coder never holds back underflow bits while its bounds
/// are ordered, so an interval that straddles the middle closely keeps
/// shrinking; once it holds fewer values than the model's total, a share can
/// be empty.  The coder then stops at the next symbol, or, at the last one,
/// writes bits that do not decode back: so for the 27 symbols
/// `4 5 5 5 5 4 4 5 5 5 5 5 5 4 4 5 4 4 4 4 4 4 5 5 4 4 3`.)
pub open spec fn narrowings_ordered(input: Seq<u8>) -> bool {
    forall|k: int| 0 <= k < input.len() ==> #[trigger] narrowing_ordered(input, k)
}

/// The model does not decrease, starts at 0, and gives each symbol of the
/// input a nonempty share.
proof fn lemma_model(input: Seq<u8>)
    requires
        input.len() <= u32::MAX,
    ensures
        ar_model(input).len() == 257,
        ar_model(input)[0] == 0,
        forall|i: int, j: int| 0 <= i <= j <= 256 ==> ar_model(input)[i] <= ar_model(input)[j],
        forall|k: int|
            #![trigger input[k]]
            0 <= k < input.len() ==> ar_model(input)[input[k] as int] < ar_model(input)[input[k] + 1],
{
    let raw = freqs_of(input);
    let f = scaled(raw, input.len());
    let m = ar_model(input);
    lemma_freqs_total(input);
    lemma_scaled_total(raw, input.len(), 256);
    assert forall|i: int| 0 <= i <= 256 implies #[trigger] m[i] as int == freq_total(f, i) by {
        lemma_freq_total_mono(f, i, 256);
        lemma_freq_total_nonneg(f, i);
    }
    assert forall|i: int, j: int| 0 <= i <= j <= 256 implies m[i] <= m[j] by {
        lemma_freq_total_mono(f, i, j);
    }
    assert forall|k: int| #![trigger input[k]] 0 <= k < input.len() implies m[input[k] as int] < m[input[k]
        + 1] by {
        let s = input[k] as int;
        lemma_occurs(input, k);
        lemma_occurrences_le(input, input[k]);
        assert(raw[s] > 0);
        assert(f[s] >= 1);
        assert(freq_total(f, s + 1) == freq_total(f, s) + f[s]);
    }
}

/// A run that reaches `n` symbols passed through every shorter one.
proof fn lemma_run_prefix(input: Seq<u8>, m: Seq<u32>, i: int, n: int)
    requires
        0 <= i <= n,
        coder_run(input, m, n) is Some,
    ensures
        coder_run(input, m, i) is Some,
    decreases n - i,
{
    if i < n {
        lemma_run_prefix(input, m, i, n - 1);
    }
}

/// Renormalisation from the low `k` bits set writes at most `32 - k` bits.
proof fn lemma_renorm_len(u: u32, l: u32, out: Seq<bool>, fuel: nat, k: u64)
    requires
        l <= u,
        renormalize(u, l, 0, out, fuel) is Some,
        k <= 32,
        low_bits(u, l, k),
    ensures
        renormalized(u, l, out, fuel).3.len() <= out.len() + 32 - k,
    decreases fuel,
{
    lemma_shl1(u);
    lemma_shl1(l);
    if k == 32 {
        lemma_renorm_stops(u, l);
    }
    if let Some((u1, l1, uf1, out1)) = renorm_step(u, l, 0, out) {
        let b0 = u & MASK_0 != 0;
        assert(out1 =~= out.push(b0));
        lemma_renorm_low_bits(u, l, k);
        lemma_renorm_len(u1, l1, out1, (fuel - 1) as nat, (k + 1) as u64);
    }
}

/// The coder's states on an input it codes with ordered intervals: nothing
/// held back, the bounds in different halves, and at most 32 bits a symbol.
proof fn lemma_enc_state(input: Seq<u8>, k: int)
    requires
        encode_ok(input),
        narrowings_ordered(input),
        0 <= k <= input.len(),
    ensures
        coder_run(input, ar_model(input), k) matches Some((u, l, uf, out)) && uf == 0 && l < 0x8000_0000
            <= u && out.len() <= 32 * k,
    decreases k,
{
    let m = ar_model(input);
    lemma_run_prefix(input, m, k, input.len() as int);
    if k > 0 {
        lemma_enc_state(input, k - 1);
        assert(narrowing_ordered(input, k - 1));
        let (u, l, uf, out) = coder_run(input, m, k - 1)->0;
        let s = input[k - 1] as int;
        let (u2, l2) = narrow(u, l, m[s], m[s + 1], m[256])->0;
        lemma_renorm_facts(u2, l2, out, 33);
        lemma_low_bits_zero(u2, l2);
        lemma_renorm_len(u2, l2, out, 33, 0);
    }
}

/// The coder's state after `k` symbols of `input`.
pub open spec fn enc_state(input: Seq<u8>, k: int) -> (u32, u32, nat, Seq<bool>) {
    coder_run(input, ar_model(input), k)->0
}

/// The bits written up to symbol `j` start the bits written up to `k`.
proof fn lemma_enc_prefix(input: Seq<u8>, j: int, k: int)
    requires
        encode_ok(input),
        narrowings_ordered(input),
        0 <= j <= k <= input.len(),
    ensures
        enc_state(input, j).3.is_prefix_of(enc_state(input, k).3),
    decreases k - j,
{
    let m = ar_model(input);
    if j == k {
        let o = enc_state(input, j).3;
        assert(o.subrange(0, o.len() as int) =~= o);
    } else {
        lemma_enc_prefix(input, j, k - 1);
        lemma_enc_state(input, k - 1);
        lemma_enc_state(input, k);
        assert(narrowing_ordered(input, k - 1));
        let (u, l, uf, out) = coder_run(input, m, k - 1)->0;
        let s = input[k - 1] as int;
        let (u2, l2) = narrow(u, l, m[s], m[s + 1], m[256])->0;
        lemma_renorm_facts(u2, l2, out, 33);
        let a = enc_state(input, j).3;
        let c = enc_state(input, k).3;
        assert(a =~= c.subrange(0, a.len() as int)) by {
            assert(out =~= c.subrange(0, out.len() as int));
            assert(a =~= out.subrange(0, a.len() as int));
        }
    }
}

/// The model, the length and the bits of a coded string read back as
/// written.
proof fn lemma_ar_frame(b: Seq<bool>, m: Seq<u32>, n: u32)
    requires
        m.len() == 257,
    ensures
        ({
            let enc = bits_to_bytes(b) + le_table(m, 257) + le_bytes(n) + seq![(b.len() % 8) as u8];
            &&& enc.len() >= 1033
            &&& enc[enc.len() - 1] < 8
            &&& (enc.len() - 1033) * 8 <= b.len() + 7
            &&& read_model(enc) == m
            &&& read_len(enc) == n
            &&& data_bits(enc, 1033) == b
        }),
{
    let data = bits_to_bytes(b);
    let table = le_table(m, 257);
    let enc = bits_to_bytes(b) + le_table(m, 257) + le_bytes(n) + seq![(b.len() % 8) as u8];
    lemma_le_table(m, 257);
    assert(enc.subrange(0, data.len() as int) =~= data);
    assert forall|i: int| 0 <= i < 257 implies #[trigger] read_model(enc)[i] == m[i] by {
        assert(enc.subrange(data.len() + 4 * i, data.len() + 4 * i + 4) =~= table.subrange(4 * i, 4 * i + 4));
        lemma_le_roundtrip(m[i]);
    }
    assert(read_model(enc) =~= m);
    assert(enc.subrange(enc.len() - 5, enc.len() - 1) =~= le_bytes(n));
    lemma_le_roundtrip(n);
    lemma_bits_bytes_bits(b);
    let padded = pad_to_bytes(b);
    assert(data_bits(enc, 1033) =~= b) by {
        assert(bytes_to_bits(enc.subrange(0, enc.len() - 1033)) == padded);
        if b.len() % 8 != 0 {
            assert(padded.len() - (8 - b.len() % 8) == b.len());
            assert(padded.take(b.len() as int) =~= b);
        } else {
            assert(padded =~= b);
        }
    }
}

/// The bits `encode` writes lie, as a 32-bit window from each symbol's
/// first unwritten bit, inside the coder's interval at that symbol, and
/// inside the share it narrows to.
proof fn lemma_enc_window(input: Seq<u8>, k: int)
    requires
        encode_ok(input),
        narrowings_ordered(input),
        0 <= k <= input.len(),
    ensures
        ({
            let b = ar_bits(input);
            let (u, l, uf, out) = enc_state(input, k);
            let m = ar_model(input);
            &&& out.is_prefix_of(b)
            &&& l <= win(b, out.len() as int, 32) <= u
            &&& k < input.len() ==> {
                let (u2, l2) = narrow(u, l, m[input[k] as int], m[input[k] + 1], m[256])->0;
                l2 <= win(b, out.len() as int, 32) <= u2
            }
        }),
    decreases input.len() - k,
{
    let b = ar_bits(input);
    let m = ar_model(input);
    let n = input.len() as int;
    lemma_enc_state(input, n);
    lemma_enc_state(input, k);
    let (un, ln, ufn, outn) = enc_state(input, n);
    assert(b =~= outn.push(ln & MASK_1 != 0).push(ln & MASK_1 == 0));
    lemma_enc_prefix(input, k, n);
    let (u, l, uf, out) = enc_state(input, k);
    assert(out.is_prefix_of(b)) by {
        assert(out =~= outn.subrange(0, out.len() as int));
        assert(b.subrange(0, out.len() as int) =~= outn.subrange(0, out.len() as int));
    }
    if k == n {
        let e = out.len() as int;
        lemma2_to64();
        lemma_win_front(b, e, 31);
        lemma_win_front(b, e + 1, 30);
        lemma_win_past_end(b, e + 2, 0, 30);
        lemma_shl1(l);
        assert(win(b, e + 2, 0) == 0);
    } else {
        lemma_enc_window(input, k + 1);
        assert(narrowing_ordered(input, k));
        lemma_run_prefix(input, m, k + 1, n);
        let s = input[k] as int;
        lemma_model(input);
        let (u2, l2) = narrow(u, l, m[s], m[s + 1], m[256])->0;
        lemma_narrow(u, l, m[s], m[s + 1], m[256]);
        lemma_renorm_facts(u2, l2, out, 33);
        lemma_renorm_back(u2, l2, out, 33, b);
    }
}

/// The decoder's state after `k` symbols of what `encode` wrote: the first
/// `k` symbols, the coder's bounds, the 32-bit window of the bits from the
/// coder's first unwritten bit, and the bit after it.
proof fn lemma_dec_follows(input: Seq<u8>, k: int)
    requires
        encode_ok(input),
        narrowings_ordered(input),
        (ar_bits(input).len() as u32) >= 32 || ar_bits(input).len() < 32,
        0 <= k <= input.len(),
    ensures
        ({
            let b = ar_bits(input);
            let (u, l, uf, out) = enc_state(input, k);
            dec_run(ar_model(input), b, k) == Some(
                (input.take(k), u, l, win(b, out.len() as int, 32) as u32, read_pos(out.len() as int, b.len() as int)),
            )
        }),
    decreases k,
{
    let b = ar_bits(input);
    let m = ar_model(input);
    let n = input.len() as int;
    lemma_enc_state(input, n);
    lemma_enc_window(input, k);
    lemma_win_bounds(b, enc_state(input, k).3.len() as int, 32);
    lemma2_to64();
    if k == 0 {
        assert(b.len() >= 1);
        lemma_first_code(b);
        assert(input.take(0) =~= Seq::<u8>::empty());
    } else {
        lemma_dec_follows(input, k - 1);
        lemma_enc_state(input, k - 1);
        lemma_enc_window(input, k - 1);
        lemma_run_prefix(input, m, k, n);
        assert(narrowing_ordered(input, k - 1));
        lemma_model(input);
        let (u, l, uf, out) = enc_state(input, k - 1);
        let s = input[k - 1] as int;
        let (u2, l2) = narrow(u, l, m[s], m[s + 1], m[256])->0;
        lemma_narrow(u, l, m[s], m[s + 1], m[256]);
        lemma_win_bounds(b, out.len() as int, 32);
        let c = win(b, out.len() as int, 32) as u32;
        lemma_unscaled(u, l, c, m[s], m[s + 1], m[256]);
        let x = unscaled_value(u, l, c, m[256])->0;
        lemma_search(m, x, 0, 255, 127, s);
        lemma_renorm_facts(u2, l2, out, 33);
        lemma_enc_prefix(input, k, n);
        lemma_enc_window(input, k);
        lemma_renorm_forward(u2, l2, out, 33, b, c, read_pos(out.len() as int, b.len() as int));
        assert(input.take(k - 1).push(input[k - 1]) =~= input.take(k));
    }
}

/// Decoding what `encode` wrote gives the input back, when every narrowing
/// keeps an ordered interval and the decoder's first read takes the first
/// `min(32, len)` bits (it reads the bit count cut to `u32`).
pub proof fn lemma_roundtrip(input: Seq<u8>)
    requires
        encode_ok(input),
        narrowings_ordered(input),
        (ar_bits(input).len() as u32) >= 32 || ar_bits(input).len() < 32,
    ensures
        decode_ok(spec_encode(input)),
        spec_decode(spec_encode(input)) == Some(input),
{
    let b = ar_bits(input);
    let m = ar_model(input);
    let n = input.len() as int;
    lemma_enc_state(input, n);
    lemma_model(input);
    lemma_ar_frame(b, m, n as u32);
    lemma_dec_follows(input, n);
    assert(input.take(n) =~= input);
}

} // verus!
