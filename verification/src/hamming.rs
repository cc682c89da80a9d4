//! Hamming [7,4] code on byte strings.
//!
//! Every four data bits become a block of seven bits: positions 0, 1 and 3
//! hold parity bits, positions 2, 4, 5 and 6 the data.  A parity bit is
//! set when the data bits of its group hold an even number of set bits.
//! The coded bit string starts with one flag bit that tells how the last
//! byte was filled up.
use crate::bits::{
    bits_of, bits_to_bytes, bv_all, bv_from_bytes, bv_from_elem, bv_get, bv_len, bv_new, bv_push, bv_set,
    bv_to_bytes, bytes_to_bits, count_zeros, lemma_pow2_positive, lemma_pow2_strictly_increases,
    lemma_pow2_values, pow2,
};
use bit_vec::BitVec;
use vstd::prelude::*;

verus! {

// ---------------------------------------------------------------------------
// Block layout
// ---------------------------------------------------------------------------

/// Whether `num`, read as a `u32`, is `2^a` for some `a < c`.
pub open spec fn spec_is_power_of_two(num: usize, c: u32) -> bool {
    exists|a: nat| a < c && (num as u32) as nat == #[trigger] pow2(a)
}

/// The parity bit held at position `j` of a block: bit `x` stands at
/// position `2^x - 1`; `-1` for a data position.
pub open spec fn parity_index(j: int) -> int {
    if j == 0 {
        0
    } else if j == 1 {
        1
    } else if j == 3 {
        2
    } else {
        -1
    }
}

/// Whether position `j` of a block holds one of the first `c` parity bits.
pub open spec fn is_parity_pos(j: int, c: int) -> bool {
    0 <= parity_index(j) < c
}

/// Number of parity positions among the first `c` that come before `j`.
pub open spec fn parity_before(j: int, c: int) -> int {
    (if c >= 1 && j > 0 { 1int } else { 0int }) + (if c >= 2 && j > 1 { 1int } else { 0int }) + (if c >= 3
        && j > 3 { 1int } else { 0int })
}

/// Number of data positions in a block with `c` parity bits.
pub open spec fn data_bits(c: int) -> int {
    7 - c
}

/// The block before its parity bits are computed: the data bits fill the
/// positions that hold no parity bit, in order; parity positions are clear.
pub open spec fn layout(d: Seq<bool>, c: int) -> Seq<bool> {
    Seq::new(
        7,
        |j: int|
            if is_parity_pos(j, c) {
                false
            } else {
                d[j - parity_before(j, c)]
            },
    )
}

/// Whether position `j` (`0 <= j < 7`) belongs to the group checked by
/// parity bit `x`: bit `x` of `j + 1` is set.
pub open spec fn in_group(j: int, x: int) -> bool {
    if x == 0 {
        (j + 1) % 2 == 1
    } else if x == 1 {
        ((j + 1) / 2) % 2 == 1
    } else {
        ((j + 1) / 4) % 2 == 1
    }
}

/// One for a set bit of `s` at position `j` inside group `x` before `pos`.
pub open spec fn group_term(s: Seq<bool>, x: int, j: int, pos: int) -> int {
    if j < pos && in_group(j, x) && s[j] {
        1
    } else {
        0
    }
}

/// Number of set bits of `s` at the positions of group `x` below `pos`.
pub open spec fn group_prefix_ones(s: Seq<bool>, x: int, pos: int) -> int {
    group_term(s, x, 0, pos) + group_term(s, x, 1, pos) + group_term(s, x, 2, pos) + group_term(s, x, 3, pos)
        + group_term(s, x, 4, pos) + group_term(s, x, 5, pos) + group_term(s, x, 6, pos)
}

/// Number of set bits of `s` in group `x`.
pub open spec fn group_ones(s: Seq<bool>, x: int) -> int {
    group_prefix_ones(s, x, 7)
}

/// What `set_parity` returns: the layout of the data with each of the first
/// `c` parity bits set when its group holds an even number of set bits.
pub open spec fn spec_set_parity(d: Seq<bool>, c: int) -> Seq<bool> {
    Seq::new(
        7,
        |j: int|
            if is_parity_pos(j, c) {
                group_ones(layout(d, c), parity_index(j)) % 2 == 0
            } else {
                layout(d, c)[j]
            },
    )
}

/// The positions that the counting loop of `set_parity` visits for parity
/// bit `x`, with its run counter `cc`.
pub open spec fn visit_state(x: int, pos: int, cc: int) -> bool {
    if x == 0 {
        cc == 1 && (pos == 0 || pos == 2 || pos == 4 || pos == 6 || pos == 8)
    } else if x == 1 {
        (pos == 1 && cc == 1) || (pos == 2 && cc == 2) || (pos == 5 && cc == 1) || (pos == 6 && cc == 2) || (
        pos == 9 && cc == 1)
    } else {
        (pos == 3 && cc == 1) || (pos == 4 && cc == 2) || (pos == 5 && cc == 3) || (pos == 6 && cc == 4) || (
        pos == 11 && cc == 1)
    }
}

/// Copies the bits of `b_vec` at positions `a .. b`.
pub fn copy_bits(b_vec: &BitVec, a: usize, b: usize) -> (r: BitVec)
    requires
        a >= b || b <= bits_of(*b_vec).len(),
    ensures
        bits_of(r) == (if a < b {
            bits_of(*b_vec).subrange(a as int, b as int)
        } else {
            Seq::<bool>::empty()
        }),
{
    let mut copied = bv_new();
    let mut x = a;
    while x < b
        invariant
            a <= x <= b || (a >= b && x == a),
            a < b ==> b <= bits_of(*b_vec).len(),
            a < b ==> bits_of(copied) == bits_of(*b_vec).subrange(a as int, x as int),
            a >= b ==> bits_of(copied) == Seq::<bool>::empty(),
        decreases b - x,
    {
        bv_push(&mut copied, bv_get(b_vec, x).unwrap());
        x += 1;
    }
    copied
}

/// Whether `num`, read as a `u32`, equals `2^a` for an `a` below `c`.
/// It panics, computing `2^32`, when `c > 32` and no such `a` below 32 exists.
pub fn is_power_of_two(num: usize, c: u32) -> (r: bool)
    requires
        c <= 32 || exists|a: nat| a < 32 && (num as u32) as nat == #[trigger] pow2(a),
    ensures
        r == spec_is_power_of_two(num, c),
{
    let target = #[verifier::truncate] (num as u32);
    let mut a: u32 = 0;
    let mut p: u64 = 1;
    while a < c
        invariant
            a <= c,
            target == num as u32,
            p == pow2(a as nat),
            forall|e: nat| e < a ==> target as nat != #[trigger] pow2(e),
            c <= 32 || exists|e: nat| a <= e < 32 && target as nat == #[trigger] pow2(e),
        decreases c - a,
    {
        if target as u64 == p {
            return true;
        }
        proof {
            if a >= 32 {
                let e = choose|e: nat| a <= e < 32 && target as nat == #[trigger] pow2(e);
                assert(false);
            }
            lemma_pow2_values();
            if a < 32 {
                lemma_pow2_strictly_increases(a as nat, 32);
            }
        }
        p = p * 2;
        a += 1;
    }
    false
}

/// Which positions of a block `is_power_of_two(j + 1, c)` marks, for `c <= 3`.
proof fn lemma_power_positions(j: int, c: u32)
    requires
        0 <= j < 7,
        c <= 3,
    ensures
        spec_is_power_of_two((j + 1) as usize, c) == is_parity_pos(j, c as int),
{
    lemma_pow2_values();
    let m = ((j + 1) as usize) as u32;
    assert(m == j + 1);
    if is_parity_pos(j, c as int) {
        let a = parity_index(j) as nat;
        assert(m as nat == pow2(a));
    } else {
        assert forall|a: nat| a < c implies m as nat != #[trigger] pow2(a) by {
        }
    }
}

/// Lays the data bits `b_vec` out in a block of seven bits and sets its
/// first `c` parity bits (`a` and `b` are not used).
pub fn set_parity(b_vec: BitVec, a: u32, b: u32, c: u32) -> (r: BitVec)
    requires
        c <= 3,
        bits_of(b_vec).len() >= data_bits(c as int),
    ensures
        bits_of(r) == spec_set_parity(bits_of(b_vec), c as int),
{
    let ghost d = bits_of(b_vec);
    let mut with_parity = bv_from_elem(7, false);
    let n = bv_len(&with_parity);
    let mut p: usize = 0;
    let mut x: usize = 0;
    while x < n
        invariant
            n == 7,
            c <= 3,
            d == bits_of(b_vec),
            d.len() >= data_bits(c as int),
            x <= 7,
            p == x - parity_before(x as int, c as int),
            bits_of(with_parity).len() == 7,
            forall|j: int| 0 <= j < x ==> bits_of(with_parity)[j] == layout(d, c as int)[j],
            forall|j: int| x <= j < 7 ==> bits_of(with_parity)[j] == false,
        decreases 7 - x,
    {
        proof {
            lemma_power_positions(x as int, c);
        }
        if !is_power_of_two(x + 1, c) {
            bv_set(&mut with_parity, x, bv_get(&b_vec, p).unwrap());
            p += 1;
        }
        x += 1;
    }
    let ghost lay = layout(d, c as int);
    assert(bits_of(with_parity) =~= lay);
    let mut x: u32 = 0;
    let mut pow: u32 = 1;
    while x < c
        invariant
            c <= 3,
            x <= c,
            pow == pow2(x as nat),
            lay == layout(d, c as int),
            bits_of(with_parity).len() == 7,
            forall|j: int|
                0 <= j < 7 ==> bits_of(with_parity)[j] == if 0 <= parity_index(j) < x {
                    group_ones(lay, parity_index(j)) % 2 == 0
                } else {
                    lay[j]
                },
        decreases c - x,
    {
        proof {
            lemma_pow2_values();
        }
        let ghost s = bits_of(with_parity);
        let mut counter: u32 = 0;
        let mut pos: u32 = pow - 1;
        let mut cc: u32 = 1;
        loop
            invariant
                x < 3,
                pow == pow2(x as nat),
                pow == 1 || pow == 2 || pow == 4,
                x == 0 ==> pow == 1,
                x == 1 ==> pow == 2,
                x == 2 ==> pow == 4,
                s == bits_of(with_parity),
                s.len() == 7,
                visit_state(x as int, pos as int, cc as int),
                counter == group_prefix_ones(s, x as int, pos as int),
            ensures
                pos >= 7,
                visit_state(x as int, pos as int, cc as int),
                counter == group_prefix_ones(s, x as int, pos as int),
            decreases 12 - pos,
        {
            if pos >= bv_len(&with_parity) as u32 {
                break;
            }
            if bv_get(&with_parity, pos as usize).unwrap() == true {
                counter += 1;
            }
            if cc < pow {
                pos += 1;
                cc += 1;
            } else {
                pos += pow + 1;
                cc = 1;
            }
        }
        assert(group_prefix_ones(s, x as int, pos as int) == group_ones(s, x as int));
        assert(group_ones(s, x as int) == group_ones(lay, x as int));
        bv_set(&mut with_parity, (pow - 1) as usize, counter % 2 == 0);
        x += 1;
        pow = pow * 2;
    }
    assert(bits_of(with_parity) =~= spec_set_parity(d, c as int));
    with_parity
}

// ---------------------------------------------------------------------------
// Encoding
// ---------------------------------------------------------------------------

/// Number of four-bit blocks that `encode` codes for an input of `n` bytes:
/// the bit count is read as a `u32`, as the encoder does.
pub open spec fn block_count(n: nat) -> nat {
    ((n * 8) % 0x1_0000_0000) / 4
}

/// Block `k` of the coded bits: the four data bits `4k .. 4k + 4` with their
/// three parity bits.
pub open spec fn encoded_block(b: Seq<bool>, k: int) -> Seq<bool> {
    spec_set_parity(b.subrange(4 * k, 4 * k + 4), 3)
}

/// The first `count` coded blocks of `b`, one after the other.
pub open spec fn encoded_blocks(b: Seq<bool>, count: nat) -> Seq<bool> {
    Seq::new(count * 7, |i: int| encoded_block(b, i / 7)[i % 7])
}

/// The coded bit string: the flag bit, set when the coded blocks do not
/// fill whole bytes, then the coded blocks.
pub open spec fn spec_encode_bits(input: Seq<u8>) -> Seq<bool> {
    let count = block_count(input.len());
    seq![(count * 7) % 8 != 0] + encoded_blocks(bytes_to_bits(input), count)
}

/// What `encode` returns: the coded bit string packed into bytes.
pub open spec fn spec_encode(input: Seq<u8>) -> Seq<u8> {
    bits_to_bytes(spec_encode_bits(input))
}

proof fn lemma_block_count(n: nat)
    ensures
        block_count(n) * 4 <= n * 8,
        block_count(n) * 4 + 8 <= 0x1_0000_0000,
        block_count(n) * 4 == (n * 8) % 0x1_0000_0000,
{
    let x: int = n as int * 8;
    let l: int = x % 0x1_0000_0000;
    assert(l % 8 == 0 && 0 <= l < 0x1_0000_0000) by {
        vstd::arithmetic::div_mod::lemma_mod_bound(x, 0x1_0000_0000);
        vstd::arithmetic::div_mod::lemma_mod_mod(x, 8, 0x2000_0000);
        assert(x % 8 == 0) by {
            vstd::arithmetic::div_mod::lemma_mod_multiples_basic(n as int, 8);
        }
    }
    assert(l <= x) by {
        vstd::arithmetic::div_mod::lemma_mod_decreases(x as nat, 0x1_0000_0000);
    }
    assert((l / 4) * 4 == l) by {
        vstd::arithmetic::div_mod::lemma_fundamental_div_mod(l, 4);
    }
}

/// The bit count of a bit vector read as a `u32`.
fn len_as_u32(v: &BitVec) -> (r: u32)
    ensures
        r == bits_of(*v).len() % 0x1_0000_0000,
{
    let len = bv_len(v);
    let r = #[verifier::truncate] (len as u32);
    assert(r == (len as u64) % 0x1_0000_0000u64) by (bit_vector)
        requires
            r == #[verifier::truncate] (len as u32),
    ;
    r
}

/// Encodes `input` with the Hamming [7,4] code.
pub fn encode(input: &[u8]) -> (r: Vec<u8>)
    requires
        input@.len() * 8 <= usize::MAX,
        block_count(input@.len()) * 7 < usize::MAX,
    ensures
        r@ == spec_encode(input@),
{
    let bv = bv_from_bytes(input);
    let ghost b = bits_of(bv);
    let ghost count = block_count(input@.len());
    proof {
        lemma_block_count(input@.len());
    }
    let mut vector = bv_new();
    bv_push(&mut vector, false);
    let mut start: u32 = 0;
    let mut end: u32 = 4;
    let ghost mut k: nat = 0;
    loop
        invariant
            b == bits_of(bv),
            b.len() == input@.len() * 8,
            count == block_count(input@.len()),
            count * 4 == (input@.len() * 8) % 0x1_0000_0000,
            count * 4 <= b.len(),
            count * 4 + 8 <= 0x1_0000_0000,
            count * 7 < usize::MAX,
            k <= count,
            start == 4 * k,
            end == 4 * k + 4,
            bits_of(vector) == seq![false] + encoded_blocks(b, k),
        ensures
            k == count,
            bits_of(vector) == seq![false] + encoded_blocks(b, k),
        decreases count - k,
    {
        if end > len_as_u32(&bv) {
            break;
        }
        let mut blk = copy_bits(&bv, start as usize, end as usize);
        blk = set_parity(blk, start, end, 3);
        let ghost before = bits_of(vector);
        let blen = bv_len(&blk);
        let mut x: usize = 0;
        while x < blen
            invariant
                blen == 7,
                bits_of(blk) == encoded_block(b, k as int),
                before == seq![false] + encoded_blocks(b, k),
                k < count,
                count * 7 < usize::MAX,
                x <= 7,
                bits_of(vector) == before + bits_of(blk).take(x as int),
            decreases 7 - x,
        {
            bv_push(&mut vector, bv_get(&blk, x).unwrap());
            assert(bits_of(blk).take(x + 1) =~= bits_of(blk).take(x as int).push(bits_of(blk)[x as int]));
            x += 1;
        }
        proof {
            assert(bits_of(blk).take(7) =~= bits_of(blk));
            assert forall|i: int| 0 <= i < (k + 1) * 7 implies #[trigger] encoded_blocks(b, k + 1)[i]
                == (encoded_blocks(b, k) + encoded_block(b, k as int))[i] by {
                if i >= k * 7 {
                    assert((i - k * 7) == i % 7) by (nonlinear_arith)
                        requires k * 7 <= i < (k + 1) * 7;
                    assert(i / 7 == k) by (nonlinear_arith)
                        requires k * 7 <= i < (k + 1) * 7;
                }
            }
            assert(encoded_blocks(b, k + 1) =~= encoded_blocks(b, k) + encoded_block(b, k as int));
            assert(seq![false] + encoded_blocks(b, k + 1) =~= before + bits_of(blk));
        }
        start += 4;
        end += 4;
        proof {
            k = k + 1;
        }
    }
    if (bv_len(&vector) - 1) % 8 != 0 {
        bv_set(&mut vector, 0, true);
    }
    assert(bits_of(vector) =~= spec_encode_bits(input@));
    bv_to_bytes(&vector)
}

/// Appends the bits of `vec2` to those of `vec1`.
pub fn append(vec1: BitVec, vec2: BitVec) -> (r: BitVec)
    requires
        bits_of(vec1).len() + bits_of(vec2).len() <= usize::MAX,
    ensures
        bits_of(r) == bits_of(vec1) + bits_of(vec2),
{
    let mut vec3 = vec1;
    let n = bv_len(&vec2);
    let mut x: usize = 0;
    while x < n
        invariant
            n == bits_of(vec2).len(),
            bits_of(vec1).len() + n <= usize::MAX,
            x <= n,
            bits_of(vec3) == bits_of(vec1) + bits_of(vec2).take(x as int),
        decreases n - x,
    {
        bv_push(&mut vec3, bv_get(&vec2, x).unwrap());
        assert(bits_of(vec2).take(x + 1) =~= bits_of(vec2).take(x as int).push(bits_of(vec2)[x as int]));
        x += 1;
    }
    assert(bits_of(vec2).take(n as int) =~= bits_of(vec2));
    vec3
}

/// Counts the clear bits among the first `ln` bits of `a`.
pub fn count_mistakes(a: &BitVec, ln: u32) -> (r: u32)
    requires
        ln <= bits_of(*a).len(),
    ensures
        r == count_zeros(bits_of(*a).take(ln as int)),
{
    let ghost s = bits_of(*a);
    let mut aa: u32 = 0;
    let mut x: u32 = 0;
    while x < ln
        invariant
            s == bits_of(*a),
            ln <= s.len(),
            x <= ln,
            aa <= x,
            aa == count_zeros(s.take(x as int)),
        decreases ln - x,
    {
        assert(s.take(x + 1).drop_last() =~= s.take(x as int));
        if bv_get(a, x as usize).unwrap() == false {
            aa += 1;
        }
        x += 1;
    }
    aa
}

// ---------------------------------------------------------------------------
// Decoding
// ---------------------------------------------------------------------------

/// `2^a` as a `u32`.
fn pow2_u32(a: u32) -> (r: u32)
    requires
        a < 32,
    ensures
        r == pow2(a as nat),
{
    let mut r: u32 = 1;
    let mut i: u32 = 0;
    while i < a
        invariant
            i <= a < 32,
            r == pow2(i as nat),
        decreases a - i,
    {
        proof {
            lemma_pow2_values();
            lemma_pow2_strictly_increases((i + 1) as nat, 32);
        }
        r = r * 2;
        i += 1;
    }
    r
}

/// Whether position `j` lies in a group of `2^a` positions that parity bit
/// `a` checks: bit `a` of `j + 1` is set.
pub open spec fn in_check_group(a: nat, j: int) -> bool {
    ((j + 1) / pow2(a) as int) % 2 == 1
}

/// The positions that parity bit `a` checks, up to `b`, without the parity
/// position `2^a - 1` itself.
pub open spec fn check_set(a: nat, b: int) -> Set<u32> {
    Set::new(|j: u32| pow2(a) <= j <= b && in_check_group(a, j as int))
}

/// Whether the position walk of `indexes_to_check(a, b)` ends without
/// overflowing a `u32`: some position of the pattern lies above `b`.
pub open spec fn walk_fits(a: nat, b: int) -> bool {
    exists|j: int| #![trigger in_check_group(a, j)] b < j <= u32::MAX && pow2(a) - 1 <= j && in_check_group(a, j)
}

/// The positions checked by parity bit `a`, up to `b`.
pub fn indexes_to_check(a: u32, b: u32) -> (r: std::collections::HashSet<u32>)
    requires
        a < 32,
        walk_fits(a as nat, b as int),
    ensures
        r@ == check_set(a as nat, b as int),
{
    broadcast use vstd::std_specs::hash::group_hash_axioms;

    let mut set: std::collections::HashSet<u32> = std::collections::HashSet::new();
    let pw = pow2_u32(a);
    let ghost pn = pw as int;
    proof {
        lemma_pow2_positive(a as nat);
    }
    let ghost wit = choose|j: int|
        #![trigger in_check_group(a as nat, j)]
        b < j <= u32::MAX && pow2(a as nat) - 1 <= j && in_check_group(a as nat, j);
    let mut k: u32 = pw - 1;
    let mut pp: u32 = 1;
    let ghost mut q: int = 1;
    loop
        invariant
            pn == pw,
            pw == pow2(a as nat),
            pn >= 1,
            b < wit <= u32::MAX,
            in_check_group(a as nat, wit),
            k <= wit,
            k + 1 >= pn,
            k + 1 == q * pn + (pp - 1),
            q % 2 == 1,
            q >= 1,
            1 <= pp <= pw,
            set@ == Set::new(|j: u32| pw <= j && j < k && in_check_group(a as nat, j as int)),
            forall|j: int| pn - 1 <= j < k && #[trigger] in_check_group(a as nat, j) ==> j <= b,
        ensures
            set@ == check_set(a as nat, b as int),
        decreases u32::MAX - k,
    {
        if k > b {
            assert(set@ =~= check_set(a as nat, b as int));
            break;
        }
        proof {
            vstd::arithmetic::div_mod::lemma_fundamental_div_mod_converse(
                k + 1,
                pn,
                q,
                pp - 1,
            );
            assert(in_check_group(a as nat, k as int));
        }
        let ghost old_set = set@;
        let ghost old_k = k;
        if k != pw - 1 {
            set.insert(k);
        }
        if pp == pw {
            proof {
                assert((q + 1) * pn == q * pn + pn) by (nonlinear_arith);
                assert((q + 2) * pn == q * pn + 2 * pn) by (nonlinear_arith);
                assert forall|j: int| old_k < j <= old_k + pn implies !#[trigger] in_check_group(
                    a as nat,
                    j,
                ) by {
                    vstd::arithmetic::div_mod::lemma_fundamental_div_mod_converse(
                        j + 1,
                        pn,
                        q + 1,
                        j - old_k - 1,
                    );
                }
                assert(wit >= old_k + pn + 1);
            }
            k += pw + 1;
            pp = 1;
            proof {
                q = q + 2;
            }
        } else {
            k += 1;
            pp += 1;
        }
        proof {
            assert(old_k != pw - 1 ==> set@ == old_set.insert(old_k));
            assert(old_k == pw - 1 ==> set@ == old_set);
            assert forall|j: u32| old_k < j < k implies !#[trigger] in_check_group(a as nat, j as int) by {
                if old_k < j <= old_k + pn {
                }
            }
            assert forall|j: u32| #[trigger] set@.contains(j) == (pw <= j && j < k && in_check_group(
                a as nat,
                j as int,
            )) by {
                if j < old_k {
                    assert(old_set.contains(j) == (pw <= j && j < old_k && in_check_group(
                        a as nat,
                        j as int,
                    )));
                } else if j == old_k {
                    assert(in_check_group(a as nat, old_k as int));
                    assert(old_k >= pw - 1);
                    assert(set@.contains(j) == (pw <= j));
                } else {
                    assert(!old_set.contains(j));
                    assert(!set@.contains(j));
                    if j < k {
                        assert(!in_check_group(a as nat, j as int));
                    }
                }
            }
            assert(set@ =~= Set::new(|j: u32| pw <= j && j < k && in_check_group(a as nat, j as int)));
        }
    }
    set
}

/// Where `checking_for_eight` ends the copied bits.
pub open spec fn trunc_end(c: Seq<bool>) -> int {
    if !c[0] {
        c.len() - 7
    } else {
        c.len() - 1 - (7 - (c.len() - 1) % 4)
    }
}

/// What `checking_for_eight` returns: the coded blocks of a decoded byte
/// string, without the flag bit and the bits that fill up the last byte.
pub open spec fn spec_checking_for_eight(c: Seq<bool>) -> Seq<bool> {
    if 1 < trunc_end(c) {
        c.subrange(1, trunc_end(c))
    } else {
        Seq::<bool>::empty()
    }
}

/// Cuts the flag bit and the fill bits off a coded bit string; it panics,
/// subtracting below zero, on a string too short for its flag.
pub fn checking_for_eight(code: BitVec) -> (r: BitVec)
    requires
        bits_of(code).len() >= 1,
        trunc_end(bits_of(code)) >= 0,
    ensures
        bits_of(r) == spec_checking_for_eight(bits_of(code)),
{
    let len = bv_len(&code);
    if bv_get(&code, 0).unwrap() == false {
        copy_bits(&code, 1, len - 7)
    } else {
        copy_bits(&code, 1, len - 1 - (7 - (len - 1) % 4))
    }
}

/// Whether `n` is a power of two.
pub open spec fn is_pow2(n: int) -> bool {
    exists|e: nat| n == #[trigger] pow2(e)
}

/// The bits of `s` whose position `j` has `j + 1` not a power of two: the
/// data bits of a block.
pub open spec fn strip_parity(s: Seq<bool>) -> Seq<bool>
    decreases s.len(),
{
    if s.len() == 0 {
        Seq::<bool>::empty()
    } else if is_pow2(s.len() as int) {
        strip_parity(s.drop_last())
    } else {
        strip_parity(s.drop_last()).push(s.last())
    }
}

/// `s` with bit `b` inverted.
pub open spec fn flip(s: Seq<bool>, b: int) -> Seq<bool> {
    s.update(b, !s[b])
}

/// The positions found by the scan of `flipped_bit` over the first `n`
/// check results: the first failing check, the last later failing one and
/// the last passing one, each 4 until found.
pub open spec fn scan_indices(p: Seq<bool>, n: int) -> (int, int, int)
    decreases n,
{
    if n <= 0 {
        (4, 4, 4)
    } else {
        let (i1, i2, i3) = scan_indices(p, n - 1);
        if !p[n - 1] {
            if i1 == 4 {
                (n - 1, i2, i3)
            } else {
                (i1, n - 1, i3)
            }
        } else {
            (i1, i2, n - 1)
        }
    }
}

/// The positions that two failing checks share and the passing check does
/// not cover: where a single error lies.
pub open spec fn flip_candidates(index: Seq<Set<u32>>, p: Seq<bool>) -> Set<u32> {
    let (i1, i2, i3) = scan_indices(p, p.len() as int);
    index[i1].intersect(index[i2]).difference(index[i3])
}

/// Number of failing checks that `flipped_bit` counts: among the first
/// `p.len()` checks, that count read as a `u32`.
pub open spec fn failing_checks(p: Seq<bool>) -> nat {
    count_zeros(p.take((p.len() % 0x1_0000_0000) as int))
}

/// Whether every check passes.
pub open spec fn all_pass(p: Seq<bool>) -> bool {
    forall|i: int| 0 <= i < p.len() ==> p[i]
}

/// The index sets of a `Vec` of hash sets.
pub open spec fn set_views(index: Seq<std::collections::HashSet<u32>>) -> Seq<Set<u32>> {
    index.map_values(|h: std::collections::HashSet<u32>| h@)
}

/// Smallest power of two at least `n`, among those passed so far.
proof fn lemma_pow2_between(e: nat, n: int)
    requires
        n >= 1,
        e == 0 || pow2((e - 1) as nat) < n,
        n < pow2(e),
    ensures
        !is_pow2(n),
{
    if is_pow2(n) {
        let f = choose|f: nat| n == #[trigger] pow2(f);
        if f < e {
            if e > 0 && f < (e - 1) as nat {
                lemma_pow2_strictly_increases(f, (e - 1) as nat);
            }
        } else if f > e {
            lemma_pow2_strictly_increases(e, f);
        }
    }
}

/// Keeps the bits of `decoded` whose position `x` has `x + 1` not a power
/// of two.
fn strip_parity_bits(decoded: &BitVec) -> (r: BitVec)
    requires
        bits_of(*decoded).len() < 0x1_0000_0000,
    ensures
        bits_of(r) == strip_parity(bits_of(*decoded)),
{
    let ghost s = bits_of(*decoded);
    let mut final_decoded = bv_new();
    let len = bv_len(decoded);
    let mut next_pow: u64 = 1;
    let ghost mut e: nat = 0;
    let mut x: usize = 0;
    while x < len
        invariant
            len == s.len(),
            s == bits_of(*decoded),
            len < 0x1_0000_0000,
            x <= len,
            next_pow == pow2(e),
            x + 1 <= next_pow,
            e == 0 || pow2((e - 1) as nat) < x + 1,
            next_pow <= 0x2_0000_0000,
            bits_of(final_decoded) == strip_parity(s.take(x as int)),
            bits_of(final_decoded).len() <= x,
        decreases len - x,
    {
        let ghost t = s.take(x + 1);
        assert(t.drop_last() =~= s.take(x as int));
        if (x as u64) + 1 == next_pow {
            assert(is_pow2(t.len() as int));
            proof {
                lemma_pow2_values();
                lemma_pow2_strictly_increases(e, e + 1);
                if e >= 33 {
                    lemma_pow2_strictly_increases(33, e);
                    assert(pow2(33) == 2 * pow2(32));
                }
                if e < 33 {
                    lemma_pow2_strictly_increases(e, 33);
                    assert(pow2(33) == 2 * pow2(32));
                }
                e = e + 1;
            }
            next_pow = next_pow * 2;
        } else {
            proof {
                lemma_pow2_between(e, x + 1);
            }
            bv_push(&mut final_decoded, bv_get(decoded, x).unwrap());
        }
        x += 1;
    }
    assert(s.take(len as int) =~= s);
    final_decoded
}

/// Corrects the block `code` from the results `parity` of its three checks
/// and keeps its data bits.  With two failing checks the bit that the two
/// failing groups share and the passing group does not is inverted (taken
/// from `index`, the groups of the checks; when several bits qualify, the
/// one met first in the hash set's order); with one or three failing
/// checks bit 6 is inverted.  The data bits are those at positions `x` with
/// `x + 1` not a power of two.
pub fn flipped_bit(index: Vec<std::collections::HashSet<u32>>, parity: BitVec, code: BitVec) -> (r: BitVec)
    requires
        bits_of(code).len() < 0x1_0000_0000,
        !all_pass(bits_of(parity)) && failing_checks(bits_of(parity)) == 2 ==> {
            let (i1, i2, i3) = scan_indices(bits_of(parity), bits_of(parity).len() as int);
            &&& 0 <= i1 < index@.len()
            &&& 0 <= i2 < index@.len()
            &&& 0 <= i3 < index@.len()
            &&& flip_candidates(set_views(index@), bits_of(parity)) != Set::<u32>::empty()
            &&& forall|b: u32| #[trigger]
                flip_candidates(set_views(index@), bits_of(parity)).contains(b) ==> b < bits_of(
                    code,
                ).len()
        },
        !all_pass(bits_of(parity)) && failing_checks(bits_of(parity)) != 2 ==> bits_of(code).len() > 6,
    ensures
        all_pass(bits_of(parity)) ==> bits_of(r) == strip_parity(bits_of(code)),
        !all_pass(bits_of(parity)) && failing_checks(bits_of(parity)) == 2 ==> exists|b: u32| #[trigger]
            flip_candidates(set_views(index@), bits_of(parity)).contains(b) && bits_of(r) == strip_parity(
                flip(bits_of(code), b as int),
            ),
        !all_pass(bits_of(parity)) && failing_checks(bits_of(parity)) != 2 ==> bits_of(r) == strip_parity(
            flip(bits_of(code), 6),
        ),
{
    broadcast use vstd::std_specs::hash::group_hash_axioms;

    let ghost p = bits_of(parity);
    let ghost sets = set_views(index@);
    let mut decoded = code;
    let mut ind1: usize = 4;
    let mut ind2: usize = 4;
    let mut ind3: usize = 4;
    let ln = bv_len(&parity);
    if !bv_all(&parity) {
        let counted = len_as_u32(&parity);
        if count_mistakes(&parity, counted) == 2 {
            let mut x: usize = 0;
            while x < ln
                invariant
                    ln == p.len(),
                    p == bits_of(parity),
                    x <= ln,
                    (ind1 as int, ind2 as int, ind3 as int) == scan_indices(p, x as int),
                decreases ln - x,
            {
                if bv_get(&parity, x).unwrap() == false {
                    if ind1 == 4 {
                        ind1 = x;
                    } else {
                        ind2 = x;
                    }
                } else {
                    ind3 = x;
                }
                x += 1;
            }
            let ghost cand = flip_candidates(sets, p);
            assert(sets[ind1 as int] == index@[ind1 as int]@);
            assert(sets[ind2 as int] == index@[ind2 as int]@);
            assert(sets[ind3 as int] == index@[ind3 as int]@);
            let mut mistake: Vec<u32> = Vec::new();
            let clen = bv_len(&decoded);
            let mut y: usize = 0;
            while y < clen
                invariant
                    clen == bits_of(decoded).len(),
                    clen < 0x1_0000_0000,
                    y <= clen,
                    ind1 < index@.len(),
                    ind2 < index@.len(),
                    ind3 < index@.len(),
                    cand == index@[ind1 as int]@.intersect(index@[ind2 as int]@).difference(
                        index@[ind3 as int]@,
                    ),
                    forall|i: int| 0 <= i < mistake@.len() ==> cand.contains(#[trigger] mistake@[i]),
                    forall|c: u32| #[trigger] cand.contains(c) && c < y ==> mistake@.contains(c),
                decreases clen - y,
            {
                let yy = y as u32;
                let ghost old_m = mistake@;
                if index[ind1].contains(&yy) && index[ind2].contains(&yy) && !index[ind3].contains(&yy) {
                    mistake.push(yy);
                    assert(mistake@[old_m.len() as int] == yy);
                }
                assert forall|c: u32| old_m.contains(c) implies mistake@.contains(c) by {
                    let i = choose|i: int| 0 <= i < old_m.len() && old_m[i] == c;
                    assert(mistake@[i] == c);
                }
                y += 1;
            }
            proof {
                if !(exists|c: u32| cand.contains(c)) {
                    assert(cand =~= Set::<u32>::empty());
                }
                let c = choose|c: u32| cand.contains(c);
                assert(mistake@.contains(c));
            }
            let bit_to_flip: usize = mistake[0] as usize;
            let val = bv_get(&decoded, bit_to_flip).unwrap();
            bv_set(&mut decoded, bit_to_flip, !val);
            assert(bits_of(decoded) == flip(bits_of(code), bit_to_flip as int));
        } else {
            let val = bv_get(&decoded, 6).unwrap();
            bv_set(&mut decoded, 6, !val);
        }
    }
    strip_parity_bits(&decoded)
}

/// Number of set bits of `s` below position `n` whose position lies in `st`.
pub open spec fn set_count(s: Seq<bool>, st: Set<u32>, n: int) -> int
    decreases n,
{
    if n <= 0 {
        0
    } else {
        set_count(s, st, n - 1) + if st.contains((n - 1) as u32) && s[n - 1] {
            1int
        } else {
            0int
        }
    }
}

/// Whether check `x` of block `s` passes: its parity bit is set exactly when
/// the positions it checks hold an even number of set bits.
pub open spec fn check_ok(s: Seq<bool>, x: nat) -> bool {
    s[pow2(x) - 1] == (set_count(s, check_set(x, 7), s.len() as int) % 2 == 0)
}

/// The results of the three checks of block `s`.
pub open spec fn check_results(s: Seq<bool>) -> Seq<bool> {
    seq![check_ok(s, 0), check_ok(s, 1), check_ok(s, 2)]
}

/// The position that `parity_check` inverts, `-1` for none: the position
/// shared by exactly the two failing checks, or 6 when one or three fail.
pub open spec fn fix_position(s: Seq<bool>) -> int {
    let c = check_results(s);
    if c[0] && c[1] && c[2] {
        -1
    } else if !c[0] && !c[1] && c[2] {
        2
    } else if !c[0] && c[1] && !c[2] {
        4
    } else if c[0] && !c[1] && !c[2] {
        5
    } else {
        6
    }
}

/// What `parity_check` returns: the data bits of the corrected block.
pub open spec fn spec_parity_check(s: Seq<bool>) -> Seq<bool> {
    if fix_position(s) == -1 {
        strip_parity(s)
    } else {
        strip_parity(flip(s, fix_position(s)))
    }
}

/// The positions that the three checks cover.
pub proof fn lemma_check_sets()
    ensures
        check_set(0, 7) == set![2u32, 4u32, 6u32],
        check_set(1, 7) == set![2u32, 5u32, 6u32],
        check_set(2, 7) == set![4u32, 5u32, 6u32],
{
    lemma_pow2_values();
    assert(check_set(0, 7) =~= set![2u32, 4u32, 6u32]);
    assert(check_set(1, 7) =~= set![2u32, 5u32, 6u32]);
    assert(check_set(2, 7) =~= set![4u32, 5u32, 6u32]);
}

/// The walk of `indexes_to_check(x, 7)` fits in a `u32` for the three checks.
proof fn lemma_walks_fit(x: nat)
    requires
        x < 3,
    ensures
        walk_fits(x, 7),
{
    lemma_pow2_values();
    if x == 0 {
        assert(in_check_group(0, 8));
    } else if x == 1 {
        assert(in_check_group(1, 9));
    } else {
        assert(in_check_group(2, 11));
    }
}

/// The data bits of a seven-bit block are those at positions 2, 4, 5 and 6.
pub proof fn lemma_strip7(s: Seq<bool>)
    requires
        s.len() == 7,
    ensures
        strip_parity(s) == seq![s[2], s[4], s[5], s[6]],
{
    lemma_pow2_values();
    assert(is_pow2(1));
    assert(is_pow2(2));
    assert(is_pow2(4));
    lemma_pow2_between(2, 3);
    lemma_pow2_between(3, 5);
    lemma_pow2_between(3, 6);
    lemma_pow2_between(3, 7);
    let s1 = s.take(1);
    let s2 = s.take(2);
    let s3 = s.take(3);
    let s4 = s.take(4);
    let s5 = s.take(5);
    let s6 = s.take(6);
    assert(s1.drop_last() =~= Seq::<bool>::empty());
    assert(s2.drop_last() =~= s1);
    assert(s3.drop_last() =~= s2);
    assert(s4.drop_last() =~= s3);
    assert(s5.drop_last() =~= s4);
    assert(s6.drop_last() =~= s5);
    assert(s.drop_last() =~= s6);
    assert(strip_parity(Seq::<bool>::empty()) == Seq::<bool>::empty());
    assert(strip_parity(s1) == Seq::<bool>::empty());
    assert(strip_parity(s2) == Seq::<bool>::empty());
    assert(strip_parity(s3) =~= seq![s[2]]);
    assert(strip_parity(s4) =~= seq![s[2]]);
    assert(strip_parity(s5) =~= seq![s[2], s[4]]);
    assert(strip_parity(s6) =~= seq![s[2], s[4], s[5]]);
    assert(strip_parity(s) =~= seq![s[2], s[4], s[5], s[6]]);
}

/// Counts the set bits of `code` at the positions in `av`.
fn count_in_set(code: &BitVec, av: &std::collections::HashSet<u32>) -> (r: u32)
    requires
        bits_of(*code).len() < 0x1_0000_0000,
    ensures
        r == set_count(bits_of(*code), av@, bits_of(*code).len() as int),
{
    broadcast use vstd::std_specs::hash::group_hash_axioms;

    let ghost s = bits_of(*code);
    let n = bv_len(code);
    let mut counter: u32 = 0;
    let mut y: usize = 0;
    while y < n
        invariant
            n == s.len(),
            s == bits_of(*code),
            n < 0x1_0000_0000,
            y <= n,
            counter <= y,
            counter == set_count(s, av@, y as int),
        decreases n - y,
    {
        if av.contains(&(y as u32)) {
            if bv_get(code, y).unwrap() == true {
                counter += 1;
            }
        }
        y += 1;
    }
    counter
}

/// Checks a coded block against its three parity bits, corrects it and
/// returns its data bits.
pub fn parity_check(code: BitVec) -> (r: BitVec)
    requires
        4 <= bits_of(code).len() < 0x1_0000_0000,
        fix_position(bits_of(code)) < bits_of(code).len(),
    ensures
        bits_of(r) == spec_parity_check(bits_of(code)),
{
    let ghost s = bits_of(code);
    let mut parity = bv_from_elem(3, false);
    let mut indexes: Vec<std::collections::HashSet<u32>> = Vec::new();
    let mut x: u32 = 0;
    while x < 3
        invariant
            s == bits_of(code),
            4 <= s.len() < 0x1_0000_0000,
            x <= 3,
            bits_of(parity).len() == 3,
            indexes@.len() == x,
            forall|i: int| 0 <= i < x ==> (#[trigger] indexes@[i])@ == check_set(i as nat, 7),
            forall|i: int| 0 <= i < x ==> bits_of(parity)[i] == check_ok(s, i as nat),
        decreases 3 - x,
    {
        proof {
            lemma_walks_fit(x as nat);
            lemma_pow2_values();
        }
        let av = indexes_to_check(x, 7);
        let mut kk = false;
        let counter = count_in_set(&code, &av);
        indexes.push(av);
        if counter % 2 == 0 {
            kk = true;
        }
        let pos = pow2_u32(x) - 1;
        if bv_get(&code, pos as usize).unwrap() != kk {
            bv_set(&mut parity, x as usize, false);
        } else {
            bv_set(&mut parity, x as usize, true);
        }
        x += 1;
    }
    let ghost p = bits_of(parity);
    let ghost sets = set_views(indexes@);
    proof {
        assert(p =~= check_results(s));
        lemma_check_sets();
        reveal_with_fuel(scan_indices, 4);
        reveal_with_fuel(count_zeros, 4);
        assert(p.take(3) =~= p);
        assert(p.take(3).drop_last() =~= p.take(2));
        assert(p.take(2).drop_last() =~= p.take(1));
        assert(p.take(1).drop_last() =~= p.take(0));
        assert(sets[0] == check_set(0, 7));
        assert(sets[1] == check_set(1, 7));
        assert(sets[2] == check_set(2, 7));
        assert(p.len() % 0x1_0000_0000 == 3);
        if !all_pass(p) && failing_checks(p) == 2 {
            let (i1, i2, i3) = scan_indices(p, 3);
            assert(0 <= i1 < 3 && 0 <= i2 < 3 && 0 <= i3 < 3);
            assert(flip_candidates(sets, p) =~= set![fix_position(s) as u32]);
            assert(flip_candidates(sets, p).contains(fix_position(s) as u32));
        }
        if all_pass(p) {
            assert(fix_position(s) == -1);
        } else {
            assert(fix_position(s) != -1);
        }
    }
    flipped_bit(indexes, parity, code)
}

/// The data bits of the first `count` seven-bit blocks of `w`, corrected.
pub open spec fn decoded_blocks(w: Seq<bool>, count: nat) -> Seq<bool> {
    Seq::new(count * 4, |i: int| spec_parity_check(w.subrange(7 * (i / 4), 7 * (i / 4) + 7))[i % 4])
}

/// The decoded bit string: the corrected data bits of every whole block
/// that `checking_for_eight` keeps.
pub open spec fn spec_decode_bits(coded: Seq<u8>) -> Seq<bool> {
    let t = spec_checking_for_eight(bytes_to_bits(coded));
    decoded_blocks(t, t.len() / 7)
}

/// What `decode` returns: the decoded bit string packed into bytes.
pub open spec fn spec_decode(coded: Seq<u8>) -> Seq<u8> {
    bits_to_bytes(spec_decode_bits(coded))
}

/// A seven-bit block decodes to four bits.
proof fn lemma_parity_check_len(s: Seq<bool>)
    requires
        s.len() == 7,
    ensures
        spec_parity_check(s).len() == 4,
{
    lemma_strip7(s);
    if fix_position(s) != -1 {
        lemma_strip7(flip(s, fix_position(s)));
    }
}

/// Decodes a byte string coded with the Hamming [7,4] code, correcting
/// what single errors the checks locate.
pub fn decode(coded: &[u8]) -> (r: Vec<u8>)
    requires
        coded@.len() >= 1,
        coded@.len() * 8 <= usize::MAX,
    ensures
        r@ == spec_decode(coded@),
{
    let mut word = bv_from_bytes(coded);
    let mut encoded_whole = bv_new();
    assert((bits_of(word).len() - 1) % 4 == 3);
    let ghost wlen = bits_of(word).len();
    word = checking_for_eight(word);
    let ghost t = bits_of(word);
    assert(t.len() + 6 <= wlen);
    assert(wlen % 8 == 0);
    assert(t.len() + 7 <= usize::MAX);
    let mut start: usize = 0;
    let mut end: usize = 7;
    let ghost mut k: nat = 0;
    loop
        invariant
            t == bits_of(word),
            t.len() + 7 <= usize::MAX,
            start == 7 * k,
            end == 7 * k + 7,
            7 * k <= t.len(),
            bits_of(encoded_whole) == decoded_blocks(t, k),
        ensures
            k == t.len() / 7,
            bits_of(encoded_whole) == decoded_blocks(t, k),
        decreases t.len() - 7 * k,
    {
        if end > bv_len(&word) {
            break;
        }
        let word1 = copy_bits(&word, start, end);
        let ghost w1 = bits_of(word1);
        proof {
            lemma_parity_check_len(w1);
        }
        let encoded = parity_check(word1);
        proof {
            assert forall|i: int| 0 <= i < (k + 1) * 4 implies #[trigger] decoded_blocks(t, k + 1)[i]
                == (decoded_blocks(t, k) + bits_of(encoded))[i] by {
                if i >= k * 4 {
                    assert(i - k * 4 == i % 4) by (nonlinear_arith)
                        requires k * 4 <= i < (k + 1) * 4;
                    assert(i / 4 == k) by (nonlinear_arith)
                        requires k * 4 <= i < (k + 1) * 4;
                }
            }
            assert(decoded_blocks(t, k + 1) =~= decoded_blocks(t, k) + bits_of(encoded));
        }
        encoded_whole = append(encoded_whole, encoded);
        start += 7;
        end += 7;
        proof {
            k = k + 1;
        }
    }
    bv_to_bytes(&encoded_whole)
}

// ---------------------------------------------------------------------------
// Laws
// ---------------------------------------------------------------------------

/// The checks of a block built by `set_parity` all pass.
proof fn lemma_fresh_block_checks(d: Seq<bool>)
    requires
        d.len() == 4,
    ensures
        spec_set_parity(d, 3).len() == 7,
        check_results(spec_set_parity(d, 3)) == seq![true, true, true],
        fix_position(spec_set_parity(d, 3)) == -1,
{
    let s = spec_set_parity(d, 3);
    lemma_pow2_values();
    lemma_check_sets();
    reveal_with_fuel(set_count, 8);
    assert(check_results(s) =~= seq![true, true, true]);
}

/// A block built by `set_parity` from four data bits decodes to those bits.
pub proof fn lemma_block_roundtrip(d: Seq<bool>)
    requires
        d.len() == 4,
    ensures
        spec_parity_check(spec_set_parity(d, 3)) == d,
{
    let s = spec_set_parity(d, 3);
    lemma_fresh_block_checks(d);
    lemma_strip7(s);
    assert(spec_parity_check(s) =~= d);
}

/// A block built by `set_parity` still decodes to its data bits after one of
/// its data bits (positions 2, 4, 5 and 6) was inverted.
pub proof fn lemma_block_corrects_data_error(d: Seq<bool>, j: int)
    requires
        d.len() == 4,
        j == 2 || j == 4 || j == 5 || j == 6,
    ensures
        spec_parity_check(flip(spec_set_parity(d, 3), j)) == d,
{
    let s = spec_set_parity(d, 3);
    let e = flip(s, j);
    lemma_fresh_block_checks(d);
    lemma_pow2_values();
    lemma_check_sets();
    reveal_with_fuel(set_count, 8);
    assert(fix_position(e) == j);
    assert(flip(e, j) =~= s);
    lemma_strip7(s);
    assert(spec_parity_check(e) =~= d);
}

/// The coded bits of an input whose length leaves remainder 0 or 3 divided
/// by 4: `checking_for_eight` keeps exactly its `2n` coded blocks.
proof fn lemma_coded_frame(input: Seq<u8>)
    requires
        input.len() % 4 == 0 || input.len() % 4 == 3,
        input.len() * 8 < 0x1_0000_0000,
    ensures
        bytes_to_bits(spec_encode(input)).len() >= 14 * input.len() + 1,
        trunc_end(bytes_to_bits(spec_encode(input))) == 14 * input.len() + 1,
        spec_checking_for_eight(bytes_to_bits(spec_encode(input))) == encoded_blocks(
            bytes_to_bits(input),
            2 * input.len(),
        ),
        block_count(input.len()) == 2 * input.len(),
{
    let n = input.len();
    let b = bytes_to_bits(input);
    let count = block_count(n);
    assert(count == 2 * n);
    let e = spec_encode_bits(input);
    let blocks = encoded_blocks(b, count);
    assert(e.len() == 14 * n + 1);
    crate::bits::lemma_bits_bytes_bits(e);
    let pe = crate::bits::pad_to_bytes(e);
    let coded = spec_encode(input);
    assert(bytes_to_bits(coded) == pe);
    let q = n / 4;
    if n % 4 == 0 {
        assert(n == 4 * q);
        assert((14 * n + 1 + 7) / 8 == 7 * q + 1);
        assert(pe.len() == 14 * n + 8);
        assert(e[0] == false);
        assert(trunc_end(pe) == 14 * n + 1);
    } else {
        assert(n == 4 * q + 3);
        assert((14 * n + 1 + 7) / 8 == 7 * q + 6);
        assert(pe.len() == 14 * n + 6);
        assert(e[0] == true);
        assert((pe.len() - 1) % 4 == 3);
        assert(trunc_end(pe) == 14 * n + 1);
    }
    assert(spec_checking_for_eight(pe) =~= blocks);
}

/// Block `k` of the coded blocks is the block built from data bits
/// `4k .. 4k + 4`.
proof fn lemma_block_of(b: Seq<bool>, count: nat, k: int)
    requires
        0 <= k < count,
        b.len() == 4 * count,
    ensures
        7 * k + 7 <= encoded_blocks(b, count).len(),
        4 * k + 4 <= b.len(),
        encoded_blocks(b, count).subrange(7 * k, 7 * k + 7) == encoded_block(b, k),
{
    let t = encoded_blocks(b, count);
    assert(7 * k + 7 <= t.len()) by (nonlinear_arith)
        requires 0 <= k < count, t.len() == count * 7;
    let blk = t.subrange(7 * k, 7 * k + 7);
    assert forall|m: int| 0 <= m < 7 implies blk[m] == encoded_block(b, k)[m] by {
        assert((7 * k + m) / 7 == k) by (nonlinear_arith)
            requires 0 <= m < 7;
        assert((7 * k + m) % 7 == m) by (nonlinear_arith)
            requires 0 <= m < 7;
    }
    assert(blk =~= encoded_block(b, k));
}

/// Blocks that each decode to their four data bits decode together to all
/// of them.
proof fn lemma_blocks_decode(b: Seq<bool>, t: Seq<bool>, count: nat)
    requires
        b.len() == 4 * count,
        t.len() == 7 * count,
        forall|k: int|
            0 <= k < count ==> #[trigger] spec_parity_check(t.subrange(7 * k, 7 * k + 7)) == b.subrange(
                4 * k,
                4 * k + 4,
            ),
    ensures
        decoded_blocks(t, count) == b,
{
    let dec = decoded_blocks(t, count);
    assert forall|i: int| 0 <= i < dec.len() implies #[trigger] dec[i] == b[i] by {
        let k = i / 4;
        assert(0 <= k < count);
        assert(spec_parity_check(t.subrange(7 * k, 7 * k + 7)) == b.subrange(4 * k, 4 * k + 4));
        assert(i % 4 + 4 * k == i);
    }
    assert(dec =~= b);
}

/// Decoding an encoded byte string gives it back when its length leaves
/// remainder 0 or 3 divided by 4 and its bit count fits in a `u32`.
pub proof fn lemma_roundtrip(input: Seq<u8>)
    requires
        input.len() % 4 == 0 || input.len() % 4 == 3,
        input.len() * 8 < 0x1_0000_0000,
    ensures
        spec_decode(spec_encode(input)) == input,
{
    let n = input.len();
    let b = bytes_to_bits(input);
    let count = 2 * n;
    lemma_coded_frame(input);
    let t = spec_checking_for_eight(bytes_to_bits(spec_encode(input)));
    assert(t.len() / 7 == count);
    assert forall|k: int| 0 <= k < count implies #[trigger] spec_parity_check(t.subrange(7 * k, 7 * k + 7))
        == b.subrange(4 * k, 4 * k + 4) by {
        lemma_block_of(b, count, k);
        lemma_block_roundtrip(b.subrange(4 * k, 4 * k + 4));
    }
    lemma_blocks_decode(b, t, count);
    crate::bits::lemma_bytes_bits_bytes(input);
}

/// Block `kk` of the coded blocks with data bit `j` of block `k` inverted
/// still decodes to its four data bits.
proof fn lemma_flipped_block(b: Seq<bool>, count: nat, k: int, j: int, kk: int)
    requires
        b.len() == 4 * count,
        0 <= k < count,
        0 <= kk < count,
        j == 2 || j == 4 || j == 5 || j == 6,
    ensures
        spec_parity_check(flip(encoded_blocks(b, count), 7 * k + j).subrange(7 * kk, 7 * kk + 7)) == b.subrange(
            4 * kk,
            4 * kk + 4,
        ),
{
    let t = encoded_blocks(b, count);
    let tr = flip(t, 7 * k + j);
    lemma_block_of(b, count, k);
    lemma_block_of(b, count, kk);
    let d = b.subrange(4 * kk, 4 * kk + 4);
    if kk == k {
        assert(tr.subrange(7 * kk, 7 * kk + 7) =~= flip(encoded_block(b, kk), j));
        lemma_block_corrects_data_error(d, j);
    } else {
        assert(tr.subrange(7 * kk, 7 * kk + 7) =~= t.subrange(7 * kk, 7 * kk + 7));
        lemma_block_roundtrip(d);
    }
}

/// Inverting a bit that `checking_for_eight` keeps inverts the same bit of
/// what it returns.
proof fn lemma_cut_flipped(c: Seq<bool>, p: int)
    requires
        1 <= p < trunc_end(c),
        trunc_end(c) <= c.len(),
    ensures
        spec_checking_for_eight(flip(c, p)) == flip(spec_checking_for_eight(c), p - 1),
{
    let r = flip(c, p);
    assert(r[0] == c[0]);
    assert(trunc_end(r) == trunc_end(c));
    assert(spec_checking_for_eight(r) =~= flip(spec_checking_for_eight(c), p - 1));
}

/// Decoding still gives the input back after one data bit of one coded
/// block was inverted: bit `j` (2, 4, 5 or 6) of block `k`, which stands at
/// bit `1 + 7k + j` of the coded bytes.  As for the round trip, the input's
/// length leaves remainder 0 or 3 divided by 4 and its bit count fits in a
/// `u32`.
pub proof fn lemma_corrects_data_error(input: Seq<u8>, received: Seq<u8>, k: int, j: int)
    requires
        input.len() % 4 == 0 || input.len() % 4 == 3,
        input.len() * 8 < 0x1_0000_0000,
        0 <= k < 2 * input.len(),
        j == 2 || j == 4 || j == 5 || j == 6,
        bytes_to_bits(received) == flip(bytes_to_bits(spec_encode(input)), 1 + 7 * k + j),
    ensures
        spec_decode(received) == input,
{
    let n = input.len();
    let b = bytes_to_bits(input);
    let count: nat = 2 * n;
    let pe = bytes_to_bits(spec_encode(input));
    let t = spec_checking_for_eight(pe);
    let tr = spec_checking_for_eight(bytes_to_bits(received));
    assert(tr == flip(encoded_blocks(b, count), 7 * k + j) && b.len() == 4 * count) by {
        lemma_coded_frame(input);
        lemma_cut_flipped(pe, 1 + 7 * k + j);
    }
    assert(decoded_blocks(tr, count) == b) by {
        assert forall|kk: int| 0 <= kk < count implies #[trigger] spec_parity_check(
            tr.subrange(7 * kk, 7 * kk + 7),
        ) == b.subrange(4 * kk, 4 * kk + 4) by {
            lemma_flipped_block(b, count, k, j, kk);
        }
        lemma_blocks_decode(b, tr, count);
    }
    assert(tr.len() / 7 == count);
    assert(spec_decode_bits(received) == b);
    crate::bits::lemma_bytes_bits_bytes(input);
}

} // verus!
